use vstd::prelude::*;
use vstd::std_specs::iter::IteratorSpec;

verus! {

/// The lowercase form of a text, as `str::to_lowercase` computes it from the
/// Unicode tables. Nothing more is known of it here.
pub uninterp spec fn lowercase(s: Seq<char>) -> Seq<char>;

/// Trusted, not proved: `str::to_lowercase` returns a new `String` with the
/// lowercase equivalent of the slice, which depends on the characters of the
/// slice and on nothing else. The contract only gives that result its name.
pub assume_specification[ str::to_lowercase ](s: &str) -> (r: String)
    ensures
        r@ == lowercase(s@),
;

/// Trusted, not proved: `String::push` appends the character to the end of the
/// string and leaves what was there before as it was.
pub assume_specification[ String::push ](s: &mut String, c: char)
    ensures
        final(s)@ == old(s)@.push(c),
;

/// The place of the first `sep` in `s`, or the length of `s` if it holds none.
pub open spec fn first_index(s: Seq<char>, sep: char) -> int
    decreases s.len(),
{
    if s.len() == 0 || s[0] == sep {
        0
    } else {
        1 + first_index(s.drop_first(), sep)
    }
}

/// What is left of a limit on the number of pieces once one piece is cut off.
pub open spec fn one_less(limit: Option<nat>) -> Option<nat> {
    match limit {
        Some(n) => Some((n - 1) as nat),
        None => None,
    }
}

/// The pieces of `s` between the occurrences of `sep`, from the left. With a
/// limit the cutting stops when only one more piece is allowed, so that the last
/// piece holds the rest of `s`, separators included. There is always one piece at
/// least.
pub open spec fn pieces(s: Seq<char>, sep: char, limit: Option<nat>) -> Seq<Seq<char>>
    decreases s.len(),
{
    let i = first_index(s, sep);
    if !(0 <= i < s.len()) || limit == Some(0nat) || limit == Some(1nat) {
        seq![s]
    } else {
        seq![s.take(i)] + pieces(s.skip(i + 1), sep, one_less(limit))
    }
}

/// The texts that a sequence of strings holds.
pub open spec fn texts(v: Seq<String>) -> Seq<Seq<char>> {
    Seq::new(v.len(), |i: int| v[i]@)
}

/// The limit that an executable caller gave, as a number without bound.
pub open spec fn limit_of(limit: Option<usize>) -> Option<nat> {
    match limit {
        Some(n) => Some(n as nat),
        None => None,
    }
}

/// `first_index` is the one place with a `sep` at it and none before it.
pub proof fn lemma_first_index(s: Seq<char>, sep: char, i: int)
    requires
        0 <= i <= s.len(),
        forall|j: int| 0 <= j < i ==> s[j] != sep,
        i < s.len() ==> s[i] == sep,
    ensures
        first_index(s, sep) == i,
    decreases i,
{
    if i > 0 {
        let t = s.drop_first();
        assert forall|j: int| 0 <= j < i - 1 implies t[j] != sep by {
            assert(t[j] == s[j + 1]);
        }
        lemma_first_index(t, sep, i - 1);
    }
}

/// There is always one piece at least.
pub proof fn lemma_pieces_len(s: Seq<char>, sep: char, limit: Option<nat>)
    ensures
        pieces(s, sep, limit).len() >= 1,
    decreases s.len(),
{
    let i = first_index(s, sep);
    if !(0 <= i < s.len()) || limit == Some(0nat) || limit == Some(1nat) {
    } else {
        lemma_pieces_len(s.skip(i + 1), sep, one_less(limit));
    }
}

/// A text without `sep` is one piece.
pub proof fn lemma_pieces_whole(s: Seq<char>, sep: char, limit: Option<nat>)
    requires
        forall|i: int| 0 <= i < s.len() ==> s[i] != sep,
    ensures
        pieces(s, sep, limit) == seq![s],
{
    lemma_first_index(s, sep, s.len() as int);
}

/// Where a text without `sep` is followed by `sep` and more, and the limit
/// allows a cut, the text is the first piece and the pieces of what follows
/// `sep` are the others.
pub proof fn lemma_pieces_cut(head: Seq<char>, rest: Seq<char>, sep: char, limit: Option<nat>)
    requires
        forall|i: int| 0 <= i < head.len() ==> head[i] != sep,
        limit != Some(0nat),
        limit != Some(1nat),
    ensures
        pieces(head + seq![sep] + rest, sep, limit) == seq![head] + pieces(
            rest,
            sep,
            one_less(limit),
        ),
{
    let s = head + seq![sep] + rest;
    lemma_first_index(s, sep, head.len() as int);
    assert(s.take(head.len() as int) =~= head);
    assert(s.skip(head.len() as int + 1) =~= rest);
}

/// Cuts `text` at each `sep`, or at the first `limit - 1` of them.
pub fn split(text: &str, sep: char, limit: Option<usize>) -> (out: Vec<String>)
    ensures
        texts(out@) == pieces(text@, sep, limit_of(limit)),
{
    let mut out: Vec<String> = Vec::new();
    let mut cur = String::new();
    let mut chars = text.chars();
    let ghost mut start: int = 0;
    let ghost mut i: int = 0;
    proof {
        assert(text@.skip(0) == text@);
        assert(texts(out@) + pieces(text@, sep, limit_of(limit)) == pieces(
            text@,
            sep,
            limit_of(limit),
        ));
    }
    loop
        invariant
            0 <= start <= i <= text@.len(),
            chars.remaining() == text@.skip(i),
            cur@ == text@.subrange(start, i),
            limit matches Some(n) ==> out.len() <= n,
            forall|j: int|
                start <= j < i ==> text@[j] != sep || (limit matches Some(n) && n <= out.len()
                    + 1),
            pieces(text@, sep, limit_of(limit)) == texts(out@) + pieces(
                text@.skip(start),
                sep,
                match limit {
                    Some(n) => Some((n - out.len()) as nat),
                    None => None,
                },
            ),
        decreases text@.len() - i,
    {
        let ghost rest = text@.skip(start);
        let ghost left: Option<nat> = match limit {
            Some(n) => Some((n - out.len()) as nat),
            None => None,
        };
        let may_cut = match limit {
            Some(n) => n > 0 && out.len() < n - 1,
            None => true,
        };
        match chars.next() {
            None => {
                proof {
                    assert(i == text@.len());
                    if may_cut {
                        lemma_first_index(rest, sep, rest.len() as int);
                    }
                    assert(pieces(rest, sep, left) == seq![rest]);
                    assert(texts(out@.push(cur)) == texts(out@) + seq![rest]);
                }
                out.push(cur);
                return out;
            },
            Some(c) => {
                assert(c == text@[i]);
                assert(text@.skip(i).drop_first() == text@.skip(i + 1));
                if c == sep && may_cut {
                    proof {
                        assert forall|j: int| 0 <= j < i - start implies rest[j] != sep by {
                            assert(rest[j] == text@[start + j]);
                        }
                        lemma_first_index(rest, sep, i - start);
                        assert(rest.take(i - start) == cur@);
                        assert(rest.skip(i - start + 1) == text@.skip(i + 1));
                        assert(texts(out@.push(cur)) == texts(out@) + seq![cur@]);
                        assert(pieces(rest, sep, left) == seq![cur@] + pieces(
                            text@.skip(i + 1),
                            sep,
                            one_less(left),
                        ));
                        start = i + 1;
                    }
                    out.push(cur);
                    cur = String::new();
                } else {
                    cur.push(c);
                    proof {
                        assert(text@.subrange(start, i + 1) == text@.subrange(start, i).push(c));
                    }
                }
                proof {
                    i = i + 1;
                }
            },
        }
    }
}

/// Whether a character is white space: one of the 25 characters that Unicode
/// gives the mark `White_Space`.
pub open spec fn is_whitespace(c: char) -> bool {
    ||| '\u{9}' <= c <= '\u{d}'
    ||| c == ' '
    ||| c == '\u{85}'
    ||| c == '\u{a0}'
    ||| c == '\u{1680}'
    ||| '\u{2000}' <= c <= '\u{200a}'
    ||| c == '\u{2028}'
    ||| c == '\u{2029}'
    ||| c == '\u{202f}'
    ||| c == '\u{205f}'
    ||| c == '\u{3000}'
}

/// Whether `c` is white space.
pub fn is_white_space(c: char) -> (r: bool)
    ensures
        r == is_whitespace(c),
{
    (c >= '\u{9}' && c <= '\u{d}') || c == ' ' || c == '\u{85}' || c == '\u{a0}' || c == '\u{1680}'
        || (c >= '\u{2000}' && c <= '\u{200a}') || c == '\u{2028}' || c == '\u{2029}' || c
        == '\u{202f}' || c == '\u{205f}' || c == '\u{3000}'
}

/// A text is blank when nothing is left of it once white space is trimmed away:
/// it is empty or holds white space only.
pub open spec fn blank(s: Seq<char>) -> bool {
    forall|i: int| 0 <= i < s.len() ==> is_whitespace(#[trigger] s[i])
}

/// Whether `s` is empty or holds white space only.
pub fn is_blank(s: &str) -> (r: bool)
    ensures
        r == blank(s@),
{
    let mut chars = s.chars();
    let ghost mut i: int = 0;
    loop
        invariant
            0 <= i <= s@.len(),
            chars.remaining() == s@.skip(i),
            forall|j: int| 0 <= j < i ==> is_whitespace(#[trigger] s@[j]),
        decreases s@.len() - i,
    {
        match chars.next() {
            None => {
                return true;
            },
            Some(c) => {
                assert(c == s@[i]);
                assert(s@.skip(i).drop_first() == s@.skip(i + 1));
                if !is_white_space(c) {
                    return false;
                }
                proof {
                    i = i + 1;
                }
            },
        }
    }
}

/// Whether two texts hold the same characters.
pub fn same_text(a: &str, b: &str) -> (r: bool)
    ensures
        r == (a@ == b@),
{
    let mut x = a.chars();
    let mut y = b.chars();
    let ghost mut n: int = 0;
    loop
        invariant
            0 <= n <= a@.len(),
            n <= b@.len(),
            x.remaining() == a@.skip(n),
            y.remaining() == b@.skip(n),
            a@.take(n) == b@.take(n),
        decreases a@.len() - n,
    {
        match (x.next(), y.next()) {
            (None, None) => {
                assert(a@ == a@.take(n));
                assert(b@ == b@.take(n));
                return true;
            },
            (Some(c), Some(d)) => {
                assert(a@[n] == c && b@[n] == d);
                if c != d {
                    return false;
                }
                proof {
                    assert(a@.take(n + 1) == a@.take(n).push(c));
                    assert(b@.take(n + 1) == b@.take(n).push(d));
                    assert(a@.skip(n).drop_first() == a@.skip(n + 1));
                    assert(b@.skip(n).drop_first() == b@.skip(n + 1));
                    n = n + 1;
                }
            },
            _ => {
                assert(a@.len() != b@.len());
                return false;
            },
        }
    }
}

} // verus!
