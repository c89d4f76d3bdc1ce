use vstd::prelude::*;
use vstd::std_specs::iter::IteratorSpec;

verus! {

/// Why a text is no decimal integer that fits in 64 bits.
#[derive(Clone, Copy, Debug, PartialEq, Eq, Structural)]
pub enum IntFault {
    /// The text is empty.
    Empty,
    /// The text holds a character that is no digit, or a sign with nothing behind it.
    InvalidDigit,
    /// The digits stand for a number above `i64::MAX`.
    PosOverflow,
    /// The digits stand for a number below `i64::MIN`.
    NegOverflow,
}

/// Whether a character is one of the ten decimal digits.
pub open spec fn is_digit(c: char) -> bool {
    '0' <= c <= '9'
}

/// The number that a decimal digit stands for.
pub open spec fn digit_value(c: char) -> int {
    c as int - '0' as int
}

/// The number that a run of decimal digits stands for; 0 for the empty run.
pub open spec fn digits_value(s: Seq<char>) -> int
    decreases s.len(),
{
    if s.len() == 0 {
        0
    } else {
        digits_value(s.drop_last()) * 10 + digit_value(s.last())
    }
}

/// How many digits stand at the front of `s` before its first other character.
pub open spec fn leading_digits(s: Seq<char>) -> int
    decreases s.len(),
{
    if s.len() == 0 || !is_digit(s[0]) {
        0
    } else {
        1 + leading_digits(s.drop_first())
    }
}

/// What remains of `s` behind its sign, if it starts with one.
pub open spec fn unsigned_part(s: Seq<char>) -> Seq<char> {
    if s.len() > 0 && (s[0] == '-' || s[0] == '+') {
        s.skip(1)
    } else {
        s
    }
}

/// The signed number that the digits at the front of `s`, behind its sign, stand for.
pub open spec fn leading_value(s: Seq<char>) -> int {
    let body = unsigned_part(s);
    let magnitude = digits_value(body.take(leading_digits(body)));
    if s.len() > 0 && s[0] == '-' {
        -magnitude
    } else {
        magnitude
    }
}

/// The reading of a text as a decimal integer of 64 bits: an optional sign, then
/// one digit or more and nothing else. Reading from the left, a number that has
/// left the range is reported before a character that is no digit.
pub open spec fn parsed_int(s: Seq<char>) -> Result<int, IntFault> {
    let body = unsigned_part(s);
    let value = leading_value(s);
    if s.len() == 0 {
        Err(IntFault::Empty)
    } else if body.len() == 0 {
        Err(IntFault::InvalidDigit)
    } else if value > i64::MAX {
        Err(IntFault::PosOverflow)
    } else if value < i64::MIN {
        Err(IntFault::NegOverflow)
    } else if leading_digits(body) < body.len() {
        Err(IntFault::InvalidDigit)
    } else {
        Ok(value)
    }
}

/// The decimal digit that stands for a number from 0 to 9.
pub open spec fn digit_char(d: int) -> char {
    ('0' as int + d) as char
}

/// The decimal digits of a natural number, without leading zeros.
pub open spec fn rendered_nat(n: nat) -> Seq<char>
    decreases n,
{
    if n < 10 {
        seq![digit_char(n as int)]
    } else {
        rendered_nat(n / 10).push(digit_char((n % 10) as int))
    }
}

/// The decimal form of an integer: a minus sign for a negative one, then its digits.
pub open spec fn rendered_int(n: int) -> Seq<char> {
    if n < 0 {
        seq!['-'] + rendered_nat((-n) as nat)
    } else {
        rendered_nat(n as nat)
    }
}

/// If the first `i` characters of `s` are digits and the next one, if any, is not,
/// then `s` has `i` leading digits.
pub proof fn lemma_leading_digits(s: Seq<char>, i: int)
    requires
        0 <= i <= s.len(),
        forall|j: int| 0 <= j < i ==> is_digit(s[j]),
        i < s.len() ==> !is_digit(s[i]),
    ensures
        leading_digits(s) == i,
    decreases i,
{
    if i > 0 {
        let t = s.drop_first();
        assert forall|j: int| 0 <= j < i - 1 implies is_digit(t[j]) by {
            assert(t[j] == s[j + 1]);
        }
        lemma_leading_digits(t, i - 1);
    }
}

/// A longer run of digits does not stand for a smaller number.
pub proof fn lemma_digits_value_grows(s: Seq<char>, i: int, j: int)
    requires
        0 <= i <= j <= s.len(),
        forall|k: int| 0 <= k < j ==> is_digit(s[k]),
    ensures
        0 <= digits_value(s.take(i)) <= digits_value(s.take(j)),
    decreases j,
{
    if j == 0 {
    } else if i == j {
        assert(s.take(j).drop_last() == s.take(j - 1));
        lemma_digits_value_grows(s, i - 1, j - 1);
    } else {
        assert(s.take(j).drop_last() == s.take(j - 1));
        lemma_digits_value_grows(s, i, j - 1);
    }
}

/// What `leading_digits` counts: digits up to that place, and none at it.
pub proof fn lemma_leading_digits_bounds(s: Seq<char>)
    ensures
        0 <= leading_digits(s) <= s.len(),
        forall|k: int| 0 <= k < leading_digits(s) ==> is_digit(s[k]),
        leading_digits(s) < s.len() ==> !is_digit(s[leading_digits(s)]),
    decreases s.len(),
{
    if s.len() == 0 || !is_digit(s[0]) {
    } else {
        let t = s.drop_first();
        lemma_leading_digits_bounds(t);
        assert forall|k: int| 0 <= k < leading_digits(s) implies is_digit(s[k]) by {
            if k > 0 {
                assert(s[k] == t[k - 1]);
            }
        }
        if leading_digits(s) < s.len() {
            assert(s[leading_digits(s)] == t[leading_digits(t)]);
        }
    }
}

/// The digits of a natural number are digits, at least one, and stand for it.
pub proof fn lemma_rendered_nat(n: nat)
    ensures
        rendered_nat(n).len() >= 1,
        forall|j: int| 0 <= j < rendered_nat(n).len() ==> is_digit(#[trigger] rendered_nat(n)[j]),
        digits_value(rendered_nat(n)) == n,
    decreases n,
{
    if n < 10 {
        let s = rendered_nat(n);
        assert(s.drop_last() =~= Seq::<char>::empty());
        assert(digits_value(s.drop_last()) == 0);
    } else {
        lemma_rendered_nat(n / 10);
        let s = rendered_nat(n);
        assert(s.drop_last() =~= rendered_nat(n / 10));
    }
}

/// The decimal form of an integer holds digits and, for a negative one, a minus
/// sign in front: no other character.
pub proof fn lemma_rendered_int_chars(n: int)
    ensures
        rendered_int(n).len() >= 1,
        forall|j: int|
            0 <= j < rendered_int(n).len() ==> is_digit(#[trigger] rendered_int(n)[j])
                || rendered_int(n)[j] == '-',
{
    if n < 0 {
        lemma_rendered_nat((-n) as nat);
    } else {
        lemma_rendered_nat(n as nat);
    }
}

/// Reading what was written gives the number back.
pub proof fn lemma_parse_rendered(n: int)
    requires
        i64::MIN <= n <= i64::MAX,
    ensures
        parsed_int(rendered_int(n)) == Ok::<int, IntFault>(n),
{
    let s = rendered_int(n);
    if n < 0 {
        let digits = rendered_nat((-n) as nat);
        lemma_rendered_nat((-n) as nat);
        assert(s.skip(1) =~= digits);
        lemma_leading_digits(digits, digits.len() as int);
        assert(digits.take(digits.len() as int) =~= digits);
    } else {
        lemma_rendered_nat(n as nat);
        assert(is_digit(s[0]));
        lemma_leading_digits(s, s.len() as int);
        assert(s.take(s.len() as int) =~= s);
    }
}

/// Reads a decimal integer of 64 bits from the whole of `s`.
pub fn parse_int(s: &str) -> (r: Result<i64, IntFault>)
    ensures
        match r {
            Ok(v) => parsed_int(s@) == Ok::<int, IntFault>(v as int),
            Err(e) => parsed_int(s@) == Err::<int, IntFault>(e),
        },
{
    let mut chars = s.chars();
    let first = chars.next();
    let negative = match first {
        None => { return Err(IntFault::Empty); },
        Some(c) => c == '-',
    };
    let signed = first == Some('-') || first == Some('+');
    let ghost body = unsigned_part(s@);
    let mut cur = if signed { chars.next() } else { first };
    if cur.is_none() {
        return Err(IntFault::InvalidDigit);
    }
    let mut acc: i64 = 0;
    let ghost mut i: int = 0;
    proof {
        assert(body.take(0) =~= Seq::<char>::empty());
        lemma_leading_digits_bounds(body);
    }
    loop
        invariant
            s@.len() > 0,
            body == unsigned_part(s@),
            body.len() > 0,
            negative == (s@[0] == '-'),
            0 <= i <= body.len(),
            forall|j: int| 0 <= j < i ==> is_digit(body[j]),
            acc == (if negative {
                -digits_value(body.take(i))
            } else {
                digits_value(body.take(i))
            }),
            match cur {
                Some(ch) => i < body.len() && body[i] == ch && chars.remaining() == body.skip(
                    i + 1,
                ),
                None => i == body.len(),
            },
        decreases body.len() - i,
    {
        let ch = match cur {
            None => {
                proof {
                    lemma_leading_digits(body, i);
                    assert(body.take(i) == body);
                }
                return Ok(acc);
            },
            Some(ch) => ch,
        };
        if !(ch >= '0' && ch <= '9') {
            proof {
                lemma_leading_digits(body, i);
            }
            return Err(IntFault::InvalidDigit);
        }
        let d: i128 = (ch as u32 - '0' as u32) as i128;
        let next: i128 = if negative { (acc as i128) * 10 - d } else { (acc as i128) * 10 + d };
        proof {
            assert(body.take(i + 1).drop_last() == body.take(i));
            assert(d == digit_value(ch));
            let p = leading_digits(body);
            lemma_leading_digits_bounds(body);
            assert(p >= i + 1);
            lemma_digits_value_grows(body, i + 1, p);
        }
        if next > i64::MAX as i128 {
            return Err(IntFault::PosOverflow);
        }
        if next < i64::MIN as i128 {
            return Err(IntFault::NegOverflow);
        }
        acc = next as i64;
        proof {
            i = i + 1;
        }
        cur = chars.next();
        assert(body.skip(i).len() > 0 ==> body.skip(i).drop_first() == body.skip(i + 1));
    }
}

/// Writes `n` in decimal.
pub fn render_int(n: i64) -> (r: String)
    ensures
        r@ == rendered_int(n as int),
{
    let magnitude: u64 = if n < 0 { (-(n as i128)) as u64 } else { n as u64 };
    let mut m: u64 = magnitude;
    // The digits from the last to the first.
    let mut rev: Vec<char> = Vec::new();
    let ghost mut tail: Seq<char> = Seq::empty();
    while m >= 10
        invariant
            rendered_nat(magnitude as nat) == rendered_nat(m as nat) + tail,
            tail.len() == rev.len(),
            forall|j: int| 0 <= j < tail.len() ==> tail[j] == rev[rev.len() - 1 - j],
        decreases m,
    {
        let c = (('0' as u8) + ((m % 10) as u8)) as char;
        proof {
            assert(c == digit_char((m % 10) as int));
            assert(rendered_nat(m as nat) == rendered_nat((m / 10) as nat).push(c));
            assert(rendered_nat((m / 10) as nat).push(c) + tail == rendered_nat((m / 10) as nat) + (
            seq![c] + tail));
            tail = seq![c] + tail;
        }
        rev.push(c);
        m = m / 10;
    }
    let c = (('0' as u8) + (m as u8)) as char;
    proof {
        assert(c == digit_char(m as int));
        assert(rendered_nat(m as nat) + tail == seq![c] + tail);
        tail = seq![c] + tail;
    }
    rev.push(c);
    let mut out = String::new();
    if n < 0 {
        out.push('-');
    }
    let ghost sign = out@;
    let mut k: usize = rev.len();
    while k > 0
        invariant
            k <= rev.len(),
            tail.len() == rev.len(),
            forall|j: int| 0 <= j < tail.len() ==> tail[j] == rev[rev.len() - 1 - j],
            out@ == sign + tail.take(rev.len() - k),
        decreases k,
    {
        k = k - 1;
        out.push(rev[k]);
        proof {
            let done = rev.len() - k;
            assert(tail.take(done) == tail.take(done - 1).push(tail[done - 1]));
        }
    }
    assert(tail.take(rev.len() as int) == tail);
    assert(Seq::<char>::empty() + tail == tail);
    out
}

} // verus!
