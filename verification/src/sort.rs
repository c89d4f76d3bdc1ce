use vstd::prelude::*;

verus! {

/// Each number of the sequence is less than the ones behind it.
pub open spec fn ascending(s: Seq<i64>) -> bool {
    forall|i: int, j: int| 0 <= i < j < s.len() ==> s[i] < s[j]
}

/// Merges two ascending sequences that share no number into one.
fn merge(a: &Vec<i64>, b: &Vec<i64>) -> (out: Vec<i64>)
    requires
        ascending(a@),
        ascending(b@),
        forall|i: int, j: int| 0 <= i < a.len() && 0 <= j < b.len() ==> a[i] != b[j],
    ensures
        ascending(out@),
        out@.to_set() == a@.to_set() + b@.to_set(),
{
    let mut out: Vec<i64> = Vec::new();
    let mut i: usize = 0;
    let mut j: usize = 0;
    assert(a@.take(0).to_set() + b@.take(0).to_set() =~= out@.to_set());
    while i < a.len() || j < b.len()
        invariant
            i <= a.len(),
            j <= b.len(),
            ascending(a@),
            ascending(b@),
            forall|x: int, y: int| 0 <= x < a.len() && 0 <= y < b.len() ==> a[x] != b[y],
            ascending(out@),
            out@.to_set() == a@.take(i as int).to_set() + b@.take(j as int).to_set(),
            forall|k: int| 0 <= k < out.len() && i < a.len() ==> out[k] < a[i as int],
            forall|k: int| 0 <= k < out.len() && j < b.len() ==> out[k] < b[j as int],
        decreases a.len() - i + b.len() - j,
    {
        let ghost before = out@;
        if j >= b.len() || (i < a.len() && a[i] < b[j]) {
            let x = a[i];
            out.push(x);
            proof {
                assert(a@.take(i + 1) == a@.take(i as int).push(x));
                before.lemma_push_to_set_commute(x);
                a@.take(i as int).lemma_push_to_set_commute(x);
                assert(out@.to_set() =~= a@.take(i + 1).to_set() + b@.take(j as int).to_set());
            }
            i = i + 1;
        } else {
            let y = b[j];
            out.push(y);
            proof {
                assert(b@.take(j + 1) == b@.take(j as int).push(y));
                before.lemma_push_to_set_commute(y);
                b@.take(j as int).lemma_push_to_set_commute(y);
                assert(out@.to_set() =~= a@.take(i as int).to_set() + b@.take(j + 1).to_set());
            }
            j = j + 1;
        }
    }
    assert(a@.take(a.len() as int) == a@);
    assert(b@.take(b.len() as int) == b@);
    out
}

/// The numbers of `v` from place `lo` up to `hi`, in ascending order.
fn sort_range(v: &Vec<i64>, lo: usize, hi: usize) -> (out: Vec<i64>)
    requires
        lo <= hi <= v.len(),
        v@.no_duplicates(),
    ensures
        ascending(out@),
        out@.to_set() == v@.subrange(lo as int, hi as int).to_set(),
    decreases hi - lo,
{
    if hi - lo == 0 {
        let out: Vec<i64> = Vec::new();
        assert(out@.to_set() =~= v@.subrange(lo as int, hi as int).to_set());
        out
    } else if hi - lo == 1 {
        let mut out: Vec<i64> = Vec::new();
        out.push(v[lo]);
        assert(out@ =~= v@.subrange(lo as int, hi as int));
        out
    } else {
        let mid = lo + (hi - lo) / 2;
        let left = sort_range(v, lo, mid);
        let right = sort_range(v, mid, hi);
        proof {
            let l = v@.subrange(lo as int, mid as int);
            let r = v@.subrange(mid as int, hi as int);
            assert forall|i: int, j: int|
                0 <= i < left.len() && 0 <= j < right.len() implies left[i] != right[j] by {
                assert(left@.to_set().contains(left[i]));
                assert(right@.to_set().contains(right[j]));
                let x = l.index_of(left[i]);
                let y = r.index_of(right[j]);
                assert(v[lo + x] == left[i]);
                assert(v[mid + y] == right[j]);
            }
            assert(v@.subrange(lo as int, hi as int) =~= l + r);
            vstd::seq_lib::seq_to_set_distributes_over_add(l, r);
        }
        merge(&left, &right)
    }
}

/// Puts numbers of which none occurs twice in ascending order.
pub(crate) fn sort(v: &Vec<i64>) -> (out: Vec<i64>)
    requires
        v@.no_duplicates(),
    ensures
        ascending(out@),
        out@.to_set() == v@.to_set(),
{
    assert(v@.subrange(0, v.len() as int) == v@);
    sort_range(v, 0, v.len())
}

} // verus!
