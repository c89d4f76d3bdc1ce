use crate::food::as_int;
use crate::text::same_text;
use vstd::prelude::*;

verus! {

/// The values of the entries of a name index: each id with the key that the
/// name of its item is found by.
pub open spec fn keys_of(index: Seq<(i64, String)>) -> Seq<(int, Seq<char>)> {
    Seq::new(index.len(), |i: int| (index[i].0 as int, index[i].1@))
}

/// `k` is the least id that the index holds with the key `wanted`.
pub open spec fn is_first_key(index: Seq<(int, Seq<char>)>, wanted: Seq<char>, k: int) -> bool {
    &&& exists|i: int| 0 <= i < index.len() && index[i] == (k, wanted)
    &&& forall|i: int| 0 <= i < index.len() && (#[trigger] index[i]).1 == wanted ==> k <= index[i].0
}

/// The least id that the index holds with the key `wanted`, if there is one.
pub open spec fn first_key(index: Seq<(int, Seq<char>)>, wanted: Seq<char>) -> Option<int> {
    if exists|k: int| is_first_key(index, wanted, k) {
        Some(choose|k: int| is_first_key(index, wanted, k))
    } else {
        None
    }
}

/// The ids that the index holds with the key `wanted`.
pub open spec fn ids_with_key(index: Seq<(int, Seq<char>)>, wanted: Seq<char>) -> Set<int> {
    Set::new(|k: int| exists|i: int| 0 <= i < index.len() && index[i] == (k, wanted))
}

/// The ids of a list, as a set of numbers without bound.
pub open spec fn id_set(ids: Seq<i64>) -> Set<int> {
    Set::new(|k: int| i64::MIN <= k <= i64::MAX && ids.contains(k as i64))
}

/// Looks up the least id with the key `wanted`.
pub fn first_of(index: &Vec<(i64, String)>, wanted: &str) -> (r: Option<i64>)
    ensures
        as_int(r) == first_key(keys_of(index@), wanted@),
        r is None ==> forall|i: int| 0 <= i < index.len() ==> (#[trigger] index[i]).1@ != wanted@,
{
    let ghost keys = keys_of(index@);
    let mut best: Option<i64> = None;
    let mut i: usize = 0;
    while i < index.len()
        invariant
            i <= index.len(),
            keys == keys_of(index@),
            match best {
                Some(b) => {
                    &&& exists|j: int| 0 <= j < i && keys[j] == (b as int, wanted@)
                    &&& forall|j: int|
                        0 <= j < i && (#[trigger] keys[j]).1 == wanted@ ==> b <= keys[j].0
                },
                None => forall|j: int| 0 <= j < i ==> (#[trigger] keys[j]).1 != wanted@,
            },
        decreases index.len() - i,
    {
        assert(keys[i as int] == (index[i as int].0 as int, index[i as int].1@));
        if same_text(index[i].1.as_str(), wanted) {
            let id = index[i].0;
            match best {
                Some(b) => {
                    if id < b {
                        best = Some(id);
                    }
                },
                None => {
                    best = Some(id);
                },
            }
        }
        i = i + 1;
    }
    proof {
        match best {
            Some(b) => {
                assert(is_first_key(keys, wanted@, b as int));
            },
            None => {
                assert(!exists|k: int| is_first_key(keys, wanted@, k));
                assert forall|j: int| 0 <= j < index.len() implies (#[trigger] index[j]).1@
                    != wanted@ by {
                    assert(keys[j].1 != wanted@);
                }
            },
        }
    }
    best
}

/// Looks up every id with the key `wanted`.
pub fn all_of(index: &Vec<(i64, String)>, wanted: &str) -> (ids: Vec<i64>)
    ensures
        id_set(ids@) == ids_with_key(keys_of(index@), wanted@),
{
    let ghost keys = keys_of(index@);
    let mut ids: Vec<i64> = Vec::new();
    let mut i: usize = 0;
    while i < index.len()
        invariant
            i <= index.len(),
            keys == keys_of(index@),
            forall|j: int|
                0 <= j < i && (#[trigger] keys[j]).1 == wanted@ ==> ids@.contains(index[j].0),
            forall|a: int|
                0 <= a < ids.len() ==> exists|j: int|
                    0 <= j < i && keys[j] == ((#[trigger] ids[a]) as int, wanted@),
        decreases index.len() - i,
    {
        assert(keys[i as int] == (index[i as int].0 as int, index[i as int].1@));
        if same_text(index[i].1.as_str(), wanted) {
            let ghost before = ids@;
            ids.push(index[i].0);
            proof {
                assert forall|j: int|
                    0 <= j < i + 1 && (#[trigger] keys[j]).1 == wanted@ implies ids@.contains(
                    index[j].0,
                ) by {
                    if j < i {
                        let a = before.index_of(index[j].0);
                        assert(ids[a] == index[j].0);
                    } else {
                        assert(ids[ids.len() - 1] == index[j].0);
                    }
                }
                assert forall|a: int| 0 <= a < ids.len() implies exists|j: int|
                    0 <= j < i + 1 && keys[j] == ((#[trigger] ids[a]) as int, wanted@) by {
                    if a < before.len() {
                        assert(ids[a] == before[a]);
                        let j = choose|j: int| 0 <= j < i && keys[j] == (before[a] as int, wanted@);
                        assert(0 <= j < i + 1 && keys[j] == (ids[a] as int, wanted@));
                    } else {
                        assert(keys[i as int] == (ids[a] as int, wanted@));
                    }
                }
            }
        }
        i = i + 1;
    }
    proof {
        assert forall|k: int| id_set(ids@).contains(k) <==> ids_with_key(keys, wanted@).contains(
            k,
        ) by {
            if id_set(ids@).contains(k) {
                let a = ids@.index_of(k as i64);
                assert(ids[a] == k);
            }
            if ids_with_key(keys, wanted@).contains(k) {
                let j = choose|j: int| 0 <= j < keys.len() && keys[j] == (k, wanted@);
                assert(keys[j].1 == wanted@);
                assert(index[j].0 == k);
            }
        }
        assert(id_set(ids@) =~= ids_with_key(keys, wanted@));
    }
    ids
}

} // verus!
