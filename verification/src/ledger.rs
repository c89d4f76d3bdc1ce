use crate::error::Fault;
use crate::food::{fits, is_ledger, keyed, Record};
use crate::index::{first_key, ids_with_key, is_first_key};
use crate::text::lowercase;
use vstd::prelude::*;

verus! {

/// Two names are alike when their lowercase forms are the same.
pub open spec fn alike(a: Seq<char>, b: Seq<char>) -> bool {
    lowercase(a) == lowercase(b)
}

/// Whether a record answers to `name`: to the very name where `exact` is set,
/// to a name alike otherwise.
pub open spec fn answers(r: Record, name: Seq<char>, exact: bool) -> bool {
    if exact {
        r.name == name
    } else {
        alike(r.name, name)
    }
}

/// `k` is the least id whose record answers to `name`.
pub open spec fn is_first_match(m: Map<int, Record>, name: Seq<char>, exact: bool, k: int) -> bool {
    &&& m.contains_key(k)
    &&& answers(m[k], name, exact)
    &&& forall|j: int| m.contains_key(j) && answers(m[j], name, exact) ==> k <= j
}

/// The least id whose record answers to `name`, if there is one.
pub open spec fn first_match(m: Map<int, Record>, name: Seq<char>, exact: bool) -> Option<int> {
    if exists|k: int| is_first_match(m, name, exact, k) {
        Some(choose|k: int| is_first_match(m, name, exact, k))
    } else {
        None
    }
}

/// The ids of the records whose names are alike to `name`.
pub open spec fn alike_ids(m: Map<int, Record>, name: Seq<char>) -> Set<int> {
    Set::new(|k: int| m.contains_key(k) && alike(m[k].name, name))
}

/// Whether `amount` portions of the item called exactly `name` can be sold: the
/// id of the first record with that name where it holds that much, and why not
/// otherwise.
pub open spec fn purchasable(m: Map<int, Record>, name: Seq<char>, amount: int) -> Result<
    int,
    Fault,
> {
    match first_match(m, name, true) {
        Some(k) => if amount > m[k].stock {
            Err(Fault::StockFood)
        } else {
            Ok(k)
        },
        None => Err(Fault::FoundFood),
    }
}

/// `k` is the greatest id of the ledger.
pub open spec fn is_last_id(m: Map<int, Record>, k: int) -> bool {
    &&& m.contains_key(k)
    &&& forall|j: int| m.contains_key(j) ==> j <= k
}

/// The greatest id of the ledger, if it has one.
pub open spec fn last_id_of(m: Map<int, Record>) -> Option<int> {
    if exists|k: int| is_last_id(m, k) {
        Some(choose|k: int| is_last_id(m, k))
    } else {
        None
    }
}

/// The id that the next new item gets: one more than the greatest, and 1 in an
/// empty ledger.
pub open spec fn next_id_of(m: Map<int, Record>) -> int {
    match last_id_of(m) {
        Some(k) => k + 1,
        None => 1,
    }
}

/// `s` lists the ledger: every record once, by ascending id.
pub open spec fn is_listing(s: Seq<Record>, m: Map<int, Record>) -> bool {
    &&& forall|i: int, j: int| 0 <= i < j < s.len() ==> s[i].id < s[j].id
    &&& forall|i: int| 0 <= i < s.len() ==> m.contains_key(s[i].id) && m[s[i].id] == s[i]
    &&& forall|k: int| m.contains_key(k) ==> exists|i: int| 0 <= i < s.len() && s[i].id == k
}

/// The records of the ledger by ascending id.
pub open spec fn listing(m: Map<int, Record>) -> Seq<Record> {
    choose|s: Seq<Record>| is_listing(s, m)
}

/// The ledger with the gap at `gone` closed: every record above `gone` moves one
/// id down, every record at or below it stays. Where a record moves onto one
/// that stays, the one that moves is kept.
pub open spec fn renumbered(m: Map<int, Record>, gone: int) -> Map<int, Record> {
    Map::new(
        |k: int| (k <= gone && m.contains_key(k)) || (k >= gone && m.contains_key(k + 1)),
        |k: int|
            if k >= gone && m.contains_key(k + 1) {
                Record { id: k, ..m[k + 1] }
            } else {
                m[k]
            },
    )
}

/// The ledger after `amount` portions of the item under `from` are sold and
/// booked under `id`: that item and the items under the ids of `gone` leave
/// their places, and the item goes under `id` with its stock less `amount`.
/// Without an item under `from` nothing changes.
pub open spec fn booked(
    m: Map<int, Record>,
    id: int,
    from: int,
    gone: Set<int>,
    amount: int,
) -> Map<int, Record> {
    if m.contains_key(from) {
        m.remove_keys(gone.insert(from)).insert(
            id,
            Record { id, name: m[from].name, stock: m[from].stock - amount, price: m[from].price },
        )
    } else {
        m
    }
}

/// What a sale reports: the name of the item, how many portions were sold, what
/// they cost together and how many are left.
pub struct Sale {
    pub name: Seq<char>,
    pub quantity: int,
    pub total: int,
    pub remaining: int,
}

/// The report of the sale of `amount` portions of the item under `from`; none
/// without an item there.
pub open spec fn sale_from(m: Map<int, Record>, from: int, amount: int) -> Option<Sale> {
    if m.contains_key(from) {
        Some(
            Sale {
                name: m[from].name,
                quantity: amount,
                total: m[from].price * amount,
                remaining: m[from].stock - amount,
            },
        )
    } else {
        None
    }
}

/// The ledger after `amount` portions of the item called `name` are sold and
/// booked under `id`: the first record with a name alike gives its name and
/// price and its stock less `amount` to the record under `id`, every record with
/// a name alike leaves its own place, and the others stay. Without such a record
/// nothing changes.
pub open spec fn bought(m: Map<int, Record>, id: int, name: Seq<char>, amount: int) -> Map<
    int,
    Record,
> {
    match first_match(m, name, false) {
        Some(j) => booked(m, id, j, alike_ids(m, name), amount),
        None => m,
    }
}

/// The report of the sale that `bought` books; none where no record has a name
/// alike.
pub open spec fn sale_of(m: Map<int, Record>, name: Seq<char>, amount: int) -> Option<Sale> {
    match first_match(m, name, false) {
        Some(j) => sale_from(m, j, amount),
        None => None,
    }
}

/// The index holds, for each id of the ledger and for no other, the lowercase
/// form of the name under that id.
pub open spec fn indexes(index: Seq<(int, Seq<char>)>, m: Map<int, Record>) -> bool {
    &&& forall|i: int|
        0 <= i < index.len() ==> m.contains_key((#[trigger] index[i]).0) && index[i].1
            == lowercase(m[index[i].0].name)
    &&& forall|k: int| m.contains_key(k) ==> exists|i: int| 0 <= i < index.len() && index[i].0 == k
}

/// What is found in the index of a ledger under the lowercase form of a name is
/// what is found in the ledger under a name alike.
pub proof fn lemma_index(index: Seq<(int, Seq<char>)>, m: Map<int, Record>, name: Seq<char>)
    requires
        indexes(index, m),
    ensures
        first_key(index, lowercase(name)) == first_match(m, name, false),
        ids_with_key(index, lowercase(name)) == alike_ids(m, name),
{
    let wanted = lowercase(name);
    assert forall|k: int| is_first_key(index, wanted, k) <==> is_first_match(m, name, false, k) by {
        if is_first_key(index, wanted, k) {
            let i = choose|i: int| 0 <= i < index.len() && index[i] == (k, wanted);
            assert(m.contains_key(index[i].0));
            assert forall|j: int| m.contains_key(j) && answers(m[j], name, false) implies k
                <= j by {
                let a = choose|a: int| 0 <= a < index.len() && index[a].0 == j;
                assert(index[a].1 == wanted);
            }
        }
        if is_first_match(m, name, false, k) {
            let i = choose|i: int| 0 <= i < index.len() && index[i].0 == k;
            assert(index[i] == (k, wanted));
            assert forall|a: int|
                0 <= a < index.len() && (#[trigger] index[a]).1 == wanted implies k
                <= index[a].0 by {
                assert(m.contains_key(index[a].0));
            }
        }
    }
    if exists|k: int| is_first_key(index, wanted, k) {
        let k = choose|k: int| is_first_key(index, wanted, k);
        assert(is_first_match(m, name, false, k));
    }
    if exists|k: int| is_first_match(m, name, false, k) {
        let k = choose|k: int| is_first_match(m, name, false, k);
        assert(is_first_key(index, wanted, k));
    }
    assert(ids_with_key(index, wanted) =~= alike_ids(m, name)) by {
        assert forall|k: int| ids_with_key(index, wanted).contains(k) <==> alike_ids(
            m,
            name,
        ).contains(k) by {
            if ids_with_key(index, wanted).contains(k) {
                let i = choose|i: int| 0 <= i < index.len() && index[i] == (k, wanted);
                assert(m.contains_key(index[i].0));
            }
            if alike_ids(m, name).contains(k) {
                let i = choose|i: int| 0 <= i < index.len() && index[i].0 == k;
                assert(index[i] == (k, wanted));
            }
        }
    }
}

/// The ledger after an item is added or updated by name: a record with a name
/// alike gives way to the new one under the same id, the first of them where
/// there are several; without such a record the new one gets the next id.
pub open spec fn upserted(m: Map<int, Record>, name: Seq<char>, stock: int, price: int) -> Map<
    int,
    Record,
> {
    let id = match first_match(m, name, false) {
        Some(k) => k,
        None => next_id_of(m),
    };
    m.insert(id, Record { id, name, stock, price })
}

/// The ledger after the item called `name`, letter case aside, is deleted: the
/// first record with a name alike leaves and the gap is closed. Without such a
/// record nothing changes.
pub open spec fn deleted(m: Map<int, Record>, name: Seq<char>) -> Map<int, Record> {
    match first_match(m, name, false) {
        Some(k) => renumbered(m.remove(k), k),
        None => m,
    }
}

/// Whether a sale can be booked: what is left fits in 64 bits.
pub open spec fn bookable(sale: Sale) -> bool {
    i64::MIN <= sale.remaining <= i64::MAX
}

/// How a purchase ends.
pub enum Deal {
    /// The portions were sold.
    Sold(Sale),
    /// No item has exactly that name, or it holds less than was asked for.
    Refused(Fault),
    /// What would be left of the item does not fit in 64 bits.
    OutOfRange,
}

/// How the purchase of `amount` portions of `name` ends.
pub open spec fn deal_of(m: Map<int, Record>, name: Seq<char>, amount: int) -> Deal {
    match purchasable(m, name, amount) {
        Err(fault) => Deal::Refused(fault),
        Ok(_) => match sale_of(m, name, amount) {
            Some(sale) => if bookable(sale) {
                Deal::Sold(sale)
            } else {
                Deal::OutOfRange
            },
            None => Deal::OutOfRange,
        },
    }
}

/// The ledger after the purchase of `amount` portions of `name`: the sale is
/// booked under the id of the item that the purchase was made from, if it was
/// sold, and nothing changes otherwise.
pub open spec fn purchased(m: Map<int, Record>, name: Seq<char>, amount: int) -> Map<int, Record> {
    match purchasable(m, name, amount) {
        Ok(id) => if deal_of(m, name, amount) is Sold {
            bought(m, id, name, amount)
        } else {
            m
        },
        Err(_) => m,
    }
}

/// The part of the ledger below the id `bound`.
pub open spec fn below(m: Map<int, Record>, bound: int) -> Map<int, Record> {
    m.restrict(Set::new(|k: int| k < bound))
}

/// Where the record under `k` comes to stand when the gap at `gone` is closed.
pub open spec fn moved(k: int, gone: int) -> int {
    if k > gone {
        k - 1
    } else {
        k
    }
}

/// Closing the gap in the part of the ledger up to and with `k` is closing it
/// in the part below `k` and then placing the record of `k`.
pub proof fn lemma_renumber_step(m: Map<int, Record>, k: int, bound: int, gone: int)
    requires
        m.contains_key(k),
        m[k].id == k,
        k < bound,
        forall|x: int| m.contains_key(x) && k < x ==> bound <= x,
    ensures
        renumbered(below(m, bound), gone) == renumbered(below(m, k), gone).insert(
            moved(k, gone),
            Record { id: moved(k, gone), ..m[k] },
        ),
{
    let left = renumbered(below(m, bound), gone);
    let right = renumbered(below(m, k), gone).insert(
        moved(k, gone),
        Record { id: moved(k, gone), ..m[k] },
    );
    assert forall|x: int| left.contains_key(x) <==> right.contains_key(x) by {
        assert(below(m, bound).contains_key(x) <==> (m.contains_key(x) && x <= k));
        assert(below(m, bound).contains_key(x + 1) <==> (m.contains_key(x + 1) && x + 1 <= k));
        assert(below(m, k).contains_key(x) <==> (m.contains_key(x) && x < k));
        assert(below(m, k).contains_key(x + 1) <==> (m.contains_key(x + 1) && x + 1 < k));
    }
    assert forall|x: int| left.contains_key(x) implies left[x] == right[x] by {
        assert(below(m, bound).contains_key(x) <==> (m.contains_key(x) && x <= k));
        assert(below(m, bound).contains_key(x + 1) <==> (m.contains_key(x + 1) && x + 1 <= k));
        assert(below(m, k).contains_key(x) <==> (m.contains_key(x) && x < k));
        assert(below(m, k).contains_key(x + 1) <==> (m.contains_key(x + 1) && x + 1 < k));
    }
    assert(left =~= right);
}

/// The least matching id is the one `first_match` names.
pub proof fn lemma_first_match(m: Map<int, Record>, name: Seq<char>, exact: bool, k: int)
    requires
        is_first_match(m, name, exact, k),
    ensures
        first_match(m, name, exact) == Some(k),
{
}

/// The greatest id is the one `last_id_of` names.
pub proof fn lemma_last_id(m: Map<int, Record>, k: int)
    requires
        is_last_id(m, k),
    ensures
        last_id_of(m) == Some(k),
{
}

/// The last record of a listing carries the greatest id of the ledger, and what
/// stands before it lists the ledger without that id.
pub proof fn lemma_listing_last(s: Seq<Record>, m: Map<int, Record>)
    requires
        is_listing(s, m),
        s.len() > 0,
    ensures
        is_last_id(m, s.last().id),
        is_listing(s.drop_last(), m.remove(s.last().id)),
{
    let last = s.last().id;
    assert forall|j: int| m.contains_key(j) implies j <= last by {
        let i = choose|i: int| 0 <= i < s.len() && s[i].id == j;
        if i < s.len() - 1 {
            assert(s[i].id < s[s.len() - 1].id);
        }
    }
    let t = s.drop_last();
    let rest = m.remove(last);
    assert forall|i: int| 0 <= i < t.len() implies rest.contains_key(t[i].id) && rest[t[i].id]
        == t[i] by {
        assert(s[i].id < s[s.len() - 1].id);
        assert(m.contains_key(s[i].id) && m[s[i].id] == s[i]);
    }
    assert forall|k: int| rest.contains_key(k) implies exists|i: int|
        0 <= i < t.len() && t[i].id == k by {
        let i = choose|i: int| 0 <= i < s.len() && s[i].id == k;
        assert(0 <= i < t.len() && t[i].id == k);
    }
}

/// A ledger has one listing only.
pub proof fn lemma_listing_unique(s: Seq<Record>, t: Seq<Record>, m: Map<int, Record>)
    requires
        is_listing(s, m),
        is_listing(t, m),
    ensures
        s == t,
    decreases s.len(),
{
    if s.len() == 0 {
        if t.len() > 0 {
            assert(m.contains_key(t[0].id));
        }
        assert(s =~= t);
    } else {
        assert(m.contains_key(s[0].id));
        if t.len() == 0 {
            assert(false);
        }
        lemma_listing_last(s, m);
        lemma_listing_last(t, m);
        assert(s.last().id == t.last().id);
        lemma_listing_unique(s.drop_last(), t.drop_last(), m.remove(s.last().id));
        assert(s.last() == m[s.last().id]);
        assert(t.last() == m[t.last().id]);
        assert(s =~= s.drop_last().push(s.last()));
        assert(t =~= t.drop_last().push(t.last()));
    }
}

/// What lists the ledger is its listing.
pub proof fn lemma_listing(s: Seq<Record>, m: Map<int, Record>)
    requires
        is_listing(s, m),
    ensures
        listing(m) == s,
{
    lemma_listing_unique(s, listing(m), m);
}

/// A finite ledger that is not empty has a greatest id.
pub proof fn lemma_has_last_id(m: Map<int, Record>)
    requires
        m.dom().finite(),
        m.dom().len() > 0,
    ensures
        exists|k: int| is_last_id(m, k),
    decreases m.dom().len(),
{
    let x = m.dom().choose();
    let rest = m.remove(x);
    if rest.dom().len() == 0 {
        assert forall|j: int| m.contains_key(j) implies j <= x by {
            if j != x {
                assert(rest.dom().contains(j));
            }
        }
        assert(is_last_id(m, x));
    } else {
        lemma_has_last_id(rest);
        let y = choose|k: int| is_last_id(rest, k);
        let top = if x > y { x } else { y };
        assert forall|j: int| m.contains_key(j) implies j <= top by {
            if j != x {
                assert(rest.contains_key(j));
            }
        }
        assert(is_last_id(m, top));
    }
}

/// Every keyed map has a listing.
pub proof fn lemma_listing_exists(m: Map<int, Record>)
    requires
        keyed(m),
    ensures
        is_listing(listing(m), m),
    decreases m.dom().len(),
{
    if m.dom().len() == 0 {
        let s = Seq::<Record>::empty();
        assert(is_listing(s, m)) by {
            assert forall|k: int| !m.contains_key(k) by {
                if m.contains_key(k) {
                    assert(m.dom().contains(k));
                }
            }
        }
    } else {
        lemma_has_last_id(m);
        let k = choose|k: int| is_last_id(m, k);
        let rest = m.remove(k);
        lemma_listing_exists(rest);
        let t = listing(rest);
        let s = t.push(m[k]);
        assert forall|i: int, j: int| 0 <= i < j < s.len() implies s[i].id < s[j].id by {
            assert(rest.contains_key(t[i].id));
        }
        assert forall|i: int| 0 <= i < s.len() implies m.contains_key(s[i].id) && m[s[i].id]
            == s[i] by {
            if i < t.len() {
                assert(rest.contains_key(t[i].id));
            }
        }
        assert forall|j: int| m.contains_key(j) implies exists|i: int|
            0 <= i < s.len() && s[i].id == j by {
            if j == k {
                assert(s[t.len() as int].id == j);
            } else {
                assert(rest.contains_key(j));
                let i = choose|i: int| 0 <= i < t.len() && t[i].id == j;
                assert(s[i].id == j);
            }
        }
        assert(is_listing(s, m));
    }
}

/// The ids of the ledger are the numbers from 1 to `n`.
pub open spec fn is_run(m: Map<int, Record>, n: int) -> bool {
    forall|k: int| m.contains_key(k) <==> 1 <= k <= n
}

/// A map whose ids are the numbers from 1 to `n` is finite.
pub proof fn lemma_run_finite(m: Map<int, Record>, n: int)
    requires
        is_run(m, n),
    ensures
        m.dom().finite(),
{
    vstd::set_lib::lemma_int_range(1, if n >= 0 { n + 1 } else { 1 });
    assert(m.dom() =~= vstd::set_lib::set_int_range(1, if n >= 0 { n + 1 } else { 1 }));
}

/// Deleting the record under `k` from a ledger with the ids 1 to `n` and closing
/// the gap leaves the ids 1 to `n - 1`: every record above `k` stands one id
/// lower, with nothing else changed in it, and every record below `k` is as it
/// was.
pub proof fn lemma_delete_closes_gap(m: Map<int, Record>, n: int, k: int)
    requires
        keyed(m),
        is_run(m, n),
        m.contains_key(k),
    ensures
        keyed(renumbered(m.remove(k), k)),
        is_run(renumbered(m.remove(k), k), n - 1),
        forall|j: int|
            k < j <= n ==> renumbered(m.remove(k), k)[j - 1] == (Record {
                id: j - 1,
                ..#[trigger] m[j]
            }),
        forall|j: int| 1 <= j < k ==> renumbered(m.remove(k), k)[j] == #[trigger] m[j],
{
    let r = renumbered(m.remove(k), k);
    assert forall|x: int| r.contains_key(x) <==> 1 <= x <= n - 1 by {
        assert(m.remove(k).contains_key(x) <==> (m.contains_key(x) && x != k));
        assert(m.remove(k).contains_key(x + 1) <==> (m.contains_key(x + 1) && x + 1 != k));
    }
    lemma_run_finite(r, n - 1);
    assert forall|j: int| k < j <= n implies r[j - 1] == (Record {
        id: j - 1,
        ..#[trigger] m[j]
    }) by {
        assert(m.remove(k).contains_key(j));
    }
    assert forall|j: int| 1 <= j < k implies r[j] == #[trigger] m[j] by {
        assert(m.remove(k).contains_key(j));
        assert(!m.remove(k).contains_key(j + 1) || j + 1 <= k);
    }
    assert forall|x: int| #[trigger] r.contains_key(x) implies r[x].id == x by {
        assert(m.remove(k).contains_key(x) <==> (m.contains_key(x) && x != k));
        assert(m.remove(k).contains_key(x + 1) <==> (m.contains_key(x + 1) && x + 1 != k));
        if x >= k {
            assert(m.contains_key(x + 1));
        } else {
            assert(m.contains_key(x));
        }
    }
}

/// Deleting an item by name from a ledger with the ids 1 to `n` leaves the ids
/// 1 to `n - 1` where the name was found, and the ledger as it was otherwise.
pub proof fn lemma_deleted_run(m: Map<int, Record>, n: int, name: Seq<char>)
    requires
        keyed(m),
        is_run(m, n),
    ensures
        keyed(deleted(m, name)),
        first_match(m, name, false) is Some ==> is_run(deleted(m, name), n - 1),
        first_match(m, name, false) is None ==> deleted(m, name) == m,
{
    match first_match(m, name, false) {
        Some(k) => {
            assert(is_first_match(m, name, false, k));
            lemma_delete_closes_gap(m, n, k);
        },
        None => {},
    }
}

/// Adding an item by name to a ledger with the ids 1 to `n` leaves the ids 1 to
/// `n` where such a name was there, and 1 to `n + 1` where it was not.
pub proof fn lemma_upserted_run(
    m: Map<int, Record>,
    n: int,
    name: Seq<char>,
    stock: int,
    price: int,
)
    requires
        keyed(m),
        is_run(m, n),
        n >= 0,
    ensures
        keyed(upserted(m, name, stock, price)),
        first_match(m, name, false) is Some ==> is_run(upserted(m, name, stock, price), n),
        first_match(m, name, false) is None ==> is_run(upserted(m, name, stock, price), n + 1),
{
    match first_match(m, name, false) {
        Some(k) => {
            assert(is_first_match(m, name, false, k));
        },
        None => {
            if n >= 1 {
                assert(is_last_id(m, n));
                lemma_last_id(m, n);
            } else {
                assert(!exists|k: int| is_last_id(m, k));
            }
            assert(next_id_of(m) == n + 1);
        },
    }
}

/// The listing of a ledger with the ids 1 to `n` has `n` records, and the
/// record in place `i`, counted from 0, carries the id `i + 1`.
pub proof fn lemma_listing_of_run(m: Map<int, Record>, n: int)
    requires
        keyed(m),
        is_run(m, n),
        n >= 0,
    ensures
        is_listing(listing(m), m),
        listing(m).len() == n,
        forall|i: int| 0 <= i < n ==> (#[trigger] listing(m)[i]).id == i + 1,
    decreases n,
{
    lemma_listing_exists(m);
    let s = listing(m);
    if s.len() == 0 {
        if n >= 1 {
            assert(m.contains_key(1));
        }
    } else {
        assert(m.contains_key(s[0].id));
        lemma_listing_last(s, m);
        assert(s.last().id == n) by {
            assert(m.contains_key(n));
        }
        let rest = m.remove(n);
        lemma_listing_of_run(rest, n - 1);
        lemma_listing(s.drop_last(), rest);
        assert forall|i: int| 0 <= i < n implies (#[trigger] s[i]).id == i + 1 by {
            if i < n - 1 {
                assert(s[i] == s.drop_last()[i]);
            }
        }
    }
}

/// What is asked for when an item is added: its name, its stock and its price.
pub struct Item {
    pub name: Seq<char>,
    pub stock: int,
    pub price: int,
}

/// The ledger that adding the given items to an empty ledger, one after
/// another, leaves.
pub open spec fn after_adds(items: Seq<Item>) -> Map<int, Record>
    decreases items.len(),
{
    if items.len() == 0 {
        Map::empty()
    } else {
        upserted(
            after_adds(items.drop_last()),
            items.last().name,
            items.last().stock,
            items.last().price,
        )
    }
}

/// However many items are added to an empty ledger, one after another, the
/// ledger is then listed with the ids 1, 2, 3 and so on without a gap: each id
/// once, in ascending order, and no more ids than items were added.
pub proof fn lemma_adds_listed(items: Seq<Item>)
    ensures
        is_listing(listing(after_adds(items)), after_adds(items)),
        listing(after_adds(items)).len() <= items.len(),
        is_run(after_adds(items), listing(after_adds(items)).len() as int),
        forall|i: int|
            0 <= i < listing(after_adds(items)).len() ==> (#[trigger] listing(
                after_adds(items),
            )[i]).id == i + 1,
{
    let n = lemma_adds_run(items);
    lemma_listing_of_run(after_adds(items), n);
}

/// The ids that adding the given items to an empty ledger leaves are the
/// numbers from 1 to the `n` returned.
pub proof fn lemma_adds_run(items: Seq<Item>) -> (n: int)
    ensures
        0 <= n <= items.len(),
        keyed(after_adds(items)),
        is_run(after_adds(items), n),
    decreases items.len(),
{
    if items.len() == 0 {
        0
    } else {
        let before = lemma_adds_run(items.drop_last());
        let m = after_adds(items.drop_last());
        let last = items.last();
        lemma_upserted_run(m, before, last.name, last.stock, last.price);
        if first_match(m, last.name, false) is Some {
            before
        } else {
            before + 1
        }
    }
}

/// Closing a gap in a ledger leaves a ledger.
pub proof fn lemma_renumbered_is_ledger(m: Map<int, Record>, gone: int)
    requires
        is_ledger(m),
        forall|k: int| m.contains_key(k) && k > gone ==> i64::MIN < k,
    ensures
        is_ledger(renumbered(m, gone)),
{
    let r = renumbered(m, gone);
    let down = |k: int| k - 1;
    m.dom().lemma_map_finite(down);
    vstd::set_lib::lemma_set_union_finite_iff(m.dom(), m.dom().map(down));
    assert(r.dom().subset_of(m.dom().union(m.dom().map(down)))) by {
        assert forall|k: int| r.dom().contains(k) implies m.dom().union(
            m.dom().map(down),
        ).contains(k) by {
            if !m.dom().contains(k) {
                assert(m.dom().contains(k + 1) && down(k + 1) == k);
            }
        }
    }
    vstd::set_lib::lemma_set_subset_finite(m.dom().union(m.dom().map(down)), r.dom());
    assert forall|k: int| #[trigger] r.contains_key(k) implies r[k].id == k && fits(r[k]) by {
        if k >= gone && m.contains_key(k + 1) {
            assert(fits(m[k + 1]));
        } else {
            assert(fits(m[k]));
        }
    }
}

/// Adding an item to a ledger leaves a ledger, where its stock and its price
/// fit in 64 bits and an id is left for it.
pub proof fn lemma_upserted_is_ledger(m: Map<int, Record>, name: Seq<char>, stock: int, price: int)
    requires
        is_ledger(m),
        i64::MIN <= stock <= i64::MAX,
        i64::MIN <= price <= i64::MAX,
        first_match(m, name, false) is None ==> next_id_of(m) <= i64::MAX,
    ensures
        is_ledger(upserted(m, name, stock, price)),
{
    match first_match(m, name, false) {
        Some(k) => {
            assert(is_first_match(m, name, false, k));
        },
        None => {
            match last_id_of(m) {
                Some(last) => {
                    assert(is_last_id(m, last));
                },
                None => {},
            }
        },
    }
}

/// Booking a sale in a ledger leaves a ledger, where what is left of the item
/// fits in 64 bits.
pub proof fn lemma_bought_is_ledger(m: Map<int, Record>, id: int, name: Seq<char>, amount: int)
    requires
        is_ledger(m),
        i64::MIN <= id <= i64::MAX,
        sale_of(m, name, amount) matches Some(sale) ==> bookable(sale),
    ensures
        is_ledger(bought(m, id, name, amount)),
{
    match first_match(m, name, false) {
        Some(j) => {
            assert(is_first_match(m, name, false, j));
            let rest = m.remove_keys(alike_ids(m, name).insert(j));
            vstd::set_lib::lemma_set_subset_finite(m.dom(), rest.dom());
            assert(fits(m[j]));
        },
        None => {},
    }
}

} // verus!
