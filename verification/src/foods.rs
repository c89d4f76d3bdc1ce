use crate::error::{id_or_fault, ParseError};
use crate::food::{as_int, is_ledger, records, Food, Record};
use crate::index::{all_of, first_of, id_set, keys_of};
use crate::ledger::{
    alike, answers, below, bookable, booked, bought, first_match, indexes,
    is_first_match, is_last_id, is_listing, last_id_of, lemma_first_match, lemma_index,
    lemma_last_id, lemma_renumber_step, next_id_of, purchasable, renumbered, sale_from, sale_of,
    Sale,
};
use crate::sort::{ascending, sort};
use crate::text::{lowercase, same_text};
use std::collections::HashMap;
use vstd::prelude::*;
use vstd::std_specs::iter::IteratorSpec;

verus! {

/// The ledger: the items of the inventory, each under its id.
#[derive(Debug)]
pub struct Foods {
    inner: HashMap<i64, Food>,
}

/// The ledger that a table of items stands for: under each key the item stored
/// there, with the key as its id.
spec fn model(m: Map<i64, Food>) -> Map<int, Record> {
    Map::new(
        |k: int| i64::MIN <= k <= i64::MAX && m.contains_key(k as i64),
        |k: int| Record { id: k, ..m[k as i64]@ },
    )
}

proof fn lemma_model_empty()
    ensures
        model(Map::<i64, Food>::empty()) == Map::<int, Record>::empty(),
{
    assert(model(Map::<i64, Food>::empty()) =~= Map::<int, Record>::empty());
}

proof fn lemma_model_insert(m: Map<i64, Food>, k: i64, f: Food)
    ensures
        model(m.insert(k, f)) == model(m).insert(k as int, Record { id: k as int, ..f@ }),
{
    assert(model(m.insert(k, f)) =~= model(m).insert(k as int, Record { id: k as int, ..f@ }));
}

proof fn lemma_model_remove(m: Map<i64, Food>, k: i64)
    ensures
        model(m.remove(k)) == model(m).remove(k as int),
{
    assert(model(m.remove(k)) =~= model(m).remove(k as int));
}

proof fn lemma_model_is_ledger(m: Map<i64, Food>)
    requires
        m.dom().finite(),
    ensures
        is_ledger(model(m)),
{
    let f = |k: i64| k as int;
    m.dom().lemma_map_finite(f);
    assert(model(m).dom() =~= m.dom().map(f)) by {
        assert forall|k: int| model(m).dom().contains(k) implies m.dom().map(f).contains(k) by {
            assert(m.dom().contains(k as i64) && f(k as i64) == k);
        }
    }
}

/// What a sale reports: the name of the item, how many portions were sold, what
/// they cost together and how many are left.
#[derive(Debug, PartialEq, Eq)]
pub struct Receipt {
    pub name: String,
    pub quantity: i64,
    pub total: i128,
    pub remaining: i64,
}

impl View for Receipt {
    type V = Sale;

    open spec fn view(&self) -> Sale {
        Sale {
            name: self.name@,
            quantity: self.quantity as int,
            total: self.total as int,
            remaining: self.remaining as int,
        }
    }
}

/// The value of a receipt, if there is one.
pub open spec fn as_sale(r: Option<Receipt>) -> Option<Sale> {
    match r {
        Some(receipt) => Some(receipt@),
        None => None,
    }
}

/// The ledger as a map from each id to the record under it.
impl View for Foods {
    type V = Map<int, Record>;

    closed spec fn view(&self) -> Map<int, Record> {
        model(self.inner@)
    }
}

impl Foods {
    /// Every ledger in memory is a ledger in the sense of `is_ledger`.
    pub proof fn lemma_is_ledger(&self)
        ensures
            is_ledger(self@),
    {
        lemma_model_is_ledger(self.inner@);
    }

    /// The empty ledger.
    pub fn new() -> (r: Self)
        ensures
            r@ == Map::<int, Record>::empty(),
    {
        proof {
            lemma_model_empty();
        }
        Self { inner: HashMap::new() }
    }

    /// Puts an item with the given fields under `id`, in place of the one that
    /// was there, if any.
    pub fn edit(&mut self, id: i64, name: &str, stock: i64, price: i64)
        ensures
            final(self)@ == old(self)@.insert(
                id as int,
                Record { id: id as int, name: name@, stock: stock as int, price: price as int },
            ),
    {
        let food = Food { id, name: name.to_owned(), stock, price };
        proof {
            lemma_model_insert(self.inner@, id, food);
        }
        self.inner.insert(id, food);
    }

    /// Puts `food` under its own id, in place of the item that was there, if any.
    pub fn add(&mut self, food: Food)
        ensures
            final(self)@ == old(self)@.insert(food.id as int, food@),
    {
        proof {
            lemma_model_insert(self.inner@, food.id, food);
        }
        self.inner.insert(food.id, food);
    }

    /// A copy of the item under `id`.
    pub fn get(&self, id: i64) -> (r: Option<Food>)
        ensures
            match r {
                Some(food) => self@.contains_key(id as int) && food@ == self@[id as int],
                None => !self@.contains_key(id as int),
            },
    {
        match self.inner.get(&id) {
            Some(food) => Some(
                Food { id, name: food.name.clone(), stock: food.stock, price: food.price },
            ),
            None => None,
        }
    }

    /// Takes the item under `id` out of the ledger and returns it.
    pub fn remove(&mut self, id: &i64) -> (r: Option<Food>)
        ensures
            final(self)@ == old(self)@.remove(*id as int),
            match r {
                Some(food) => old(self)@.contains_key(*id as int) && food@ == old(
                    self,
                )@[*id as int],
                None => !old(self)@.contains_key(*id as int),
            },
    {
        proof {
            lemma_model_remove(self.inner@, *id);
        }
        match self.inner.remove(id) {
            Some(food) => Some(
                Food { id: *id, name: food.name, stock: food.stock, price: food.price },
            ),
            None => None,
        }
    }

    /// The least id whose item is called exactly `name`.
    fn find_exact(&self, name: &str) -> (r: Option<i64>)
        ensures
            as_int(r) == first_match(self@, name@, true),
    {
        let mut best: Option<i64> = None;
        let ghost all = self.inner.iter().remaining();
        let ghost mut n: int = 0;
        for (k, food) in it: self.inner.iter()
            invariant
                it.seq() == all,
                n == it.index(),
                match best {
                    Some(b) => {
                        &&& self.inner@.contains_key(b)
                        &&& self.inner@[b].name@ == name@
                        &&& forall|j: int|
                            0 <= j < n && (#[trigger] all[j]).1.name@ == name@ ==> b <= *all[j].0
                    },
                    None => forall|j: int| 0 <= j < n ==> (#[trigger] all[j]).1.name@ != name@,
                },
        {
            if same_text(food.name.as_str(), name) {
                match best {
                    Some(b) => {
                        if *k < b {
                            best = Some(*k);
                        }
                    },
                    None => {
                        best = Some(*k);
                    },
                }
            }
            proof {
                n = n + 1;
            }
        }
        proof {
            let m = self@;
            assert(n == all.len());
            assert forall|key: int| m.contains_key(key) && answers(m[key], name@, true) implies (
            match best {
                Some(b) => b <= key,
                None => false,
            }) by {
                let kk = key as i64;
                assert(self.inner@.contains_key(kk));
                assert(all.contains((&kk, &self.inner@[kk])));
                let j = all.index_of((&kk, &self.inner@[kk]));
                assert(all[j] == (&kk, &self.inner@[kk]));
            }
            match best {
                Some(b) => {
                    assert(is_first_match(m, name@, true, b as int));
                    lemma_first_match(m, name@, true, b as int);
                },
                None => {
                    assert(!exists|key: int| is_first_match(m, name@, true, key));
                },
            }
        }
        best
    }

    /// The name index of the ledger: each id with the lowercase form of the name
    /// under it.
    fn folded(&self) -> (index: Vec<(i64, String)>)
        ensures
            indexes(keys_of(index@), self@),
    {
        let mut index: Vec<(i64, String)> = Vec::new();
        let ghost all = self.inner.iter().remaining();
        let ghost mut n: int = 0;
        for (k, food) in it: self.inner.iter()
            invariant
                it.seq() == all,
                n == it.index(),
                index.len() == n,
                forall|j: int|
                    0 <= j < n ==> (#[trigger] index[j]).0 == *all[j].0 && index[j].1@ == lowercase(
                        all[j].1.name@,
                    ),
        {
            index.push((*k, food.name.to_lowercase()));
            proof {
                n = n + 1;
            }
        }
        proof {
            let keys = keys_of(index@);
            let m = self@;
            assert(n == all.len());
            assert forall|i: int| 0 <= i < keys.len() implies m.contains_key(
                (#[trigger] keys[i]).0,
            ) && keys[i].1 == lowercase(m[keys[i].0].name) by {
                assert(keys[i] == (index[i].0 as int, index[i].1@));
                assert(self.inner@.contains_key(*all[i].0));
            }
            assert forall|k: int| m.contains_key(k) implies exists|i: int|
                0 <= i < keys.len() && keys[i].0 == k by {
                let kk = k as i64;
                assert(all.contains((&kk, &self.inner@[kk])));
                let j = all.index_of((&kk, &self.inner@[kk]));
                assert(all[j] == (&kk, &self.inner@[kk]));
                assert(keys[j] == (index[j].0 as int, index[j].1@));
                assert(0 <= j < keys.len() && keys[j].0 == k);
            }
        }
        index
    }

    /// Looks an item up by its name, letter case aside: the least id whose name
    /// is alike to `name`. The ledger stays as it is.
    pub fn search(&mut self, name: &str) -> (r: Option<i64>)
        ensures
            final(self)@ == old(self)@,
            as_int(r) == first_match(old(self)@, name@, false),
            r is None ==> forall|k: int|
                old(self)@.contains_key(k) ==> !alike(#[trigger] old(self)@[k].name, name@),
    {
        let index = self.folded();
        let wanted = name.to_lowercase();
        let r = first_of(&index, wanted.as_str());
        proof {
            let keys = keys_of(index@);
            lemma_index(keys, self@, name@);
            if r is None {
                assert forall|k: int| self@.contains_key(k) implies !alike(
                    #[trigger] self@[k].name,
                    name@,
                ) by {
                    let i = choose|i: int| 0 <= i < keys.len() && keys[i].0 == k;
                    assert(keys[i] == (index[i].0 as int, index[i].1@));
                }
            }
        }
        r
    }

    /// Looks up the item that a purchase of `stock_buy` portions of `name_buy`
    /// is made from: the least id with exactly that name, if it holds that much.
    /// The ledger stays as it is.
    pub fn search_stock(&mut self, name_buy: &str, stock_buy: &i64) -> (r: Result<
        i64,
        ParseError,
    >)
        ensures
            final(self)@ == old(self)@,
            id_or_fault(r) == purchasable(old(self)@, name_buy@, *stock_buy as int),
    {
        match self.find_exact(name_buy) {
            Some(id) => {
                match self.inner.get(&id) {
                    Some(food) => {
                        if *stock_buy > food.stock {
                            Err(ParseError::StockFood)
                        } else {
                            Ok(id)
                        }
                    },
                    None => Err(ParseError::FoundFood),
                }
            },
            None => Err(ParseError::FoundFood),
        }
    }

    /// The ids of the ledger in ascending order.
    fn sorted_ids(&self) -> (ids: Vec<i64>)
        ensures
            ascending(ids@),
            forall|k: i64| ids@.contains(k) <==> self.inner@.contains_key(k),
    {
        let mut keys: Vec<i64> = Vec::new();
        let ghost all = self.inner.keys().remaining();
        let ghost mut n: int = 0;
        for k in it: self.inner.keys()
            invariant
                it.seq() == all,
                n == it.index(),
                keys@ == all.unref().take(n),
        {
            keys.push(*k);
            proof {
                assert(all.unref().take(n + 1) == all.unref().take(n).push(*k));
                n = n + 1;
            }
        }
        proof {
            assert(all.unref().take(n) == all.unref());
            assert(keys@.no_duplicates()) by {
                assert forall|i: int, j: int|
                    0 <= i < keys.len() && 0 <= j < keys.len() && i != j implies keys[i]
                    != keys[j] by {
                    assert(all[i] != all[j]);
                }
            }
        }
        let ids = sort(&keys);
        proof {
            assert forall|k: i64| ids@.contains(k) <==> self.inner@.contains_key(k) by {
                assert(ids@.contains(k) <==> ids@.to_set().contains(k));
            }
        }
        ids
    }

    /// The greatest id of the ledger, if it holds anything.
    pub fn last_id(&self) -> (r: Option<i64>)
        ensures
            as_int(r) == last_id_of(self@),
            r is None <==> self@ == Map::<int, Record>::empty(),
    {
        let mut best: Option<i64> = None;
        let ghost all = self.inner.keys().remaining();
        let ghost mut n: int = 0;
        for k in it: self.inner.keys()
            invariant
                it.seq() == all,
                n == it.index(),
                match best {
                    Some(b) => self.inner@.contains_key(b) && forall|j: int|
                        0 <= j < n ==> *#[trigger] all[j] <= b,
                    None => n == 0,
                },
        {
            assert(all.unref()[n] == *k);
            assert(all.unref().to_set().contains(*k));
            match best {
                Some(b) => {
                    if *k > b {
                        best = Some(*k);
                    }
                },
                None => {
                    best = Some(*k);
                },
            }
            proof {
                n = n + 1;
            }
        }
        proof {
            assert(n == all.len());
            assert forall|j: int| self@.contains_key(j) implies best is Some && j <= best->0 by {
                assert(all.unref().to_set().contains(j as i64));
                let i = all.unref().index_of(j as i64);
                assert(*all[i] == j);
            }
            match best {
                Some(b) => {
                    lemma_last_id(self@, b as int);
                    assert(self@.contains_key(b as int));
                },
                None => {
                    assert(self@ =~= Map::<int, Record>::empty());
                    assert(!exists|k: int| is_last_id(self@, k));
                },
            }
        }
        best
    }

    /// The id for the next new item: one more than the greatest id, or 1 in an
    /// empty ledger.
    pub fn next_id(&self) -> (r: i64)
        requires
            next_id_of(self@) <= i64::MAX,
        ensures
            r == next_id_of(self@),
    {
        match self.last_id() {
            Some(id) => id + 1,
            None => 1,
        }
    }

    /// Hands the items out by ascending id.
    pub fn into_vec(self) -> (foods: Vec<Food>)
        ensures
            is_listing(records(foods@), self@),
    {
        let ids = self.sorted_ids();
        let ghost table = self.inner@;
        let mut inner = self.inner;
        let mut foods: Vec<Food> = Vec::new();
        let mut i: usize = 0;
        assert forall|j: int| 0 <= j < ids.len() implies inner@.contains_key(#[trigger] ids[j]) by {
            assert(ids@.contains(ids@[j]));
        }
        while i < ids.len()
            invariant
                i <= ids.len(),
                foods.len() == i,
                ascending(ids@),
                forall|k: i64| ids@.contains(k) <==> table.contains_key(k),
                forall|j: int|
                    i <= j < ids.len() ==> inner@.contains_key(#[trigger] ids[j]) && inner@[ids[j]]
                        == table[ids[j]],
                forall|j: int|
                    0 <= j < i ==> (#[trigger] foods[j])@ == model(table)[ids[j] as int],
            decreases ids.len() - i,
        {
            let k = ids[i];
            assert(ids@.contains(k));
            match inner.remove(&k) {
                Some(food) => {
                    foods.push(
                        Food { id: k, name: food.name, stock: food.stock, price: food.price },
                    );
                },
                None => {},
            }
            i = i + 1;
        }
        proof {
            let s = records(foods@);
            let m = model(table);
            assert forall|a: int| 0 <= a < s.len() implies m.contains_key(s[a].id) && m[s[a].id]
                == s[a] by {
                assert(ids@.contains(ids[a]));
                assert(s[a] == foods[a]@);
            }
            assert forall|a: int, b: int| 0 <= a < b < s.len() implies s[a].id < s[b].id by {
                assert(s[a] == foods[a]@);
                assert(s[b] == foods[b]@);
            }
            assert forall|k: int| m.contains_key(k) implies exists|a: int|
                0 <= a < s.len() && s[a].id == k by {
                assert(ids@.contains(k as i64));
                let a = ids@.index_of(k as i64);
                assert(s[a] == foods[a]@);
                assert(0 <= a < s.len() && s[a].id == k);
            }
        }
        foods
    }

    /// Closes the gap that the removal of `id_del` left: every item above
    /// `id_del` moves one id down.
    pub fn sort_foods(&mut self, id_del: i64)
        ensures
            final(self)@ == renumbered(old(self)@, id_del as int),
    {
        let ids = self.sorted_ids();
        let ghost table = self.inner@;
        let ghost m = model(table);
        let mut next: HashMap<i64, Food> = HashMap::new();
        let mut i: usize = 0;
        proof {
            assert forall|j: int| 0 <= j < ids.len() implies self.inner@.contains_key(
                #[trigger] ids[j],
            ) by {
                assert(ids@.contains(ids@[j]));
            }
            let bound: int = if 0 < ids.len() { ids[0] as int } else { i64::MAX + 1 };
            assert(below(m, bound) =~= Map::<int, Record>::empty()) by {
                assert forall|k: int| !below(m, bound).contains_key(k) by {
                    if m.contains_key(k) {
                        assert(ids@.contains(k as i64));
                        let a = ids@.index_of(k as i64);
                        assert(ids[0] <= ids[a]);
                    }
                }
            }
            assert(renumbered(Map::<int, Record>::empty(), id_del as int) =~= Map::<
                int,
                Record,
            >::empty());
            lemma_model_empty();
        }
        while i < ids.len()
            invariant
                i <= ids.len(),
                m == model(table),
                ascending(ids@),
                forall|k: i64| ids@.contains(k) <==> table.contains_key(k),
                forall|j: int|
                    i <= j < ids.len() ==> self.inner@.contains_key(#[trigger] ids[j])
                        && self.inner@[ids[j]] == table[ids[j]],
                model(next@) == renumbered(
                    below(m, if i < ids.len() { ids[i as int] as int } else { i64::MAX + 1 }),
                    id_del as int,
                ),
            decreases ids.len() - i,
        {
            let k = ids[i];
            proof {
                let bound: int = if i + 1 < ids.len() { ids[i + 1] as int } else { i64::MAX + 1 };
                assert(ids@.contains(k));
                assert forall|x: int| m.contains_key(x) && k < x implies bound <= x by {
                    assert(ids@.contains(x as i64));
                    let a = ids@.index_of(x as i64);
                    if a <= i {
                        assert(ids[a] <= ids[i as int]);
                    } else if a > i + 1 {
                        assert(ids[i + 1] < ids[a]);
                    }
                }
                lemma_renumber_step(m, k as int, bound, id_del as int);
            }
            match self.inner.remove(&k) {
                Some(food) => {
                    let to = if k > id_del { k - 1 } else { k };
                    let moved_food = Food {
                        id: to,
                        name: food.name,
                        stock: food.stock,
                        price: food.price,
                    };
                    proof {
                        lemma_model_insert(next@, to, moved_food);
                    }
                    next.insert(to, moved_food);
                },
                None => {},
            }
            i = i + 1;
        }
        proof {
            assert(below(m, i64::MAX + 1) =~= m);
        }
        self.inner = next;
    }

    /// Books the sale of `stock_buy` portions of the item under `from`: that item
    /// and the items under the ids in `gone` leave their places, and what is left
    /// of the item goes under `id`. Returns the receipt, or nothing where there
    /// is no item under `from`; the ledger is then unchanged.
    pub fn book(&mut self, id: i64, from: i64, gone: &Vec<i64>, stock_buy: i64) -> (r: Option<
        Receipt,
    >)
        requires
            sale_from(old(self)@, from as int, stock_buy as int) matches Some(sale) ==> bookable(
                sale,
            ),
        ensures
            final(self)@ == booked(
                old(self)@,
                id as int,
                from as int,
                id_set(gone@),
                stock_buy as int,
            ),
            as_sale(r) == sale_from(old(self)@, from as int, stock_buy as int),
    {
        let ghost table = self.inner@;
        let ghost m = model(table);
        let food = match self.inner.remove(&from) {
            Some(food) => food,
            None => { return None; },
        };
        let ghost mut done: Set<i64> = set![from];
        let mut i: usize = 0;
        while i < gone.len()
            invariant
                i <= gone.len(),
                self.inner@ == table.remove_keys(done),
                done.contains(from),
                forall|j: int| 0 <= j < i ==> done.contains(#[trigger] gone[j]),
                forall|key: i64| done.contains(key) ==> key == from || gone@.contains(key),
            decreases gone.len() - i,
        {
            self.inner.remove(&gone[i]);
            proof {
                assert(gone@.contains(gone@[i as int]));
                done = done.insert(gone[i as int]);
                assert(self.inner@ =~= table.remove_keys(done));
            }
            i = i + 1;
        }
        proof {
            let left = id_set(gone@).insert(from as int);
            assert(model(self.inner@) =~= m.remove_keys(left)) by {
                assert forall|key: int|
                    model(self.inner@).contains_key(key) <==> m.remove_keys(left).contains_key(
                        key,
                    ) by {
                    if m.contains_key(key) {
                        let kk = key as i64;
                        if left.contains(key) && key != from {
                            let j = gone@.index_of(kk);
                            assert(gone[j] == kk);
                        }
                    }
                }
            }
        }
        let remaining = food.stock - stock_buy;
        assert((food.price as i128) * (stock_buy as i128)
            <= 0x4000_0000_0000_0000_0000_0000_0000_0000 && (food.price as i128) * (
        stock_buy as i128) >= -0x4000_0000_0000_0000_0000_0000_0000_0000) by (nonlinear_arith)
            requires
                -0x8000_0000_0000_0000 <= food.price <= 0x7fff_ffff_ffff_ffff,
                -0x8000_0000_0000_0000 <= stock_buy <= 0x7fff_ffff_ffff_ffff,
        ;
        let total = (food.price as i128) * (stock_buy as i128);
        let receipt = Receipt { name: food.name.clone(), quantity: stock_buy, total, remaining };
        let sold = Food { id, name: food.name, stock: remaining, price: food.price };
        proof {
            lemma_model_insert(self.inner@, id, sold);
        }
        self.inner.insert(id, sold);
        Some(receipt)
    }

    /// Sells `stock_buy` portions of the item called `name`, letter case aside,
    /// and books what is left of it under `id`. Returns the receipt, or nothing
    /// where no item has such a name; the ledger is then unchanged.
    pub fn buy(&mut self, id: i64, name: &str, stock_buy: i64) -> (r: Option<Receipt>)
        requires
            sale_of(old(self)@, name@, stock_buy as int) matches Some(sale) ==> bookable(sale),
        ensures
            final(self)@ == bought(old(self)@, id as int, name@, stock_buy as int),
            as_sale(r) == sale_of(old(self)@, name@, stock_buy as int),
    {
        let index = self.folded();
        let wanted = name.to_lowercase();
        proof {
            lemma_index(keys_of(index@), self@, name@);
        }
        let first = match first_of(&index, wanted.as_str()) {
            Some(first) => first,
            None => { return None; },
        };
        let gone = all_of(&index, wanted.as_str());
        proof {
            assert(is_first_match(self@, name@, false, first as int));
        }
        self.book(id, first, &gone, stock_buy)
    }
}

} // verus!
