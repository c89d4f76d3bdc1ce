use vstd::prelude::*;

verus! {

/// One inventory item: its id, its name, how many portions are left and the
/// price of one.
#[derive(Debug, PartialEq, Eq)]
pub struct Food {
    pub id: i64,
    pub name: String,
    pub stock: i64,
    pub price: i64,
}

/// The mathematical value of a `Food`.
pub struct Record {
    pub id: int,
    pub name: Seq<char>,
    pub stock: int,
    pub price: int,
}

impl View for Food {
    type V = Record;

    open spec fn view(&self) -> Record {
        Record {
            id: self.id as int,
            name: self.name@,
            stock: self.stock as int,
            price: self.price as int,
        }
    }
}

/// The values of a sequence of items.
pub open spec fn records(v: Seq<Food>) -> Seq<Record> {
    Seq::new(v.len(), |i: int| v[i]@)
}

/// An id of 64 bits, or none, as a number without bound.
pub open spec fn as_int(id: Option<i64>) -> Option<int> {
    match id {
        Some(k) => Some(k as int),
        None => None,
    }
}

/// Whether the numbers of a record fit in 64 bits.
pub open spec fn fits(r: Record) -> bool {
    &&& i64::MIN <= r.id <= i64::MAX
    &&& i64::MIN <= r.stock <= i64::MAX
    &&& i64::MIN <= r.price <= i64::MAX
}

/// A finite map from ids to records is keyed when each record stands under its
/// own id.
pub open spec fn keyed(m: Map<int, Record>) -> bool {
    &&& m.dom().finite()
    &&& forall|k: int| #[trigger] m.contains_key(k) ==> m[k].id == k
}

/// A ledger maps each id to the record that carries it. As a value it is a
/// keyed map whose records fit in 64 bits.
pub open spec fn is_ledger(m: Map<int, Record>) -> bool {
    &&& keyed(m)
    &&& forall|k: int| #[trigger] m.contains_key(k) ==> fits(m[k])
}

} // verus!
