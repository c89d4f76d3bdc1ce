use crate::number::IntFault;
use vstd::prelude::*;

verus! {

/// The four fields of a line of the data file, in their order.
#[derive(Clone, Copy, Debug, PartialEq, Eq, Structural)]
pub enum Field {
    Id,
    Name,
    Stock,
    Price,
}

/// What can go wrong while a line is read or an item is looked up.
#[derive(Debug, PartialEq, Eq)]
pub enum ParseError {
    /// A field that has to be an integer is none.
    InvalidId(Field, IntFault),
    /// No item carries the name that a purchase asked for.
    FoundFood,
    /// The item is there, but less of it than the purchase asked for.
    StockFood,
    /// A field is absent, or the name is blank.
    MissingField(Field),
    /// No item carries the given name.
    FoodNotFound(String),
}

/// The mathematical value of a `ParseError`.
pub enum Fault {
    InvalidId(Field, IntFault),
    FoundFood,
    StockFood,
    MissingField(Field),
    FoodNotFound(Seq<char>),
}

impl View for ParseError {
    type V = Fault;

    open spec fn view(&self) -> Fault {
        match self {
            ParseError::InvalidId(field, fault) => Fault::InvalidId(*field, *fault),
            ParseError::FoundFood => Fault::FoundFood,
            ParseError::StockFood => Fault::StockFood,
            ParseError::MissingField(field) => Fault::MissingField(*field),
            ParseError::FoodNotFound(name) => Fault::FoodNotFound(name@),
        }
    }
}

/// The mathematical value of an id or the error that stands in its place.
pub open spec fn id_or_fault(r: Result<i64, ParseError>) -> Result<int, Fault> {
    match r {
        Ok(id) => Ok(id as int),
        Err(e) => Err(e@),
    }
}

} // verus!
