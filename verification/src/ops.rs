use crate::codec::{
    decoded, encode, encoded, lemma_decode_encode, lemma_decoded_is_ledger, parse_foods, skipped,
    skips, storable, Skip, Skipped,
};
use crate::error::{id_or_fault, Fault, ParseError};
use crate::food::{Food, Record};
use crate::foods::{Foods, Receipt};
use crate::ledger::{
    deal_of, deleted, first_match, is_first_match, lemma_bought_is_ledger,
    lemma_renumbered_is_ledger, lemma_upserted_is_ledger, listing, next_id_of, purchased,
    upserted, Deal,
};
use vstd::prelude::*;

verus! {

/// How adding an item by name ended.
#[derive(Clone, Copy, Debug, PartialEq, Eq, Structural)]
pub enum Upsert {
    /// An item with such a name was there; it was overwritten under its id.
    Updated(i64),
    /// No item had such a name; the new one got this id.
    Added(i64),
    /// No item had such a name, and no id of 64 bits is left above the greatest.
    Exhausted,
}

/// How a purchase ended.
#[derive(Debug, PartialEq, Eq)]
pub enum Purchase {
    /// The portions were sold.
    Sold(Receipt),
    /// No item has exactly that name, or it holds less than was asked for.
    Refused(ParseError),
    /// What would be left of the item does not fit in 64 bits.
    OutOfRange,
}

impl View for Purchase {
    type V = Deal;

    open spec fn view(&self) -> Deal {
        match self {
            Purchase::Sold(receipt) => Deal::Sold(receipt@),
            Purchase::Refused(e) => Deal::Refused(e@),
            Purchase::OutOfRange => Deal::OutOfRange,
        }
    }
}

/// How adding an item called `name` to the ledger ends.
pub open spec fn upsert_of(m: Map<int, Record>, name: Seq<char>) -> Upsert {
    match first_match(m, name, false) {
        Some(k) => Upsert::Updated(k as i64),
        None => if next_id_of(m) <= i64::MAX {
            Upsert::Added(next_id_of(m) as i64)
        } else {
            Upsert::Exhausted
        },
    }
}

/// How deleting the item called `name` ends: with the id that it had, or with
/// the name that was not found.
pub open spec fn delete_of(m: Map<int, Record>, name: Seq<char>) -> Result<int, Fault> {
    match first_match(m, name, false) {
        Some(k) => Ok(k),
        None => Err(Fault::FoodNotFound(name)),
    }
}

impl Foods {
    /// Adds an item by name, or updates the one that has such a name already,
    /// letter case aside. The ledger is unchanged where no id is left.
    pub fn upsert(&mut self, name: &str, stock: i64, price: i64) -> (r: Upsert)
        ensures
            r == upsert_of(old(self)@, name@),
            final(self)@ == (if r is Exhausted {
                old(self)@
            } else {
                upserted(old(self)@, name@, stock as int, price as int)
            }),
    {
        match self.search(name) {
            Some(id) => {
                self.edit(id, name, stock, price);
                Upsert::Updated(id)
            },
            None => {
                match self.last_id() {
                    Some(last) => {
                        if last == i64::MAX {
                            return Upsert::Exhausted;
                        }
                    },
                    None => {},
                }
                let id = self.next_id();
                self.add(Food { id, name: name.to_owned(), stock, price });
                Upsert::Added(id)
            },
        }
    }

    /// Sells `stock` portions of the item called exactly `name`. The ledger is
    /// unchanged unless they were sold.
    pub fn purchase(&mut self, name: &str, stock: i64) -> (r: Purchase)
        ensures
            r@ == deal_of(old(self)@, name@, stock as int),
            final(self)@ == purchased(old(self)@, name@, stock as int),
    {
        let id = match self.search_stock(name, &stock) {
            Ok(id) => id,
            Err(e) => { return Purchase::Refused(e); },
        };
        let fits = match self.search(name) {
            Some(first) => match self.get(first) {
                Some(food) => food.stock.checked_sub(stock).is_some(),
                None => false,
            },
            None => false,
        };
        if !fits {
            return Purchase::OutOfRange;
        }
        match self.buy(id, name, stock) {
            Some(receipt) => Purchase::Sold(receipt),
            None => Purchase::OutOfRange,
        }
    }

    /// Deletes the item called `name`, letter case aside, and closes the gap
    /// that its id leaves. The ledger is unchanged where no item has such a name.
    pub fn delete(&mut self, name: &str) -> (r: Result<i64, ParseError>)
        ensures
            id_or_fault(r) == delete_of(old(self)@, name@),
            final(self)@ == deleted(old(self)@, name@),
    {
        match self.search(name) {
            Some(id) => {
                self.remove(&id);
                self.sort_foods(id);
                Ok(id)
            },
            None => Err(ParseError::FoodNotFound(name.to_owned())),
        }
    }
}

/// What the user asks for.
#[derive(Debug, PartialEq, Eq)]
pub enum Command {
    /// Add an item, or update the one that has such a name.
    Add { name: String, stock: i64, price: i64 },
    /// Buy portions of an item.
    Buy { name: String, stock: i64 },
    /// Show all items.
    List,
    /// Delete an item.
    Delete { name: String },
}

/// The mathematical value of a `Command`.
pub enum Request {
    Add { name: Seq<char>, stock: int, price: int },
    Buy { name: Seq<char>, stock: int },
    List,
    Delete { name: Seq<char> },
}

impl View for Command {
    type V = Request;

    open spec fn view(&self) -> Request {
        match self {
            Command::Add { name, stock, price } => Request::Add {
                name: name@,
                stock: *stock as int,
                price: *price as int,
            },
            Command::Buy { name, stock } => Request::Buy { name: name@, stock: *stock as int },
            Command::List => Request::List,
            Command::Delete { name } => Request::Delete { name: name@ },
        }
    }
}

/// What there is to tell the user once a command has run.
#[derive(Debug, PartialEq, Eq)]
pub enum Report {
    /// How adding ended.
    Upserted(Upsert),
    /// How the purchase ended.
    Purchased(Purchase),
    /// The items, as the text of the data file.
    Listed(String),
    /// The id that the deleted item had, or the name that was not found.
    Deleted(Result<i64, ParseError>),
}

/// The mathematical value of a `Report`.
pub enum Answer {
    Upserted(Upsert),
    Purchased(Deal),
    Listed(Seq<char>),
    Deleted(Result<int, Fault>),
}

impl View for Report {
    type V = Answer;

    open spec fn view(&self) -> Answer {
        match self {
            Report::Upserted(u) => Answer::Upserted(*u),
            Report::Purchased(p) => Answer::Purchased(p@),
            Report::Listed(text) => Answer::Listed(text@),
            Report::Deleted(d) => Answer::Deleted(id_or_fault(*d)),
        }
    }
}

/// What a command leaves behind: the lines of the data file that were passed
/// over, where they were asked for; the report for the user; and the new text
/// of the data file, where it is to be written anew.
#[derive(Debug, PartialEq, Eq)]
pub struct Outcome {
    pub skipped: Vec<Skipped>,
    pub report: Report,
    pub persist: Option<String>,
}

/// The report that a command gives on a ledger.
pub open spec fn answer_of(m: Map<int, Record>, request: Request) -> Answer {
    match request {
        Request::Add { name, stock, price } => Answer::Upserted(upsert_of(m, name)),
        Request::Buy { name, stock } => Answer::Purchased(deal_of(m, name, stock)),
        Request::List => Answer::Listed(encoded(listing(m))),
        Request::Delete { name } => Answer::Deleted(delete_of(m, name)),
    }
}

/// Whether a command changes the data file: an item was added or updated,
/// portions were sold, or an item was deleted.
pub open spec fn writes(m: Map<int, Record>, request: Request) -> bool {
    match request {
        Request::Add { name, stock, price } => !(upsert_of(m, name) is Exhausted),
        Request::Buy { name, stock } => deal_of(m, name, stock) is Sold,
        Request::List => false,
        Request::Delete { name } => delete_of(m, name) is Ok,
    }
}

/// The ledger that a command that changes the data file leaves.
pub open spec fn applied(m: Map<int, Record>, request: Request) -> Map<int, Record> {
    match request {
        Request::Add { name, stock, price } => upserted(m, name, stock, price),
        Request::Buy { name, stock } => purchased(m, name, stock),
        Request::List => m,
        Request::Delete { name } => deleted(m, name),
    }
}

/// The new text of the data file, where the command changes it; none where the
/// file is left as it is.
pub open spec fn written(text: Seq<char>, request: Request) -> Option<Seq<char>> {
    let m = decoded(text);
    if writes(m, request) {
        Some(encoded(listing(applied(m, request))))
    } else {
        None
    }
}

/// A purchase of more portions than the item holds is refused for want of
/// stock: the ledger stays as it is and the data file is not written.
pub proof fn lemma_short_stock_refused(text: Seq<char>, name: Seq<char>, stock: int, id: int)
    requires
        is_first_match(decoded(text), name, true, id),
        stock > decoded(text)[id].stock,
    ensures
        answer_of(decoded(text), Request::Buy { name, stock }) == Answer::Purchased(
            Deal::Refused(Fault::StockFood),
        ),
        purchased(decoded(text), name, stock) == decoded(text),
        written(text, Request::Buy { name, stock }) is None,
{
}

/// A purchase of an item whose name no record carries is refused as not found:
/// the ledger stays as it is and the data file is not written.
pub proof fn lemma_unknown_name_refused(text: Seq<char>, name: Seq<char>, stock: int)
    requires
        forall|k: int| decoded(text).contains_key(k) ==> decoded(text)[k].name != name,
    ensures
        answer_of(decoded(text), Request::Buy { name, stock }) == Answer::Purchased(
            Deal::Refused(Fault::FoundFood),
        ),
        purchased(decoded(text), name, stock) == decoded(text),
        written(text, Request::Buy { name, stock }) is None,
{
    assert(!exists|k: int| is_first_match(decoded(text), name, true, k));
}

/// What a command writes reads back as the ledger that the command left, where
/// every name in that ledger is storable.
pub proof fn lemma_written_reads_back(text: Seq<char>, command: Command)
    requires
        writes(decoded(text), command@),
        forall|k: int|
            applied(decoded(text), command@).contains_key(k) ==> storable(
                #[trigger] applied(decoded(text), command@)[k].name,
            ),
    ensures
        written(text, command@) matches Some(after) && decoded(after) == applied(
            decoded(text),
            command@,
        ),
{
    let m = decoded(text);
    lemma_decoded_is_ledger(text);
    match command {
        Command::Add { name, stock, price } => {
            lemma_upserted_is_ledger(m, name@, stock as int, price as int);
        },
        Command::Buy { name, stock } => {
            let id = choose|id: int| is_first_match(m, name@, true, id);
            lemma_bought_is_ledger(m, id, name@, stock as int);
        },
        Command::List => {},
        Command::Delete { name } => {
            let k = choose|k: int| is_first_match(m, name@, false, k);
            vstd::set_lib::lemma_set_remove_finite_iff(m.dom(), k);
            assert(m.remove(k).dom() == m.dom().remove(k));
            lemma_renumbered_is_ledger(m.remove(k), k);
        },
    }
    lemma_decode_encode(applied(m, command@));
}

/// The text that is to be written, if any.
pub open spec fn persisted(persist: Option<String>) -> Option<Seq<char>> {
    match persist {
        Some(text) => Some(text@),
        None => None,
    }
}

/// Runs one command on the text of the data file: reads the ledger, changes it
/// as the command says, and writes its new text where it changed.
pub fn execute(text: String, command: Command, verbose: bool) -> (o: Outcome)
    ensures
        skips(o.skipped@) == (if verbose {
            skipped(text@)
        } else {
            Seq::<Skip>::empty()
        }),
        o.report@ == answer_of(decoded(text@), command@),
        persisted(o.persist) == written(text@, command@),
{
    let decoded = parse_foods(text, verbose);
    let mut foods = decoded.foods;
    let skipped = decoded.skipped;
    match command {
        Command::Add { name, stock, price } => {
            let upsert = foods.upsert(name.as_str(), stock, price);
            let persist = match upsert {
                Upsert::Exhausted => None,
                _ => Some(encode(foods)),
            };
            Outcome { skipped, report: Report::Upserted(upsert), persist }
        },
        Command::Buy { name, stock } => {
            let purchase = foods.purchase(name.as_str(), stock);
            let persist = match purchase {
                Purchase::Sold(_) => Some(encode(foods)),
                _ => None,
            };
            Outcome { skipped, report: Report::Purchased(purchase), persist }
        },
        Command::List => {
            Outcome { skipped, report: Report::Listed(encode(foods)), persist: None }
        },
        Command::Delete { name } => {
            let deletion = foods.delete(name.as_str());
            let persist = match deletion {
                Ok(_) => Some(encode(foods)),
                Err(_) => None,
            };
            Outcome { skipped, report: Report::Deleted(deletion), persist }
        },
    }
}

} // verus!
