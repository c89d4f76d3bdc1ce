//! A small food-stock ledger kept in a comma-separated text file: the ledger
//! itself, the reading and writing of the file's text, and the four commands
//! (add or update, buy, list, delete) as functions from the old text to the new.

pub mod codec;
pub mod error;
pub mod food;
pub mod foods;
pub mod index;
pub mod ledger;
pub mod number;
pub mod ops;
mod sort;
pub mod text;

pub use crate::codec::{
    encode, encode_list, parse_food, parse_foods, render_food, Decoded, Skipped,
};
pub use crate::error::{Field, ParseError};
pub use crate::food::Food;
pub use crate::foods::{Foods, Receipt};
pub use crate::number::{parse_int, render_int, IntFault};
pub use crate::ops::{execute, Command, Outcome, Purchase, Report, Upsert};
