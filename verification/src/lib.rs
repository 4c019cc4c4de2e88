//! A chemistry calculator: parses chemical formulas and reactions, groups the
//! elements of a molecule, looks up the elements in a database and balances
//! reactions with exact arithmetic.
//!
//! - `parser` reads molecules and reactions from text; `canonical` shows that
//!   the formulas written by `elem` are read back as they were.
//! - `elem` holds elements and molecules and groups the elements of a molecule.
//! - `balance` balances a reaction by Gaussian elimination over the fractions
//!   of `rational`; `linear` shows that what it finds solves the reaction.
//! - `database` reads the database of the elements.
//! - `command` holds the commands `mass` and `balance` up to their output.
//! - `error`, `token` and `text` hold what the others share.

pub mod balance;
pub mod canonical;
pub mod command;
pub mod database;
pub mod elem;
pub mod error;
pub mod linear;
pub mod parser;
pub mod rational;
pub mod text;
pub mod token;
