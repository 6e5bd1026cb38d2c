pub mod error;
pub mod journal;
pub mod account;
pub mod date;
pub mod money;
pub mod parser;
pub mod tags;
pub mod transaction;
