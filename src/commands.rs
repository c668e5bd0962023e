//! What the command line asks of the store.

pub mod snap;
