//! The errors of the library.
use vstd::prelude::*;

verus! {

/// What can go wrong in the library's logic.
#[derive(Debug)]
pub enum Error {
    /// A required environment variable is empty; it holds the variable's name.
    EmptyConfig(&'static str),
    /// The server answered with a status outside 200..=299.
    Api { status: u16, body: String },
    /// A stream payload is not a well-formed chunk.
    Decode(serde_json::Error),
    /// The server reported more tokens than the budget allows.
    BudgetExceeded { used: u64, budget: i32 },
}

} // verus!
