use vstd::prelude::*;
use crate::parse::json::DispatchError;

pub mod decimal;
pub mod discord;
pub mod file;
pub mod json;
pub mod order;
pub mod reader;
pub mod text;
pub mod tokens;
pub mod util;

verus! {

/// A parser for the export format of one chat platform. It registers its
/// handlers with a dispatcher and makes what it will of the records that
/// they are handed.
pub trait ChatParser {
    /// What a handler of this parser reports when it ends a run.
    type Failure;

    /// Processes one export.
    fn parse(&self, source: &[u8]) -> Result<(), DispatchError<Self::Failure>>;
}

} // verus!
