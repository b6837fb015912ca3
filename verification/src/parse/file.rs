use vstd::prelude::*;

verus! {

/// A source of bytes that can be read by position, such as a file.
pub trait FileInput {
    /// Reads the bytes from offset `start` up to, and not including, offset
    /// `end`.
    fn slice(&self, start: usize, end: usize) -> Result<Vec<u8>, std::io::Error>;
}

} // verus!
