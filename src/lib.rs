//! Fetches a provider's published signing keys, keeps them in a bounded table, and
//! looks them up by key identifier to validate tokens.
use vstd::prelude::*;

pub mod cache;
pub mod fetch;
pub mod keys;
pub mod parse;

pub use cache::Keys;
pub use parse::Parse;

verus! {

/// Parses the body of a key set response into a stream of (key id, unescaped key) pairs.
pub fn parse<'a>(data: &'a mut [u8]) -> (r: Parse<'a>)
    ensures
        r@ == old(data)@,
{
    Parse::new(data)
}

} // verus!
