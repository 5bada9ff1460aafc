use vstd::prelude::*;

pub use crate::text::Formatter;

verus! {

/// A handle on standard output; the writing itself happens outside the
/// library.
pub struct Writer;

impl Writer {
    pub fn new() -> (r: Self) {
        Writer
    }
}

} // verus!
