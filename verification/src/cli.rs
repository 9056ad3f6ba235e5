//! Choices that a caller makes on the command line.
use vstd::prelude::*;

verus! {

/// The watermark algorithms that can be selected.
#[derive(Clone, Copy, Debug)]
pub enum Algorithm {
    /// The block-transform codec.
    Dct,
}

} // verus!
