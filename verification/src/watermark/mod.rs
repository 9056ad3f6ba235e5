//! The watermark codecs.
pub mod dct;
pub mod dwt;
pub mod utils;

use vstd::prelude::*;
use crate::cli::Algorithm;
use crate::watermark::dct::{DctWatermark, DEFAULT_BLOCK_SIZE};

verus! {

/// Creates the codec for a selected algorithm.
pub struct WatermarkFactory;

impl WatermarkFactory {
    /// The codec that implements `algorithm`, in its default configuration.
    pub fn create_algorithm(algorithm: Algorithm) -> (codec: DctWatermark)
        ensures
            codec.spec_block_size() == DEFAULT_BLOCK_SIZE,
    {
        match algorithm {
            Algorithm::Dct => DctWatermark::new(),
        }
    }
}

} // verus!
