//! Images: whether a text fits a picture.
use vstd::prelude::*;
use vstd::string::StringSliceAdditionalSpecFns;
use crate::capacity::{capacity_of, wide_capacity};
use crate::error::WatermarkError;

verus! {

/// Capacity rules for images.
pub struct ImageWatermarker;

impl ImageWatermarker {
    /// Tells whether the payload of `watermark_text` fits an image of
    /// `width` by `height` pixels under the algorithm named by `algorithm`.
    pub fn check_watermark_capacity(
        width: u32,
        height: u32,
        watermark_text: &str,
        algorithm: &str,
    ) -> (res: Result<bool, WatermarkError>)
        ensures
            match capacity_of(width as nat, height as nat, algorithm@) {
                Some(c) => res == Ok::<bool, WatermarkError>(
                    8 * watermark_text.spec_bytes().len() <= c,
                ),
                None => res matches Err(WatermarkError::UnsupportedFormat(text)) && text@
                    == "未知算法"@,
            },
    {
        match wide_capacity(width as usize, height as usize, algorithm) {
            Ok(c) => Ok(watermark_text.as_bytes().len() as u128 * 8 <= c),
            Err(e) => Err(e),
        }
    }
}

} // verus!
