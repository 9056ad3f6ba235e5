//! Frequency-domain watermarking for images, audio and video.
//!
//! A short text is hidden in the signs of transform coefficients and read
//! back later. This crate is the verified core of that scheme:
//!
//! - `grid`, `layout`, `adapter`: sample grids, mirrored padding, and the
//!   mapping between flat sample streams and square grids;
//! - `watermark::dct`: the block-transform codec, one bit per block;
//! - `watermark::dwt`: the Haar wavelet codec;
//! - `watermark::utils`: text to bits and back;
//! - `capacity`: how many bits a grid can carry;
//! - `media`: frame sampling and weighted voting for video, stream layout
//!   and window lengths for audio, capacity checks for images.
//!
//! The functions move samples around but never compute with them, so they
//! are generic in the sample type. Whatever needs arithmetic on samples (a
//! transform, the change of a coefficient, the test of a sign) is handed in
//! by the caller as a closure, and the contracts say how the result is made
//! of the closure's results.
pub mod adapter;
pub mod capacity;
pub mod cli;
pub mod error;
pub mod grid;
pub mod layout;
pub mod media;
pub mod prelude;
pub mod text;
pub mod watermark;
