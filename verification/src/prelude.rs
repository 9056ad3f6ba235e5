//! The items most callers need, in one place.
pub use crate::cli::Algorithm;
pub use crate::error::WatermarkError;
pub use crate::grid::Grid;
pub use crate::media::audio::AudioWatermarker;
pub use crate::media::image::ImageWatermarker;
pub use crate::media::video::VideoWatermarker;
pub use crate::media::{MediaType, MediaUtils};
pub use crate::watermark::dct::DctWatermark;
pub use crate::watermark::dwt::DwtWatermark;
pub use crate::watermark::utils::WatermarkUtils;
pub use crate::watermark::WatermarkFactory;
