//! Error values returned by the watermark core.
use vstd::prelude::*;
use vstd::string::StringExecFns;

verus! {

/// Failures of the watermarking functions.
#[derive(Debug)]
pub enum WatermarkError {
    /// Reading or writing a file failed; holds the system's message.
    Io(String),
    /// An image could not be decoded or encoded.
    Image(String),
    /// An audio stream could not be decoded or encoded.
    Audio(String),
    /// The media format or the algorithm tag is not recognized.
    UnsupportedFormat(String),
    /// Extracted bits do not form valid text.
    InvalidWatermark,
    /// No watermark could be extracted.
    ExtractionFailed,
    /// An algorithm failed internally.
    Algorithm(String),
    /// A payload exceeds capacity, or a grid has the wrong shape.
    InvalidArgument(String),
    /// An external collaborator failed, or every sampled frame failed.
    ProcessingError(String),
}

impl WatermarkError {
    /// The text that `message` shows in front of the detail of a variant.
    pub open spec fn prefix(self) -> Seq<char> {
        match self {
            WatermarkError::Io(_) => "IO错误: "@,
            WatermarkError::Image(_) => "图像处理错误: "@,
            WatermarkError::Audio(_) => "音频处理错误: "@,
            WatermarkError::UnsupportedFormat(_) => "不支持的文件格式: "@,
            WatermarkError::InvalidWatermark => "无效的水印数据"@,
            WatermarkError::ExtractionFailed => "水印提取失败"@,
            WatermarkError::Algorithm(_) => "算法错误: "@,
            WatermarkError::InvalidArgument(_) => "参数错误: "@,
            WatermarkError::ProcessingError(_) => "处理错误: "@,
        }
    }

    /// The detail carried by a variant, empty where it carries none.
    pub open spec fn detail(self) -> Seq<char> {
        match self {
            WatermarkError::Io(s) => s@,
            WatermarkError::Image(s) => s@,
            WatermarkError::Audio(s) => s@,
            WatermarkError::UnsupportedFormat(s) => s@,
            WatermarkError::InvalidWatermark => Seq::empty(),
            WatermarkError::ExtractionFailed => Seq::empty(),
            WatermarkError::Algorithm(s) => s@,
            WatermarkError::InvalidArgument(s) => s@,
            WatermarkError::ProcessingError(s) => s@,
        }
    }

    /// Human-readable description: the variant's prefix followed by its detail.
    pub fn message(&self) -> (text: String)
        ensures
            text@ == self.prefix() + self.detail(),
    {
        match self {
            WatermarkError::Io(s) => String::from_str("IO错误: ").concat(s.as_str()),
            WatermarkError::Image(s) => String::from_str("图像处理错误: ").concat(s.as_str()),
            WatermarkError::Audio(s) => String::from_str("音频处理错误: ").concat(s.as_str()),
            WatermarkError::UnsupportedFormat(s) => String::from_str("不支持的文件格式: ").concat(
                s.as_str(),
            ),
            WatermarkError::InvalidWatermark => String::from_str("无效的水印数据"),
            WatermarkError::ExtractionFailed => String::from_str("水印提取失败"),
            WatermarkError::Algorithm(s) => String::from_str("算法错误: ").concat(s.as_str()),
            WatermarkError::InvalidArgument(s) => String::from_str("参数错误: ").concat(s.as_str()),
            WatermarkError::ProcessingError(s) => String::from_str("处理错误: ").concat(s.as_str()),
        }
    }
}

} // verus!
