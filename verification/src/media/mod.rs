//! Media-specific rules around the codecs.
pub mod audio;
pub mod image;
pub mod video;

use vstd::prelude::*;
use vstd::string::StringExecFns;
use vstd::utf8::is_ascii_chars;
use crate::error::WatermarkError;
use crate::text::text_equals;

verus! {

/// The kinds of media that can carry a watermark.
#[derive(Debug, Clone, Copy, PartialEq, Eq, Structural)]
pub enum MediaType {
    /// A still picture.
    Image,
    /// A sound file.
    Audio,
    /// A film, with or without sound.
    Video,
}

/// The file extensions of images, in lower case.
pub open spec fn image_formats() -> Seq<Seq<char>> {
    seq!["jpg"@, "jpeg"@, "png"@, "bmp"@, "gif"@, "tiff"@, "webp"@]
}

/// The file extensions of audio files, in lower case.
pub open spec fn audio_formats() -> Seq<Seq<char>> {
    seq!["wav"@, "wave"@]
}

/// The file extensions of videos, in lower case.
pub open spec fn video_formats() -> Seq<Seq<char>> {
    seq!["mp4"@, "avi"@, "mov"@, "mkv"@]
}

/// The kind of media that a lower-case file extension stands for.
pub open spec fn media_type_of(lower: Seq<char>) -> Option<MediaType> {
    if image_formats().contains(lower) {
        Some(MediaType::Image)
    } else if audio_formats().contains(lower) {
        Some(MediaType::Audio)
    } else if video_formats().contains(lower) {
        Some(MediaType::Video)
    } else {
        None
    }
}

/// The lower-case form of a text, as the standard library computes it.
pub uninterp spec fn lowercase_of(text: Seq<char>) -> Seq<char>;

/// The lower-case form of an ASCII character: the letters `A` to `Z` become
/// `a` to `z`, every other character stays as it is.
pub open spec fn ascii_lower(c: char) -> char {
    if 'A' <= c <= 'Z' {
        ((c as u32) + 32) as char
    } else {
        c
    }
}

/// A text with every character replaced by its ASCII lower-case form.
pub open spec fn ascii_lowered(text: Seq<char>) -> Seq<char> {
    Seq::new(text.len(), |i: int| ascii_lower(text[i]))
}

/// Lower-case form of a text, by `str::to_lowercase` of the standard
/// library. The library lowers a text by the rules of Unicode; on a text of
/// ASCII characters these change the letters `A` to `Z` to `a` to `z` and
/// nothing else.
#[verifier::external_body]
fn lowercase(text: &str) -> (lower: String)
    ensures
        lower@ == lowercase_of(text@),
        is_ascii_chars(text@) ==> lower@ == ascii_lowered(text@),
{
    text.to_lowercase()
}

/// The views of a list of texts.
pub open spec fn views(list: Seq<&'static str>) -> Seq<Seq<char>> {
    Seq::new(list.len(), |i: int| list[i]@)
}

/// Tells whether `text` is in `list`.
fn listed(list: &Vec<&'static str>, text: &str) -> (found: bool)
    ensures
        found == views(list@).contains(text@),
{
    let mut i: usize = 0;
    while i < list.len()
        invariant
            i <= list@.len(),
            forall|q: int| 0 <= q < i ==> list@[q]@ != text@,
        decreases list@.len() - i,
    {
        if text_equals(list[i], text) {
            assert(views(list@)[i as int] == text@);
            return true;
        }
        i += 1;
    }
    assert forall|q: int| 0 <= q < views(list@).len() implies views(list@)[q] != text@ by {
        assert(list@[q]@ != text@);
    }
    false
}

/// Helpers around media files.
pub struct MediaUtils;

impl MediaUtils {
    /// The file extensions of the supported images.
    pub fn supported_image_formats() -> (list: Vec<&'static str>)
        ensures
            views(list@) == image_formats(),
    {
        let list = vec!["jpg", "jpeg", "png", "bmp", "gif", "tiff", "webp"];
        assert(views(list@) =~= image_formats());
        list
    }

    /// The file extensions of the supported audio files.
    pub fn supported_audio_formats() -> (list: Vec<&'static str>)
        ensures
            views(list@) == audio_formats(),
    {
        let list = vec!["wav", "wave"];
        assert(views(list@) =~= audio_formats());
        list
    }

    /// The file extensions of the supported videos.
    pub fn supported_video_formats() -> (list: Vec<&'static str>)
        ensures
            views(list@) == video_formats(),
    {
        let list = vec!["mp4", "avi", "mov", "mkv"];
        assert(views(list@) =~= video_formats());
        list
    }

    /// The kind of media that a lower-case file extension stands for.
    /// An extension that is not supported is rejected, and named in the
    /// error.
    pub fn classify_extension(lower: &str) -> (res: Result<MediaType, WatermarkError>)
        ensures
            match media_type_of(lower@) {
                Some(kind) => res == Ok::<MediaType, WatermarkError>(kind),
                None => res matches Err(WatermarkError::UnsupportedFormat(text)) && text@
                    == "不支持的文件格式: "@ + lower@,
            },
    {
        if listed(&Self::supported_image_formats(), lower) {
            Ok(MediaType::Image)
        } else if listed(&Self::supported_audio_formats(), lower) {
            Ok(MediaType::Audio)
        } else if listed(&Self::supported_video_formats(), lower) {
            Ok(MediaType::Video)
        } else {
            Err(
                WatermarkError::UnsupportedFormat(
                    String::from_str("不支持的文件格式: ").concat(lower),
                ),
            )
        }
    }

    /// The kind of media of a file, judged by the extension of its name
    /// without regard to case. A file without extension is rejected.
    pub fn detect_media_type(extension: Option<&str>) -> (res: Result<MediaType, WatermarkError>)
        ensures
            match extension {
                None => res matches Err(WatermarkError::UnsupportedFormat(text)) && text@
                    == "无法确定文件类型"@,
                Some(e) => match media_type_of(lowercase_of(e@)) {
                    Some(kind) => res == Ok::<MediaType, WatermarkError>(kind),
                    None => res matches Err(WatermarkError::UnsupportedFormat(text)) && text@
                        == "不支持的文件格式: "@ + lowercase_of(e@),
                },
            },
            match extension {
                Some(e) => is_ascii_chars(e@) ==> match media_type_of(ascii_lowered(e@)) {
                    Some(kind) => res == Ok::<MediaType, WatermarkError>(kind),
                    None => res matches Err(WatermarkError::UnsupportedFormat(text)) && text@
                        == "不支持的文件格式: "@ + ascii_lowered(e@),
                },
                None => res is Err,
            },
    {
        match extension {
            None => Err(WatermarkError::UnsupportedFormat(String::from_str("无法确定文件类型"))),
            Some(e) => {
                let lower = lowercase(e);
                Self::classify_extension(lower.as_str())
            },
        }
    }
}

} // verus!
