use seal::capacity::capacity;
use seal::error::WatermarkError;
use seal::media::audio::AudioWatermarker;
use seal::media::image::ImageWatermarker;
use seal::media::{MediaType, MediaUtils};

#[test]
fn block_capacity_is_one_bit_per_block() {
    assert_eq!(capacity(16, 16, "DCT").unwrap(), 4);
    assert_eq!(capacity(17, 9, "DCT").unwrap(), 6);
    assert_eq!(capacity(1, 1, "DCT").unwrap(), 1);
    assert_eq!(capacity(0, 10, "DCT").unwrap(), 0);
    assert_eq!(capacity(1920, 1080, "DCT").unwrap(), 240 * 135);
}

#[test]
fn wavelet_capacity_is_a_quarter_of_the_even_grid() {
    assert_eq!(capacity(16, 16, "DWT").unwrap(), 64);
    assert_eq!(capacity(15, 15, "DWT").unwrap(), 64);
    assert_eq!(capacity(3, 5, "DWT").unwrap(), 6);
    assert_eq!(capacity(0, 0, "DWT").unwrap(), 0);
}

#[test]
fn the_tag_is_searched_for_the_name() {
    assert_eq!(capacity(16, 16, "my DCT codec").unwrap(), 4);
    assert_eq!(capacity(16, 16, "Haar-DWT").unwrap(), 64);
    assert_eq!(capacity(16, 16, "DWT over DCT").unwrap(), 4);
}

#[test]
fn an_unknown_tag_is_an_unsupported_format() {
    for tag in ["", "dct", "FFT", "D CT"] {
        match capacity(16, 16, tag) {
            Err(WatermarkError::UnsupportedFormat(_)) => {}
            _ => panic!("expected an unsupported format"),
        }
    }
}

#[test]
fn capacity_is_the_same_each_time_and_never_shrinks() {
    for tag in ["DCT", "DWT"] {
        for w in 0..40usize {
            for h in 0..40usize {
                let here = capacity(w, h, tag).unwrap();
                assert_eq!(here, capacity(w, h, tag).unwrap());
                assert!(here <= capacity(w + 1, h, tag).unwrap());
                assert!(here <= capacity(w, h + 1, tag).unwrap());
            }
        }
    }
}

#[test]
fn a_text_fits_an_image_or_does_not() {
    assert_eq!(ImageWatermarker::check_watermark_capacity(16, 16, "Hi", "DCT").unwrap(), false);
    assert_eq!(ImageWatermarker::check_watermark_capacity(32, 32, "Hi", "DCT").unwrap(), true);
    assert_eq!(ImageWatermarker::check_watermark_capacity(31, 25, "Hi", "DCT").unwrap(), true);
    assert_eq!(ImageWatermarker::check_watermark_capacity(24, 32, "Hi", "DCT").unwrap(), false);
    assert_eq!(ImageWatermarker::check_watermark_capacity(8, 8, "Hi", "DWT").unwrap(), true);
    assert_eq!(ImageWatermarker::check_watermark_capacity(8, 7, "Hi", "DWT").unwrap(), true);
    assert_eq!(ImageWatermarker::check_watermark_capacity(8, 6, "Hi", "DWT").unwrap(), false);
    assert_eq!(ImageWatermarker::check_watermark_capacity(0, 0, "", "DCT").unwrap(), true);
    assert!(matches!(
        ImageWatermarker::check_watermark_capacity(8, 8, "Hi", "none"),
        Err(WatermarkError::UnsupportedFormat(_))
    ));
}

#[test]
fn a_text_fits_a_stream_or_does_not() {
    assert_eq!(AudioWatermarker::check_watermark_capacity(1024, "Hi", "DCT").unwrap(), true);
    assert_eq!(AudioWatermarker::check_watermark_capacity(1025, "Hi", "DCT").unwrap(), true);
    assert_eq!(AudioWatermarker::check_watermark_capacity(576, "Hi", "DCT").unwrap(), false);
    assert_eq!(AudioWatermarker::check_watermark_capacity(577, "Hi", "DCT").unwrap(), true);
    assert_eq!(AudioWatermarker::check_watermark_capacity(49, "Hi", "DWT").unwrap(), true);
    assert_eq!(AudioWatermarker::check_watermark_capacity(36, "Hi", "DWT").unwrap(), false);
    assert!(AudioWatermarker::check_watermark_capacity(36, "Hi", "?").is_err());
}

#[test]
fn media_kinds_follow_the_extension() {
    assert_eq!(MediaUtils::detect_media_type(Some("jpg")).unwrap(), MediaType::Image);
    assert_eq!(MediaUtils::detect_media_type(Some("JPG")).unwrap(), MediaType::Image);
    assert_eq!(MediaUtils::detect_media_type(Some("WebP")).unwrap(), MediaType::Image);
    assert_eq!(MediaUtils::detect_media_type(Some("wave")).unwrap(), MediaType::Audio);
    assert_eq!(MediaUtils::detect_media_type(Some("WAV")).unwrap(), MediaType::Audio);
    assert_eq!(MediaUtils::detect_media_type(Some("MkV")).unwrap(), MediaType::Video);
    assert_eq!(MediaUtils::classify_extension("tiff").unwrap(), MediaType::Image);
    assert_eq!(MediaUtils::classify_extension("mov").unwrap(), MediaType::Video);
    assert!(MediaUtils::classify_extension("JPG").is_err());
}

#[test]
fn unknown_or_missing_extensions_are_unsupported() {
    match MediaUtils::detect_media_type(Some("TXT")) {
        Err(WatermarkError::UnsupportedFormat(text)) => assert_eq!(text, "不支持的文件格式: txt"),
        _ => panic!("expected an unsupported format"),
    }
    match MediaUtils::detect_media_type(None) {
        Err(WatermarkError::UnsupportedFormat(text)) => assert_eq!(text, "无法确定文件类型"),
        _ => panic!("expected an unsupported format"),
    }
    assert!(MediaUtils::detect_media_type(Some("")).is_err());
    assert!(MediaUtils::detect_media_type(Some("jp")).is_err());
}

#[test]
fn the_supported_formats_are_listed() {
    assert_eq!(
        MediaUtils::supported_image_formats(),
        vec!["jpg", "jpeg", "png", "bmp", "gif", "tiff", "webp"]
    );
    assert_eq!(MediaUtils::supported_audio_formats(), vec!["wav", "wave"]);
    assert_eq!(MediaUtils::supported_video_formats(), vec!["mp4", "avi", "mov", "mkv"]);
    for e in MediaUtils::supported_image_formats() {
        assert_eq!(MediaUtils::classify_extension(e).unwrap(), MediaType::Image);
    }
    for e in MediaUtils::supported_audio_formats() {
        assert_eq!(MediaUtils::classify_extension(e).unwrap(), MediaType::Audio);
    }
    for e in MediaUtils::supported_video_formats() {
        assert_eq!(MediaUtils::classify_extension(e).unwrap(), MediaType::Video);
    }
}

#[test]
fn the_checks_answer_for_every_size() {
    assert_eq!(
        ImageWatermarker::check_watermark_capacity(u32::MAX, u32::MAX, "Hi", "DWT").unwrap(),
        true
    );
    assert_eq!(
        ImageWatermarker::check_watermark_capacity(u32::MAX, u32::MAX, "Hi", "DCT").unwrap(),
        true
    );
    assert_eq!(AudioWatermarker::check_watermark_capacity(usize::MAX, "Hi", "DWT").unwrap(), true);
    assert_eq!(AudioWatermarker::check_watermark_capacity(usize::MAX, "Hi", "DCT").unwrap(), true);
    assert_eq!(AudioWatermarker::check_watermark_capacity(0, "", "DCT").unwrap(), true);
    assert_eq!(AudioWatermarker::check_watermark_capacity(0, "a", "DCT").unwrap(), false);
}

#[test]
fn a_text_that_fits_a_smaller_image_fits_a_larger_one() {
    for tag in ["DCT", "DWT"] {
        for w in 1..40u32 {
            for h in [1u32, 7, 8, 9, 31] {
                let here = ImageWatermarker::check_watermark_capacity(w, h, "ab", tag).unwrap();
                assert_eq!(here, ImageWatermarker::check_watermark_capacity(w, h, "ab", tag).unwrap());
                if here {
                    assert!(ImageWatermarker::check_watermark_capacity(w + 1, h, "ab", tag).unwrap());
                    assert!(ImageWatermarker::check_watermark_capacity(w, h + 3, "ab", tag).unwrap());
                }
            }
        }
    }
}
