use seal::error::WatermarkError;
use seal::text::{decimal_string, text_contains, text_equals};
use seal::watermark::utils::{Decoded, WatermarkUtils};

fn bits_of_bytes(bytes: &[u8]) -> Vec<u8> {
    let mut bits = Vec::new();
    for byte in bytes {
        for i in (0..8).rev() {
            bits.push((byte >> i) & 1);
        }
    }
    bits
}

#[test]
fn hi_has_sixteen_bits() {
    let bits = WatermarkUtils::string_to_bits("Hi");
    assert_eq!(bits.len(), 16);
    assert_eq!(bits, vec![0, 1, 0, 0, 1, 0, 0, 0, 0, 1, 1, 0, 1, 0, 0, 1]);
}

#[test]
fn hi_round_trips() {
    let bits = WatermarkUtils::string_to_bits("Hi");
    let text = WatermarkUtils::bits_to_string(&bits).unwrap();
    assert_eq!(text, "Hi");
}

#[test]
fn empty_text_round_trips() {
    let bits = WatermarkUtils::string_to_bits("");
    assert!(bits.is_empty());
    assert_eq!(WatermarkUtils::bits_to_string(&bits).unwrap(), "");
}

#[test]
fn multi_byte_text_round_trips() {
    let text = "水印 ok é";
    let bits = WatermarkUtils::string_to_bits(text);
    assert_eq!(bits.len(), 8 * text.len());
    assert!(bits.iter().all(|b| *b == 0 || *b == 1));
    assert_eq!(WatermarkUtils::bits_to_string(&bits).unwrap(), text);
}

#[test]
fn seventeen_bits_are_rejected_whatever_they_hold() {
    let zeros = vec![0u8; 17];
    let ones = vec![1u8; 17];
    let mut mixed = WatermarkUtils::string_to_bits("Hi");
    mixed.push(1);
    assert!(matches!(WatermarkUtils::bits_to_string(&zeros), Err(WatermarkError::InvalidWatermark)));
    assert!(matches!(WatermarkUtils::bits_to_string(&ones), Err(WatermarkError::InvalidWatermark)));
    assert!(matches!(WatermarkUtils::bits_to_string(&mixed), Err(WatermarkError::InvalidWatermark)));
}

#[test]
fn invalid_utf8_is_rejected_by_strict_decoding() {
    let bits = bits_of_bytes(&[0x48, 0xff]);
    assert!(matches!(WatermarkUtils::bits_to_string(&bits), Err(WatermarkError::InvalidWatermark)));
}

#[test]
fn lossy_decoding_replaces_invalid_bytes() {
    let bits = bits_of_bytes(&[0x48, 0xff, 0x69]);
    assert_eq!(WatermarkUtils::bits_to_string_lossy(&bits), "H\u{fffd}i");
}

#[test]
fn lossy_decoding_keeps_valid_text() {
    let bits = WatermarkUtils::string_to_bits("Hi");
    assert_eq!(WatermarkUtils::bits_to_string_lossy(&bits), "Hi");
}

#[test]
fn lossy_decoding_reports_a_ragged_length() {
    let bits = vec![1u8; 17];
    assert_eq!(WatermarkUtils::bits_to_string_lossy(&bits), "[错误: 长度17不是8的倍数]");
}

#[test]
fn any_nonzero_bit_counts_as_set_when_packing() {
    let bits = vec![0u8, 7, 0, 0, 255, 0, 0, 0];
    assert_eq!(WatermarkUtils::pack_bits(&bits), vec![0x48]);
    assert_eq!(WatermarkUtils::bits_to_string(&bits).unwrap(), "H");
}

#[test]
fn a_short_last_run_fills_the_high_bits() {
    assert_eq!(WatermarkUtils::pack_bits(&[1, 1]), vec![0b1100_0000]);
    assert_eq!(WatermarkUtils::pack_bits(&[0, 0, 0, 0, 0, 0, 0, 1, 1]), vec![1, 0b1000_0000]);
    assert_eq!(WatermarkUtils::pack_bits(&[]), Vec::<u8>::new());
}

#[test]
fn analysis_counts_and_decodes() {
    let bits = WatermarkUtils::string_to_bits("Hi");
    let report = WatermarkUtils::analyze_extracted_bits(&bits);
    assert_eq!(report.total, 16);
    assert_eq!(report.ones, 6);
    assert_eq!(report.zeros, 10);
    assert_eq!(report.bytes, vec![0x48, 0x69]);
    assert!(matches!(report.decoded, Decoded::Text(ref s) if s == "Hi"));
}

#[test]
fn analysis_of_a_ragged_payload() {
    let report = WatermarkUtils::analyze_extracted_bits(&[1, 2, 0]);
    assert_eq!(report.total, 3);
    assert_eq!(report.ones, 1);
    assert_eq!(report.zeros, 2);
    assert!(report.bytes.is_empty());
    assert!(matches!(report.decoded, Decoded::Incomplete));
}

#[test]
fn analysis_of_invalid_bytes_is_lossy() {
    let bits = bits_of_bytes(&[0xff]);
    let report = WatermarkUtils::analyze_extracted_bits(&bits);
    assert_eq!(report.bytes, vec![0xff]);
    assert!(matches!(report.decoded, Decoded::Lossy(ref s) if s == "\u{fffd}"));
}

#[test]
fn voting_over_rounds_takes_the_majority() {
    let bits = WatermarkUtils::extract_with_voting(|| Ok(vec![1u8, 0, 1]), 4, 3).unwrap();
    assert_eq!(bits, vec![1, 0, 1, 0]);
}

#[test]
fn voting_without_rounds_extracts_once() {
    let bits = WatermarkUtils::extract_with_voting(|| Ok(vec![1u8, 0, 1]), 8, 0).unwrap();
    assert_eq!(bits, vec![1, 0, 1]);
    let failed = WatermarkUtils::extract_with_voting(|| Err(WatermarkError::ExtractionFailed), 8, 0);
    assert!(matches!(failed, Err(WatermarkError::ExtractionFailed)));
}

#[test]
fn voting_passes_over_failed_rounds() {
    let bits =
        WatermarkUtils::extract_with_voting(|| Err(WatermarkError::ExtractionFailed), 3, 2).unwrap();
    assert_eq!(bits, vec![0, 0, 0]);
}

#[test]
fn voting_counts_rounds_against_each_other() {
    let turn = std::cell::Cell::new(0usize);
    let extract = || {
        let n = turn.get();
        turn.set(n + 1);
        match n {
            0 => Ok(vec![1u8, 1, 0]),
            1 => Ok(vec![1u8, 0, 0]),
            2 => Err(WatermarkError::ExtractionFailed),
            _ => Ok(vec![0u8, 1]),
        }
    };
    let bits = WatermarkUtils::extract_with_voting(extract, 3, 4).unwrap();
    assert_eq!(bits, vec![1, 1, 0]);
}

#[test]
fn decimal_rendering() {
    assert_eq!(decimal_string(0), "0");
    assert_eq!(decimal_string(7), "7");
    assert_eq!(decimal_string(10), "10");
    assert_eq!(decimal_string(1234567890123), "1234567890123");
    assert_eq!(decimal_string(u128::MAX), u128::MAX.to_string());
}

#[test]
fn text_search_and_comparison() {
    assert!(text_contains("my DCT codec", "DCT"));
    assert!(text_contains("DCT", "DCT"));
    assert!(text_contains("anything", ""));
    assert!(!text_contains("DC", "DCT"));
    assert!(!text_contains("dct", "DCT"));
    assert!(!text_contains("D-C-T", "DCT"));
    assert!(text_equals("水印", "水印"));
    assert!(!text_equals("wav", "wave"));
    assert!(!text_equals("wav", "waw"));
}

#[test]
fn error_messages() {
    assert_eq!(WatermarkError::InvalidArgument("x".to_string()).message(), "参数错误: x");
    assert_eq!(WatermarkError::InvalidWatermark.message(), "无效的水印数据");
    assert_eq!(WatermarkError::ExtractionFailed.message(), "水印提取失败");
    assert_eq!(WatermarkError::Io("gone".to_string()).message(), "IO错误: gone");
    assert_eq!(WatermarkError::Image("bad".to_string()).message(), "图像处理错误: bad");
    assert_eq!(WatermarkError::Audio("bad".to_string()).message(), "音频处理错误: bad");
    assert_eq!(WatermarkError::UnsupportedFormat("xyz".to_string()).message(), "不支持的文件格式: xyz");
    assert_eq!(WatermarkError::Algorithm("a".to_string()).message(), "算法错误: a");
    assert_eq!(WatermarkError::ProcessingError("p".to_string()).message(), "处理错误: p");
}
