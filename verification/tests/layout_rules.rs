use rustdct::DctPlanner;
use seal::adapter::{ceil_sqrt, from_grid, next_power_of_two, to_grid, PadMode};
use seal::error::WatermarkError;
use seal::grid::Grid;
use seal::layout::{mirror_index, tile_count};
use seal::media::audio::{AudioWatermarker, COMPRESSION_STEP, COMPRESSION_WINDOW};

fn forward(block: &Grid<f64>) -> Vec<Vec<f64>> {
    let mut planner = DctPlanner::<f64>::new();
    let plan = planner.plan_dct2(8);
    let mut data = block.duplicate().into_rows();
    for row in data.iter_mut() {
        plan.process_dct2(row);
    }
    for c in 0..8 {
        let mut column: Vec<f64> = (0..8).map(|r| data[r][c]).collect();
        plan.process_dct2(&mut column);
        for r in 0..8 {
            data[r][c] = column[r];
        }
    }
    data
}

fn backward(mut data: Vec<Vec<f64>>) -> Grid<f64> {
    let mut planner = DctPlanner::<f64>::new();
    let plan = planner.plan_dct3(8);
    for c in 0..8 {
        let mut column: Vec<f64> = (0..8).map(|r| data[r][c]).collect();
        plan.process_dct3(&mut column);
        for r in 0..8 {
            data[r][c] = column[r];
        }
    }
    for row in data.iter_mut() {
        plan.process_dct3(row);
        for v in row.iter_mut() {
            *v /= 16.0;
        }
    }
    Grid::from_rows(data).unwrap()
}

fn gentle(block: Grid<f64>, target: Option<(usize, usize)>, flag: bool, strength: f64) -> Grid<f64> {
    let mut coeffs = forward(&block);
    if let Some((u, v)) = target {
        let coeff = coeffs[u][v];
        let change = strength * coeff.abs().max(1.0) * 0.3;
        coeffs[u][v] = if flag { coeff.abs() + change } else { -(coeff.abs() + change) };
    }
    backward(coeffs)
}

fn sign(block: Grid<f64>, u: usize, v: usize) -> bool {
    forward(&block)[u][v] >= 0.0
}

#[test]
fn tiles_and_mirrors() {
    assert_eq!(tile_count(0, 8), 0);
    assert_eq!(tile_count(1, 8), 1);
    assert_eq!(tile_count(8, 8), 1);
    assert_eq!(tile_count(9, 8), 2);
    assert_eq!(tile_count(usize::MAX, 1), usize::MAX);
    assert_eq!(tile_count(usize::MAX, usize::MAX), 1);
    assert_eq!(mirror_index(2, 5), 2);
    assert_eq!(mirror_index(5, 5), 4);
    assert_eq!(mirror_index(6, 5), 3);
    assert_eq!(mirror_index(9, 5), 0);
    assert_eq!(mirror_index(30, 5), 0);
    assert_eq!(mirror_index(7, 1), 0);
}

#[test]
fn square_roots_are_rounded_up() {
    assert_eq!(ceil_sqrt(0), 0);
    assert_eq!(ceil_sqrt(1), 1);
    assert_eq!(ceil_sqrt(2), 2);
    assert_eq!(ceil_sqrt(4), 2);
    assert_eq!(ceil_sqrt(5), 3);
    assert_eq!(ceil_sqrt(16), 4);
    assert_eq!(ceil_sqrt(17), 5);
    assert_eq!(ceil_sqrt(44100), 210);
    assert_eq!(ceil_sqrt(44101), 211);
    assert_eq!(ceil_sqrt(u32::MAX as usize), 65536);
    for n in 0..2000usize {
        let s = ceil_sqrt(n);
        assert!(s * s >= n);
        assert!(s == 0 || (s - 1) * (s - 1) < n);
    }
}

#[test]
fn powers_of_two_are_rounded_up() {
    assert_eq!(next_power_of_two(0), 1);
    assert_eq!(next_power_of_two(1), 1);
    assert_eq!(next_power_of_two(2), 2);
    assert_eq!(next_power_of_two(3), 4);
    assert_eq!(next_power_of_two(5), 8);
    assert_eq!(next_power_of_two(8), 8);
    assert_eq!(next_power_of_two(1000), 1024);
    for n in 0..3000usize {
        assert_eq!(next_power_of_two(n), n.next_power_of_two());
    }
}

#[test]
fn samples_are_laid_out_row_by_row() {
    let samples = [1u8, 2, 3, 4, 5];
    let g = to_grid(&samples, 2, PadMode::BlockMultiple, 0);
    assert_eq!(
        g.into_rows(),
        vec![vec![1, 2, 3, 4], vec![5, 0, 0, 0], vec![0, 0, 0, 0], vec![0, 0, 0, 0]]
    );
    let g = to_grid(&samples, 5, PadMode::BlockMultiple, 9);
    assert_eq!((g.rows(), g.cols()), (5, 5));
    assert_eq!(g.get(0, 4), 5);
    assert_eq!(g.get(1, 0), 9);
    let g = to_grid(&samples, 7, PadMode::PowerOfTwo, 0);
    assert_eq!((g.rows(), g.cols()), (4, 4));
    let ten = [7u8; 10];
    let g = to_grid(&ten, 3, PadMode::BlockMultiple, 0);
    assert_eq!((g.rows(), g.cols()), (6, 6));
    let g = to_grid(&ten, 3, PadMode::PowerOfTwo, 0);
    assert_eq!((g.rows(), g.cols()), (4, 4));
    let none: [u8; 0] = [];
    let g = to_grid(&none, 8, PadMode::BlockMultiple, 0);
    assert_eq!((g.rows(), g.cols()), (0, 0));
    let g = to_grid(&none, 8, PadMode::PowerOfTwo, 3);
    assert_eq!(g.into_rows(), vec![vec![3]]);
}

#[test]
fn a_grid_is_read_back_to_the_original_length() {
    let samples: Vec<u16> = (0..37).collect();
    for mode in [PadMode::BlockMultiple, PadMode::PowerOfTwo] {
        let g = to_grid(&samples, 8, mode, 999);
        assert_eq!(g.rows(), 8);
        assert_eq!(from_grid(&g, samples.len(), 0), samples);
        assert_eq!(from_grid(&g, 3, 0), vec![0, 1, 2]);
        let longer = from_grid(&g, 66, 5);
        assert_eq!(&longer[..37], &samples[..]);
        assert_eq!(&longer[37..64], &[999u16; 27][..]);
        assert_eq!(&longer[64..], &[5, 5]);
    }
    let none = Grid::filled(3, 0, 1u16);
    assert_eq!(from_grid(&none, 2, 4), vec![4, 4]);
}

#[test]
fn a_stream_is_sized_for_its_algorithm() {
    let samples = vec![1i32; 100];
    let dct = AudioWatermarker::prepare_samples_for_watermarking(&samples, "DCT", 0).unwrap();
    assert_eq!(dct.len(), 256);
    assert_eq!(&dct[..100], &samples[..]);
    assert!(dct[100..].iter().all(|s| *s == 0));
    let dwt = AudioWatermarker::prepare_samples_for_watermarking(&samples, "DWT", 0).unwrap();
    assert_eq!(dwt.len(), 256);
    let long = vec![1i32; 2000];
    assert_eq!(AudioWatermarker::prepare_samples_for_watermarking(&long, "DCT", 0).unwrap().len(), 2304);
    assert_eq!(AudioWatermarker::prepare_samples_for_watermarking(&long, "DWT", 0).unwrap().len(), 4096);
    let none: Vec<i32> = Vec::new();
    assert!(AudioWatermarker::prepare_samples_for_watermarking(&none, "DCT", 0).unwrap().is_empty());
    assert_eq!(AudioWatermarker::prepare_samples_for_watermarking(&none, "DWT", 0).unwrap(), vec![0]);
    match AudioWatermarker::prepare_samples_for_watermarking(&samples, "FFT", 0) {
        Err(WatermarkError::UnsupportedFormat(text)) => assert_eq!(text, "未知算法"),
        _ => panic!("expected an unsupported format"),
    }
}

#[test]
fn a_file_is_sized_for_its_algorithm() {
    assert_eq!(AudioWatermarker::adjusted_len(100, "DCT").unwrap(), 256);
    assert_eq!(AudioWatermarker::adjusted_len(100, "DWT").unwrap(), 100);
    assert_eq!(AudioWatermarker::adjusted_len(101, "DWT").unwrap(), 144);
    assert_eq!(AudioWatermarker::adjusted_len(2000, "DCT").unwrap(), 2304);
    assert_eq!(AudioWatermarker::adjusted_len(2000, "DWT").unwrap(), 2116);
    assert_eq!(AudioWatermarker::adjusted_len(0, "DCT").unwrap(), 0);
    assert!(matches!(
        AudioWatermarker::adjusted_len(10, "none"),
        Err(WatermarkError::UnsupportedFormat(_))
    ));
}

#[test]
fn a_stream_becomes_a_square_grid_and_back() {
    let samples: Vec<i32> = (0..2304).collect();
    let g = AudioWatermarker::audio_to_array(&samples, "DCT", -1).unwrap();
    assert_eq!((g.rows(), g.cols()), (48, 48));
    assert_eq!(g.get(0, 47), 47);
    assert_eq!(g.get(1, 0), 48);
    assert_eq!(g.get(47, 47), 2303);
    let flat = AudioWatermarker::array_to_audio(&g);
    assert_eq!(flat, samples);
    let g = AudioWatermarker::audio_to_array(&samples, "DWT", -1).unwrap();
    assert_eq!((g.rows(), g.cols()), (64, 64));
    assert_eq!(g.get(0, 63), 63);
    assert_eq!(g.get(1, 0), 64);
    assert_eq!(g.get(36, 0), -1);
    let flat = AudioWatermarker::array_to_audio(&g);
    assert_eq!(flat.len(), 4096);
    assert_eq!(&flat[..2304], &samples[..]);
    assert!(flat[2304..].iter().all(|s| *s == -1));
    assert!(AudioWatermarker::array_to_audio(&Grid::filled(0, 4, 0i32)).is_empty());
}

#[test]
fn the_block_transform_takes_a_side_that_is_a_multiple_of_eight() {
    for (len, side) in [(1usize, 8usize), (64, 8), (65, 16), (576, 24), (577, 32), (1000, 32), (2000, 48)] {
        let samples = vec![7i32; len];
        let g = AudioWatermarker::audio_to_array(&samples, "DCT", 0).unwrap();
        assert_eq!((g.rows(), g.cols()), (side, side));
        for i in 0..side * side {
            let expected = if i < len { 7 } else { 0 };
            assert_eq!(g.get(i / side, i % side), expected);
        }
    }
    let none: Vec<i32> = Vec::new();
    let g = AudioWatermarker::audio_to_array(&none, "DCT", 0).unwrap();
    assert_eq!((g.rows(), g.cols()), (0, 0));
    match AudioWatermarker::audio_to_array(&none, "FFT", 0) {
        Err(WatermarkError::UnsupportedFormat(text)) => assert_eq!(text, "未知算法"),
        _ => panic!("expected an unsupported format"),
    }
}

#[test]
fn a_stream_of_576_samples_carries_nine_bits() {
    let samples: Vec<f64> = (0..576).map(|i| ((i * 37) % 200) as f64 / 100.0 - 1.0).collect();
    let bits = vec![1u8, 0, 0, 1, 1, 0, 1, 0, 1];
    let marked =
        AudioWatermarker::embed_in_samples(&samples, &bits, 0.0, |b, t, f| gentle(b, t, f, 0.005))
            .unwrap();
    assert_eq!(marked.len(), 576);
    assert_eq!(AudioWatermarker::extract_from_samples(&marked, 9, 0.0, sign).unwrap(), bits);
    let ten = vec![1u8; 10];
    assert!(
        AudioWatermarker::embed_in_samples(&samples, &ten, 0.0, |b, t, f| gentle(b, t, f, 0.005))
            .is_err()
    );
}

#[test]
fn fades_are_short_and_bounded() {
    assert_eq!(AudioWatermarker::light_fade_length(0), 16);
    assert_eq!(AudioWatermarker::light_fade_length(1000), 16);
    assert_eq!(AudioWatermarker::light_fade_length(50_000), 100);
    assert_eq!(AudioWatermarker::light_fade_length(1_000_000), 128);
    assert_eq!(AudioWatermarker::boundary_fade_length(100), 32);
    assert_eq!(AudioWatermarker::boundary_fade_length(44_100), 220);
    assert_eq!(AudioWatermarker::boundary_fade_length(1_000_000), 512);
    assert_eq!(AudioWatermarker::smooth_start_length(100), 64);
    assert_eq!(AudioWatermarker::smooth_start_length(44_100), 441);
    assert_eq!(AudioWatermarker::smooth_start_length(1_000_000), 2048);
}

#[test]
fn compression_windows_overlap_by_half() {
    assert_eq!((COMPRESSION_WINDOW, COMPRESSION_STEP), (1024, 512));
    assert!(AudioWatermarker::compression_windows(0).is_empty());
    assert_eq!(AudioWatermarker::compression_windows(100), vec![(0, 100)]);
    assert_eq!(AudioWatermarker::compression_windows(512), vec![(0, 512)]);
    assert_eq!(
        AudioWatermarker::compression_windows(1500),
        vec![(0, 1024), (512, 1500), (1024, 1500)]
    );
    assert_eq!(
        AudioWatermarker::compression_windows(2048),
        vec![(0, 1024), (512, 1536), (1024, 2048), (1536, 2048)]
    );
}

#[test]
fn a_payload_survives_in_a_stream() {
    let samples: Vec<f64> = (0..1000).map(|i| ((i * 37) % 200) as f64 / 100.0 - 1.0).collect();
    let bits = vec![1u8, 0, 0, 1, 1, 0, 1, 0, 1, 1, 1, 0, 0, 0, 1, 0];
    let marked =
        AudioWatermarker::embed_in_samples(&samples, &bits, 0.0, |b, t, f| gentle(b, t, f, 0.005))
            .unwrap();
    assert_eq!(marked.len(), 1024);
    let read = AudioWatermarker::extract_from_samples(&marked[..1000], 16, 0.0, sign).unwrap();
    assert_eq!(read, bits);
    let seventeen = vec![1u8; 17];
    match AudioWatermarker::embed_in_samples(&samples, &seventeen, 0.0, |b, t, f| gentle(b, t, f, 0.005)) {
        Err(WatermarkError::InvalidArgument(_)) => {}
        _ => panic!("expected an invalid argument"),
    }
    assert!(AudioWatermarker::extract_from_samples(&samples, 17, 0.0, sign).is_err());
}
