use seal::capacity::capacity;
use seal::error::WatermarkError;
use seal::grid::Grid;
use seal::watermark::dwt::DwtWatermark;
use std::cell::RefCell;

fn pair(a: f64, b: f64) -> (f64, f64) {
    let root = 2.0_f64.sqrt();
    ((a + b) / root, (a - b) / root)
}

fn unpair(low: f64, high: f64) -> (f64, f64) {
    let root = 2.0_f64.sqrt();
    (low / root + high / root, low / root - high / root)
}

fn adjust(coeff: f64, flag: bool, strength: f64) -> f64 {
    let magnitude = coeff.abs() + strength * coeff.abs();
    if flag {
        magnitude
    } else {
        -magnitude
    }
}

fn scale(coeff: f64, flag: bool, strength: f64) -> f64 {
    if flag {
        coeff + strength * coeff.abs()
    } else {
        coeff - strength * coeff.abs()
    }
}

fn sign(coeff: f64) -> bool {
    coeff >= 0.0
}

fn ramp(rows: usize, cols: usize) -> Grid<f64> {
    Grid::from_rows(
        (0..rows)
            .map(|r| (0..cols).map(|c| ((r * 31 + c * 17) % 101) as f64 / 100.0).collect())
            .collect(),
    )
    .unwrap()
}

fn close(a: &Vec<Vec<f64>>, b: &Vec<Vec<f64>>, tolerance: f64) -> bool {
    a.len() == b.len()
        && a.iter().zip(b).all(|(x, y)| {
            x.len() == y.len() && x.iter().zip(y).all(|(p, q)| (p - q).abs() < tolerance)
        })
}

#[test]
fn the_wavelet_codec_has_one_level_by_default() {
    let codec = DwtWatermark::new();
    assert_eq!(codec.levels(), 1);
    assert_eq!(codec.name(), "DWT");
    assert_eq!(DwtWatermark::new().with_levels(3).levels(), 3);
}

#[test]
fn powers_of_two_are_recognized() {
    for n in [1usize, 2, 4, 8, 1024, 1 << 20] {
        assert!(DwtWatermark::power_of_two(n));
    }
    for n in [0usize, 3, 5, 6, 12, 1000, usize::MAX] {
        assert!(!DwtWatermark::power_of_two(n));
    }
}

#[test]
fn positions_of_a_large_grid_are_three_windows() {
    let codec = DwtWatermark::new();
    let positions = codec.get_high_freq_positions(16, 16);
    assert_eq!(positions.len(), 48);
    assert_eq!(positions[0], (8, 8));
    assert_eq!(positions[1], (8, 9));
    assert_eq!(positions[4], (9, 8));
    assert_eq!(positions[15], (11, 11));
    assert_eq!(positions[16], (0, 8));
    assert_eq!(positions[31], (3, 11));
    assert_eq!(positions[32], (8, 0));
    assert_eq!(positions[47], (11, 3));
    for (r, c) in &positions {
        assert!(*r < 16 && *c < 16);
        assert!(*r >= 8 || *c >= 8);
    }
    for i in 0..positions.len() {
        for j in 0..i {
            assert!(positions[i] != positions[j]);
        }
    }
}

#[test]
fn positions_of_small_grids() {
    let codec = DwtWatermark::new();
    assert_eq!(codec.get_high_freq_positions(2, 2), vec![(1, 1), (0, 1), (1, 0)]);
    assert_eq!(codec.get_high_freq_positions(1, 1), vec![(0, 0)]);
    assert!(codec.get_high_freq_positions(0, 0).is_empty());
    assert_eq!(
        codec.get_high_freq_positions(4, 2),
        vec![(2, 1), (3, 1), (0, 1), (1, 1), (2, 0), (3, 0)]
    );
    assert_eq!(codec.get_high_freq_positions(4, 4).len(), 12);
    assert_eq!(codec.get_high_freq_positions(8, 8).len(), 48);
    assert_eq!(codec.get_high_freq_positions(1000, 3).len(), 4 * 2 + 4 * 2 + 4);
}

#[test]
fn sides_must_be_powers_of_two() {
    let codec = DwtWatermark::new();
    for (rows, cols) in [(12usize, 16usize), (16, 12), (3, 3)] {
        let grid = ramp(rows, cols);
        match codec.embed(&grid, &[1], pair, |c, f| adjust(c, f, 0.5), unpair) {
            Err(WatermarkError::InvalidArgument(text)) => assert_eq!(text, "DWT要求数据尺寸是2的幂"),
            _ => panic!("expected an invalid argument"),
        }
        match codec.extract(&grid, 1, pair, sign) {
            Err(WatermarkError::InvalidArgument(text)) => assert_eq!(text, "DWT要求数据尺寸是2的幂"),
            _ => panic!("expected an invalid argument"),
        }
    }
    let none = Grid::filled(0, 0, 0.0f64);
    assert!(codec.embed(&none, &[], pair, |c, f| adjust(c, f, 0.5), unpair).is_err());
    assert!(codec.extract(&none, 0, pair, sign).is_err());
}

#[test]
fn there_must_be_a_position_for_every_bit() {
    let codec = DwtWatermark::new();
    let grid = ramp(16, 16);
    let full = vec![1u8; 48];
    assert!(codec.embed(&grid, &full, pair, |c, f| adjust(c, f, 0.5), unpair).is_ok());
    let over = vec![1u8; 49];
    match codec.embed(&grid, &over, pair, |c, f| adjust(c, f, 0.5), unpair) {
        Err(WatermarkError::InvalidArgument(text)) => {
            assert_eq!(text, "水印数据太长，超过了可嵌入的位置数")
        }
        _ => panic!("expected an invalid argument"),
    }
    assert_eq!(codec.extract(&grid, 48, pair, sign).unwrap().len(), 48);
    match codec.extract(&grid, 49, pair, sign) {
        Err(WatermarkError::InvalidArgument(text)) => assert_eq!(text, "期望长度超过了可提取的位置数"),
        _ => panic!("expected an invalid argument"),
    }
}

#[test]
fn a_small_grid_is_decomposed_as_worked_by_hand() {
    let codec = DwtWatermark::new();
    let grid = Grid::from_rows(vec![vec![1.0f64, 2.0], vec![3.0, 4.0]]).unwrap();
    let coeffs = codec.embed(&grid, &[], pair, |c, f| adjust(c, f, 0.5), |a, b| (a, b)).unwrap();
    assert!(close(&coeffs.into_rows(), &vec![vec![5.0, -1.0], vec![-2.0, 0.0]], 1e-12));
    assert_eq!(codec.extract(&grid, 1, pair, sign).unwrap(), vec![1]);
    assert!(codec.extract(&grid, 0, pair, sign).unwrap().is_empty());
    assert!(matches!(codec.extract(&grid, 2, pair, sign), Err(WatermarkError::InvalidArgument(_))));
}

#[test]
fn the_wavelet_codec_takes_no_more_than_the_capacity() {
    let codec = DwtWatermark::new();
    for (rows, cols) in [(1usize, 1usize), (2, 2), (4, 4), (8, 8), (4, 8), (2, 8), (1, 8)] {
        let grid = ramp(rows, cols);
        let limit = capacity(cols, rows, "DWT").unwrap();
        assert!(limit <= codec.get_high_freq_positions(rows, cols).len());
        let fits = vec![1u8; limit];
        assert!(codec.embed(&grid, &fits, pair, |c, f| adjust(c, f, 0.5), unpair).is_ok());
        assert_eq!(codec.extract(&grid, limit, pair, sign).unwrap().len(), limit);
        let over = vec![1u8; limit + 1];
        match codec.embed(&grid, &over, pair, |c, f| adjust(c, f, 0.5), unpair) {
            Err(WatermarkError::InvalidArgument(text)) => {
                assert_eq!(text, "水印数据太长，超过了可嵌入的位置数")
            }
            _ => panic!("expected an invalid argument"),
        }
        match codec.extract(&grid, limit + 1, pair, sign) {
            Err(WatermarkError::InvalidArgument(text)) => {
                assert_eq!(text, "期望长度超过了可提取的位置数")
            }
            _ => panic!("expected an invalid argument"),
        }
    }
    let large = ramp(16, 16);
    assert_eq!(capacity(16, 16, "DWT").unwrap(), 64);
    for n in [49usize, 64, 65] {
        let bits = vec![1u8; n];
        assert!(matches!(
            codec.embed(&large, &bits, pair, |c, f| adjust(c, f, 0.5), unpair),
            Err(WatermarkError::InvalidArgument(_))
        ));
    }
}

#[test]
fn decomposition_and_reconstruction_undo_each_other() {
    for levels in 0..5usize {
        let codec = DwtWatermark::new().with_levels(levels);
        for (rows, cols) in [(16usize, 16usize), (8, 32), (1, 4), (2, 2), (1, 1)] {
            let grid = ramp(rows, cols);
            let back = codec.embed(&grid, &[], pair, |c, f| adjust(c, f, 0.5), unpair).unwrap();
            assert!(close(&grid.into_rows(), &back.into_rows(), 1e-9));
        }
    }
}

#[test]
fn a_kernel_that_changes_nothing_leaves_the_grid() {
    let codec = DwtWatermark::new().with_levels(2);
    let grid = ramp(16, 16);
    let bits = vec![1u8, 0, 1, 1, 0];
    let out = codec.embed(&grid, &bits, pair, |c, f| scale(c, f, 0.0), unpair).unwrap();
    assert!(close(&grid.into_rows(), &out.into_rows(), 1e-9));
}

#[test]
fn levels_recurse_into_the_low_quadrant_only() {
    let calls = RefCell::new(0usize);
    let counted = |a: f64, b: f64| {
        *calls.borrow_mut() += 1;
        pair(a, b)
    };
    let grid = ramp(8, 8);
    let one = DwtWatermark::new();
    one.extract(&grid, 0, &counted, sign).unwrap();
    assert_eq!(*calls.borrow(), 8 * 4 + 8 * 4);
    *calls.borrow_mut() = 0;
    let two = DwtWatermark::new().with_levels(2);
    two.extract(&grid, 0, &counted, sign).unwrap();
    assert_eq!(*calls.borrow(), 64 + 4 * 2 + 4 * 2);
    *calls.borrow_mut() = 0;
    let many = DwtWatermark::new().with_levels(10);
    many.extract(&grid, 0, &counted, sign).unwrap();
    assert_eq!(*calls.borrow(), 64 + 16 + 4);
}

#[test]
fn bits_are_written_to_the_positions_in_turn() {
    let codec = DwtWatermark::new();
    let side = 16usize;
    let grid = Grid::from_rows(
        (0..side)
            .map(|r| (0..side).map(|c| (r * 100 + c) as u32).collect())
            .collect::<Vec<Vec<u32>>>(),
    )
    .unwrap();
    let keep = |a: u32, b: u32| (a, b);
    let bits: Vec<u8> = (0..20).map(|k| [1u8, 0, 5, 1, 1][k % 5]).collect();
    let out = codec
        .embed(&grid, &bits, keep, |c: u32, f: bool| if f { c + 10_000 } else { c + 20_000 }, keep)
        .unwrap();
    let source = |i: usize| if i < side / 2 { 2 * i } else { 2 * (i - side / 2) + 1 };
    let mut marked: Vec<Vec<u32>> = (0..side)
        .map(|r| (0..side).map(|c| (source(r) * 100 + source(c)) as u32).collect())
        .collect();
    let positions = codec.get_high_freq_positions(side, side);
    assert_eq!(positions[15], (11, 11));
    assert_eq!(positions[16], (0, 8));
    assert_eq!(positions[19], (0, 11));
    for (k, bit) in bits.iter().enumerate() {
        let (r, c) = positions[k];
        marked[r][c] += if *bit == 1 { 10_000 } else { 20_000 };
    }
    let place = |i: usize| if i % 2 == 0 { i / 2 } else { side / 2 + i / 2 };
    let expected: Vec<Vec<u32>> =
        (0..side).map(|r| (0..side).map(|c| marked[place(r)][place(c)]).collect()).collect();
    let rows = out.into_rows();
    assert_eq!(rows, expected);
    let changed = rows
        .iter()
        .enumerate()
        .map(|(r, line)| line.iter().enumerate().filter(|(c, v)| **v != (r * 100 + c) as u32).count())
        .sum::<usize>();
    assert_eq!(changed, 20);
}

#[test]
fn a_forced_sign_is_read_back_and_a_scaled_one_is_not() {
    let codec = DwtWatermark::new();
    let grid = Grid::from_rows(vec![
        vec![1.0f64, 2.0, 4.0, 8.0],
        vec![3.0, 5.0, 9.0, 1.0],
        vec![7.0, 2.0, 6.0, 4.0],
        vec![5.0, 8.0, 3.0, 9.0],
    ])
    .unwrap();
    let before = codec.extract(&grid, 4, pair, sign).unwrap();
    assert_eq!(before, vec![1, 0, 1, 1]);
    for bits in [vec![1u8, 1, 1, 1], vec![0u8, 0, 0, 0], vec![0u8, 1, 0, 0]] {
        let marked = codec.embed(&grid, &bits, pair, |c, f| adjust(c, f, 0.5), unpair).unwrap();
        assert_eq!(codec.extract(&marked, 4, pair, sign).unwrap(), bits);
    }
    let scaled =
        codec.embed(&grid, &[0, 1, 0, 0], pair, |c, f| scale(c, f, 0.5), unpair).unwrap();
    assert_eq!(codec.extract(&scaled, 4, pair, sign).unwrap(), before);
}

#[test]
fn a_forced_sign_is_extracted_again_at_every_depth() {
    let force = |c: f64, f: bool| if f { c.abs().max(0.05) * 1.5 } else { -(c.abs().max(0.05) * 1.5) };
    for levels in 0..4usize {
        let codec = DwtWatermark::new().with_levels(levels);
        for (rows, cols) in [(8usize, 8usize), (16, 4), (2, 2), (32, 32)] {
            let grid = ramp(rows, cols);
            let room = codec
                .get_high_freq_positions(rows, cols)
                .len()
                .min(capacity(cols, rows, "DWT").unwrap());
            let bits: Vec<u8> = (0..room).map(|k| ((k * 5 + 1) % 3 == 0) as u8).collect();
            let marked = codec.embed(&grid, &bits, pair, force, unpair).unwrap();
            assert_eq!((marked.rows(), marked.cols()), (rows, cols));
            assert_eq!(codec.extract(&marked, room, pair, sign).unwrap(), bits);
        }
    }
}
