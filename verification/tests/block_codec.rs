use rustdct::DctPlanner;
use seal::capacity::capacity;
use seal::cli::Algorithm;
use seal::error::WatermarkError;
use seal::grid::Grid;
use seal::watermark::dct::{DctWatermark, DEFAULT_BLOCK_SIZE, TABLE_LEN};
use seal::watermark::WatermarkFactory;
use std::cell::RefCell;

fn forward(block: &Grid<f64>) -> Vec<Vec<f64>> {
    let rows = block.rows();
    let cols = block.cols();
    let mut planner = DctPlanner::<f64>::new();
    let along_rows = planner.plan_dct2(cols);
    let along_cols = planner.plan_dct2(rows);
    let mut data = block.duplicate().into_rows();
    for row in data.iter_mut() {
        along_rows.process_dct2(row);
    }
    for c in 0..cols {
        let mut column: Vec<f64> = (0..rows).map(|r| data[r][c]).collect();
        along_cols.process_dct2(&mut column);
        for r in 0..rows {
            data[r][c] = column[r];
        }
    }
    data
}

fn backward(mut data: Vec<Vec<f64>>) -> Grid<f64> {
    let rows = data.len();
    let cols = data[0].len();
    let mut planner = DctPlanner::<f64>::new();
    let along_cols = planner.plan_dct3(rows);
    let along_rows = planner.plan_dct3(cols);
    for c in 0..cols {
        let mut column: Vec<f64> = (0..rows).map(|r| data[r][c]).collect();
        along_cols.process_dct3(&mut column);
        for r in 0..rows {
            data[r][c] = column[r];
        }
    }
    let scale = (rows as f64 / 2.0) * (cols as f64 / 2.0);
    for row in data.iter_mut() {
        along_rows.process_dct3(row);
        for v in row.iter_mut() {
            *v /= scale;
        }
    }
    Grid::from_rows(data).unwrap()
}

fn mark(block: Grid<f64>, target: Option<(usize, usize)>, flag: bool, strength: f64) -> Grid<f64> {
    let mut coeffs = forward(&block);
    if let Some((u, v)) = target {
        let coeff = coeffs[u][v];
        let magnitude = coeff.abs().max(1.0) * (1.0 + strength);
        coeffs[u][v] = if flag { magnitude } else { -magnitude };
    }
    backward(coeffs)
}

fn sign(block: Grid<f64>, u: usize, v: usize) -> bool {
    forward(&block)[u][v] >= 0.0
}

fn ramp(rows: usize, cols: usize) -> Grid<f64> {
    let lines: Vec<Vec<f64>> = (0..rows)
        .map(|r| (0..cols).map(|c| ((r * 31 + c * 17) % 101) as f64 / 100.0).collect())
        .collect();
    if rows == 0 {
        Grid::filled(0, cols, 0.0)
    } else {
        Grid::from_rows(lines).unwrap()
    }
}

fn numbered(rows: usize, cols: usize) -> Grid<u32> {
    Grid::from_rows((0..rows).map(|r| (0..cols).map(|c| (r * 100 + c) as u32).collect()).collect())
        .unwrap()
}

#[test]
fn grids_are_built_and_read() {
    let g = numbered(2, 3);
    assert_eq!(g.rows(), 2);
    assert_eq!(g.cols(), 3);
    assert_eq!(g.get(1, 2), 102);
    assert_eq!(g.duplicate().into_rows(), vec![vec![0, 1, 2], vec![100, 101, 102]]);
    let changed = g.replaced(0, 1, 9);
    assert_eq!(changed.into_rows(), vec![vec![0, 9, 2], vec![100, 101, 102]]);
    assert!(Grid::from_rows(vec![vec![1u8, 2], vec![3]]).is_none());
    let empty = Grid::<u8>::from_rows(Vec::new()).unwrap();
    assert_eq!((empty.rows(), empty.cols()), (0, 0));
    let flat = Grid::filled(2, 2, 7u8);
    assert_eq!(flat.into_rows(), vec![vec![7, 7], vec![7, 7]]);
    let wide = Grid::filled(0, 5, 7u8);
    assert_eq!((wide.rows(), wide.cols()), (0, 5));
}

#[test]
fn padding_mirrors_the_edges() {
    let codec = DctWatermark::new().with_block_size(4);
    let padded = codec.pad_to_block_size(&numbered(3, 5));
    assert_eq!(padded.rows(), 4);
    assert_eq!(padded.cols(), 8);
    assert_eq!(
        padded.into_rows(),
        vec![
            vec![0, 1, 2, 3, 4, 4, 3, 2],
            vec![100, 101, 102, 103, 104, 104, 103, 102],
            vec![200, 201, 202, 203, 204, 204, 203, 202],
            vec![200, 201, 202, 203, 204, 204, 203, 202],
        ]
    );
}

#[test]
fn padding_far_past_a_short_edge_stays_at_the_first_sample() {
    let codec = DctWatermark::new();
    let padded = codec.pad_to_block_size(&numbered(1, 3));
    assert_eq!((padded.rows(), padded.cols()), (8, 8));
    let rows = padded.into_rows();
    assert_eq!(rows[0], vec![0, 1, 2, 2, 1, 0, 0, 0]);
    for r in 1..8 {
        assert_eq!(rows[r], rows[0]);
    }
}

#[test]
fn padding_yields_sides_divisible_by_the_block_size() {
    for bs in 1..6usize {
        for rows in 1..8usize {
            for cols in 1..8usize {
                let codec = DctWatermark::new().with_block_size(bs);
                let padded = codec.pad_to_block_size(&numbered(rows, cols));
                assert_eq!(padded.rows() % bs, 0);
                assert_eq!(padded.cols() % bs, 0);
                assert!(padded.rows() >= rows && padded.rows() < rows + bs);
                assert!(padded.cols() >= cols && padded.cols() < cols + bs);
            }
        }
    }
}

#[test]
fn an_aligned_grid_is_padded_to_itself() {
    let codec = DctWatermark::new();
    let grid = numbered(8, 16);
    let padded = codec.pad_to_block_size(&grid);
    assert_eq!(padded.into_rows(), grid.into_rows());
    let none = Grid::filled(0, 0, 0u32);
    let padded = codec.pad_to_block_size(&none);
    assert_eq!((padded.rows(), padded.cols()), (0, 0));
}

#[test]
fn unpadding_cuts_back() {
    let codec = DctWatermark::new().with_block_size(4);
    let grid = numbered(3, 5);
    let padded = codec.pad_to_block_size(&grid);
    let back = codec.unpad_from_block_size(&padded, 3, 5);
    assert_eq!(back.into_rows(), grid.into_rows());
}

#[test]
fn the_table_holds_twenty_mid_frequency_positions() {
    let codec = DctWatermark::new();
    assert_eq!(codec.block_size(), DEFAULT_BLOCK_SIZE);
    assert_eq!(codec.name(), "DCT");
    let table = codec.get_mid_frequency_positions();
    assert_eq!(table.len(), TABLE_LEN);
    assert_eq!(table[0], (2, 1));
    assert_eq!(table[19], (1, 6));
    for (u, v) in &table {
        assert!((*u, *v) != (0, 0));
        assert!(*u >= 1 && *u <= 6 && *v >= 1 && *v <= 6);
    }
    for i in 0..table.len() {
        for j in 0..i {
            assert!(table[i] != table[j]);
        }
    }
}

#[test]
fn the_codec_counts_its_blocks() {
    let codec = DctWatermark::new();
    assert_eq!(codec.capacity(16, 16), 4);
    assert_eq!(codec.capacity(17, 9), 6);
    assert_eq!(codec.capacity(0, 9), 0);
    let small = DctWatermark::new().with_block_size(3);
    assert_eq!(small.capacity(10, 4), 8);
}

#[test]
fn the_factory_gives_the_default_codec() {
    let codec = WatermarkFactory::create_algorithm(Algorithm::Dct);
    assert_eq!(codec.block_size(), 8);
    assert_eq!(DctWatermark::new().with_block_size(4).block_size(), 4);
}

#[test]
fn embedded_bits_are_extracted_again() {
    let codec = DctWatermark::new();
    let grid = ramp(16, 24);
    let bits = vec![1u8, 0, 1, 1, 0, 0];
    let marked = codec.embed(&grid, &bits, |b, t, f| mark(b, t, f, 0.1)).unwrap();
    assert_eq!((marked.rows(), marked.cols()), (16, 24));
    let read = codec.extract(&marked, bits.len(), sign).unwrap();
    assert_eq!(read, bits);
    let opposite: Vec<u8> = bits.iter().map(|b| 1 - b).collect();
    let marked = codec.embed(&grid, &opposite, |b, t, f| mark(b, t, f, 0.1)).unwrap();
    assert_eq!(codec.extract(&marked, bits.len(), sign).unwrap(), opposite);
}

#[test]
fn a_full_payload_is_extracted_again() {
    let codec = DctWatermark::new();
    let grid = ramp(48, 64);
    let bits: Vec<u8> = (0..48).map(|k| ((k * 7 + 3) % 5 < 2) as u8).collect();
    let marked = codec.embed(&grid, &bits, |b, t, f| mark(b, t, f, 0.2)).unwrap();
    assert_eq!(codec.extract(&marked, 48, sign).unwrap(), bits);
    assert_eq!(codec.extract_audio_optimized(&marked, 48, sign).unwrap(), bits);
}

#[test]
fn the_transform_pair_round_trips_unmarked_blocks() {
    let codec = DctWatermark::new();
    let grid = ramp(16, 16);
    let same = codec.embed(&grid, &[1, 0, 1, 0], |b, _t, _f| backward(forward(&b))).unwrap();
    let before = grid.into_rows();
    let after = same.into_rows();
    for r in 0..16 {
        for c in 0..16 {
            assert!((before[r][c] - after[r][c]).abs() < 1e-9);
        }
    }
}

#[test]
fn the_transform_pair_round_trips_blocks_of_other_sizes() {
    for bs in [2usize, 4, 16] {
        let codec = DctWatermark::new().with_block_size(bs);
        let grid = ramp(2 * bs, 3 * bs);
        let same = codec.embed(&grid, &[1, 0, 1], |b, _t, _f| backward(forward(&b))).unwrap();
        let before = grid.into_rows();
        let after = same.into_rows();
        for r in 0..2 * bs {
            for c in 0..3 * bs {
                assert!((before[r][c] - after[r][c]).abs() < 1e-9);
            }
        }
    }
}

#[test]
fn a_payload_as_long_as_the_capacity_fits_and_one_more_bit_does_not() {
    let codec = DctWatermark::new();
    for (rows, cols) in [(16usize, 16usize), (10, 10), (8, 24), (1, 1), (17, 9)] {
        let grid = ramp(rows, cols);
        let limit = capacity(cols, rows, "DCT").unwrap();
        let fits = vec![1u8; limit];
        assert!(codec.embed(&grid, &fits, |b, t, f| mark(b, t, f, 0.1)).is_ok());
        let over = vec![1u8; limit + 1];
        match codec.embed(&grid, &over, |b, t, f| mark(b, t, f, 0.1)) {
            Err(WatermarkError::InvalidArgument(_)) => {}
            _ => panic!("expected an invalid argument"),
        }
        assert!(codec.extract(&grid, limit, sign).is_ok());
        assert!(matches!(
            codec.extract(&grid, limit + 1, sign),
            Err(WatermarkError::InvalidArgument(_))
        ));
    }
}

#[test]
fn the_errors_name_the_numbers() {
    let codec = DctWatermark::new();
    let grid = ramp(16, 16);
    match codec.embed(&grid, &[1, 0, 1, 0, 1], |b, t, f| mark(b, t, f, 0.1)) {
        Err(WatermarkError::InvalidArgument(text)) => assert_eq!(
            text,
            "水印数据太长，超过了可嵌入的块数。最大可嵌入4比特，实际需要5比特"
        ),
        _ => panic!("expected an invalid argument"),
    }
    match codec.extract(&grid, 5, sign) {
        Err(WatermarkError::InvalidArgument(text)) => {
            assert_eq!(text, "期望长度5超过了可提取的块数4")
        }
        _ => panic!("expected an invalid argument"),
    }
}

#[test]
fn an_empty_grid_takes_only_the_empty_payload() {
    let codec = DctWatermark::new();
    let grid = Grid::filled(0, 0, 0.0f64);
    let out = codec.embed(&grid, &[], |b, t, f| mark(b, t, f, 0.1)).unwrap();
    assert_eq!((out.rows(), out.cols()), (0, 0));
    assert!(codec.embed(&grid, &[1], |b, t, f| mark(b, t, f, 0.1)).is_err());
    assert!(codec.extract(&grid, 0, sign).unwrap().is_empty());
}

#[test]
fn blocks_are_visited_row_by_row_with_the_table_in_turn() {
    let codec = DctWatermark::new().with_block_size(2);
    let grid = numbered(4, 6);
    let seen: RefCell<Vec<(u32, Option<(usize, usize)>, bool)>> = RefCell::new(Vec::new());
    let bits = vec![1u8, 0, 2, 1];
    let out = codec
        .embed(&grid, &bits, |b: Grid<u32>, t, f| {
            seen.borrow_mut().push((b.get(0, 0), t, f));
            let top = b.get(0, 0);
            Grid::filled(2, 2, top + 1000)
        })
        .unwrap();
    assert_eq!(
        *seen.borrow(),
        vec![(0, None, true), (2, None, false), (4, None, false), (200, None, true)]
    );
    assert_eq!(
        out.into_rows(),
        vec![
            vec![1000, 1000, 1002, 1002, 1004, 1004],
            vec![1000, 1000, 1002, 1002, 1004, 1004],
            vec![1200, 1200, 202, 203, 204, 205],
            vec![1200, 1200, 302, 303, 304, 305],
        ]
    );
}

#[test]
fn targets_follow_the_table_and_padding_is_cut_off() {
    let codec = DctWatermark::new();
    let grid = numbered(9, 10);
    let seen: RefCell<Vec<(Vec<Vec<u32>>, Option<(usize, usize)>)>> = RefCell::new(Vec::new());
    let bits = vec![1u8, 1, 1];
    let out = codec
        .embed_audio_optimized(&grid, &bits, |b: Grid<u32>, t, _f| {
            seen.borrow_mut().push((b.duplicate().into_rows(), t));
            Grid::filled(8, 8, 7)
        })
        .unwrap();
    let seen = seen.into_inner();
    assert_eq!(seen.len(), 3);
    assert_eq!(seen[0].1, Some((2, 1)));
    assert_eq!(seen[1].1, Some((1, 2)));
    assert_eq!(seen[2].1, Some((3, 1)));
    assert_eq!(seen[1].0[0], vec![8, 9, 9, 8, 7, 6, 5, 4]);
    assert_eq!(seen[2].0[0], vec![800, 801, 802, 803, 804, 805, 806, 807]);
    assert_eq!(seen[2].0[1], seen[2].0[0]);
    assert_eq!(seen[2].0[2], vec![700, 701, 702, 703, 704, 705, 706, 707]);
    let rows = out.into_rows();
    assert_eq!((rows.len(), rows[0].len()), (9, 10));
    assert_eq!(rows[0], vec![7; 10]);
    assert_eq!(rows[8], vec![7, 7, 7, 7, 7, 7, 7, 7, 808, 809]);
}

#[test]
fn reading_stops_where_the_table_does_not_fit_the_block() {
    let tiny = DctWatermark::new().with_block_size(2);
    let grid = ramp(8, 8);
    assert!(tiny.extract(&grid, 3, |_b, _u, _v| true).unwrap().is_empty());
    let small = DctWatermark::new().with_block_size(4);
    let read = small.extract(&grid, 4, |_b, _u, _v| true).unwrap();
    assert_eq!(read, vec![1, 1, 1, 1]);
    let grid = ramp(16, 16);
    let read = small.extract(&grid, 16, |_b, _u, _v| false).unwrap();
    assert_eq!(read, vec![0, 0, 0, 0, 0]);
}

#[test]
fn extraction_reads_what_the_kernel_reports() {
    let codec = DctWatermark::new();
    let grid = numbered(16, 16);
    let read = codec.extract(&grid, 4, |b: Grid<u32>, u, v| (b.get(0, 0) + (u + v) as u32) % 2 == 1).unwrap();
    assert_eq!(read, vec![1, 1, 0, 0]);
}
