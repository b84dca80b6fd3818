use pixel_sweep::executor::{run_parallel_batches, run_parallel_tiles, transform_tile};
use pixel_sweep::partition::{partition_grid, partition_linear, PartitionError, PixelRange, Tile};
use pixel_sweep::strategy::{make_plan, nanos_u64, profile, run_strategy, Plan, Strategy};
use pixel_sweep::transform::{apply_pixel, run_sequential, saturating_add_byte, transform_segment};

fn sample_image(width: usize, height: usize) -> Vec<u8> {
    let mut buf = Vec::new();
    for i in 0..width * height * 4 {
        buf.push(((i * 37 + 11) % 256) as u8);
    }
    buf
}

fn expected_transform(buf: &[u8], inc: u8) -> Vec<u8> {
    buf.iter()
        .enumerate()
        .map(|(k, &v)| if k % 4 < 3 { v.saturating_add(inc) } else { v })
        .collect()
}

#[test]
fn saturation_clamps_at_255() {
    let mut pixel = [200u8, 100, 0, 7];
    apply_pixel(&mut pixel, 64);
    assert_eq!(pixel, [255, 164, 64, 7]);
    assert_eq!(saturating_add_byte(200, 64), 255);
    assert_eq!(saturating_add_byte(100, 64), 164);
    assert_eq!(saturating_add_byte(255, 0), 255);
}

#[test]
fn alpha_is_never_modified() {
    for inc in [0u8, 1, 64, 200, 255] {
        let orig = sample_image(5, 3);
        for strategy in [
            Strategy::Sequential,
            Strategy::Batches { unit_size: 4 },
            Strategy::Tiles { tile_size: 2 },
        ] {
            let mut buf = orig.clone();
            run_strategy(strategy, &mut buf, 5, 3, 4, inc).unwrap();
            for p in 0..15 {
                assert_eq!(buf[p * 4 + 3], orig[p * 4 + 3]);
            }
        }
    }
}

#[test]
fn two_pixels_end_to_end() {
    let input = vec![10u8, 20, 30, 40, 250, 250, 250, 250];
    let expected = vec![74u8, 84, 94, 40, 255, 255, 255, 250];

    let mut seq = input.clone();
    run_sequential(&mut seq, 2, 1, 4, 64);
    assert_eq!(seq, expected);

    let units = partition_linear(2, 1).unwrap();
    let mut batch = input.clone();
    run_parallel_batches(&mut batch, 2, 1, 4, 64, &units);
    assert_eq!(batch, expected);

    let tiles = partition_grid(2, 1, 1).unwrap();
    let mut block = input.clone();
    run_parallel_tiles(&mut block, 2, 1, 4, 64, &tiles);
    assert_eq!(block, expected);
}

#[test]
fn strategies_agree_for_any_decomposition() {
    let (width, height) = (7usize, 5usize);
    let orig = sample_image(width, height);
    for inc in [0u8, 3, 64, 255] {
        let want = expected_transform(&orig, inc);
        let mut seq = orig.clone();
        run_strategy(Strategy::Sequential, &mut seq, width, height, 4, inc).unwrap();
        assert_eq!(seq, want);
        for size in [1usize, 2, 3, 4, 6, 7, 8, 35, 36, 100] {
            let mut batch = orig.clone();
            run_strategy(Strategy::Batches { unit_size: size }, &mut batch, width, height, 4, inc).unwrap();
            assert_eq!(batch, want);
            let mut block = orig.clone();
            run_strategy(Strategy::Tiles { tile_size: size }, &mut block, width, height, 4, inc).unwrap();
            assert_eq!(block, want);
        }
    }
}

#[test]
fn parallel_overwrites_first_byte() {
    let input = vec![1u8, 2, 3, 4, 5, 6, 7, 8];
    let mut batch = input.clone();
    run_strategy(Strategy::Batches { unit_size: 1 }, &mut batch, 2, 1, 4, 10).unwrap();
    assert_eq!(batch, vec![11, 12, 13, 4, 15, 16, 17, 8]);
    let mut block = input.clone();
    run_strategy(Strategy::Tiles { tile_size: 1 }, &mut block, 1, 2, 4, 10).unwrap();
    assert_eq!(block, vec![11, 12, 13, 4, 15, 16, 17, 8]);
}

#[test]
fn linear_partition_is_contiguous() {
    let units = partition_linear(10, 4).unwrap();
    assert_eq!(
        units,
        vec![
            PixelRange { start: 0, end: 4 },
            PixelRange { start: 4, end: 8 },
            PixelRange { start: 8, end: 10 },
        ]
    );
    for (total, size) in [(1usize, 1usize), (1, 5), (12, 4), (13, 4), (4096, 64), (100, 7)] {
        let units = partition_linear(total, size).unwrap();
        assert_eq!(units.len(), (total + size - 1) / size);
        assert_eq!(units[0].start, 0);
        assert_eq!(units[units.len() - 1].end, total);
        for w in units.windows(2) {
            assert_eq!(w[0].end, w[1].start);
        }
        for u in &units {
            assert!(u.start < u.end && u.end - u.start <= size);
        }
    }
}

#[test]
fn grid_partition_tiles_image_once() {
    let tiles = partition_grid(5, 3, 2).unwrap();
    assert_eq!(
        tiles,
        vec![
            Tile { x0: 0, x1: 2, y0: 0, y1: 2 },
            Tile { x0: 2, x1: 4, y0: 0, y1: 2 },
            Tile { x0: 4, x1: 5, y0: 0, y1: 2 },
            Tile { x0: 0, x1: 2, y0: 2, y1: 3 },
            Tile { x0: 2, x1: 4, y0: 2, y1: 3 },
            Tile { x0: 4, x1: 5, y0: 2, y1: 3 },
        ]
    );
    for (w, h, t) in [(1usize, 1usize, 1usize), (7, 5, 3), (64, 64, 64), (65, 3, 64), (10, 10, 1)] {
        let tiles = partition_grid(w, h, t).unwrap();
        assert_eq!(tiles.len(), ((w + t - 1) / t) * ((h + t - 1) / t));
        let mut hits = vec![0u32; w * h];
        for b in &tiles {
            for y in b.y0..b.y1 {
                for x in b.x0..b.x1 {
                    hits[y * w + x] += 1;
                }
            }
        }
        assert!(hits.iter().all(|&c| c == 1));
    }
}

#[test]
fn zero_sizes_are_refused() {
    assert_eq!(partition_linear(10, 0), Err(PartitionError::InvalidArgument));
    assert_eq!(partition_grid(10, 10, 0), Err(PartitionError::InvalidArgument));
    let orig = sample_image(2, 2);
    let mut buf = orig.clone();
    assert_eq!(
        run_strategy(Strategy::Batches { unit_size: 0 }, &mut buf, 2, 2, 4, 64),
        Err(PartitionError::InvalidArgument)
    );
    assert_eq!(
        run_strategy(Strategy::Tiles { tile_size: 0 }, &mut buf, 2, 2, 4, 64),
        Err(PartitionError::InvalidArgument)
    );
    assert_eq!(buf, orig);
    assert!(make_plan(Strategy::Tiles { tile_size: 0 }, 2, 2).is_err());
    assert!(profile(Strategy::Batches { unit_size: 0 }, &orig, 2, 2, 4, 64, 3).is_err());
}

#[test]
fn empty_image_gives_no_units() {
    assert!(partition_linear(0, 4).unwrap().is_empty());
    assert!(partition_grid(0, 5, 2).unwrap().is_empty());
    let mut buf: Vec<u8> = Vec::new();
    run_strategy(Strategy::Tiles { tile_size: 3 }, &mut buf, 0, 5, 4, 64).unwrap();
    assert!(buf.is_empty());
}

#[test]
fn plan_matches_strategy() {
    match make_plan(Strategy::Batches { unit_size: 3 }, 2, 4).unwrap() {
        Plan::Batches(units) => assert_eq!(units.len(), 3),
        _ => panic!("expected batches"),
    }
    match make_plan(Strategy::Tiles { tile_size: 3 }, 4, 4).unwrap() {
        Plan::Tiles(tiles) => assert_eq!(tiles.len(), 4),
        _ => panic!("expected tiles"),
    }
    assert!(matches!(make_plan(Strategy::Sequential, 4, 4).unwrap(), Plan::Sequential));
}

#[test]
fn segment_and_tile_outputs() {
    let buf = vec![10u8, 20, 30, 40, 50, 60, 70, 80, 250, 251, 252, 253, 1, 2, 3, 4];
    assert_eq!(transform_segment(&buf, 1, 3, 4, 5), vec![55, 65, 75, 80, 255, 255, 255, 253]);
    let rows = transform_tile(&buf, Tile { x0: 1, x1: 2, y0: 0, y1: 2 }, 2, 2, 4, 5);
    assert_eq!(rows, vec![vec![55, 65, 75, 80], vec![6, 7, 8, 4]]);
}

#[test]
fn profile_times_one_fewer_run_than_samples() {
    let buf = sample_image(8, 8);
    assert_eq!(profile(Strategy::Sequential, &buf, 8, 8, 4, 64, 5).unwrap().len(), 4);
    assert_eq!(profile(Strategy::Batches { unit_size: 16 }, &buf, 8, 8, 4, 64, 3).unwrap().len(), 2);
    assert_eq!(profile(Strategy::Tiles { tile_size: 4 }, &buf, 8, 8, 4, 64, 1).unwrap().len(), 0);
    assert_eq!(profile(Strategy::Tiles { tile_size: 4 }, &buf, 8, 8, 4, 64, 0).unwrap().len(), 0);
}

#[test]
fn nanos_saturate_at_u64_max() {
    assert_eq!(nanos_u64(1234), 1234);
    assert_eq!(nanos_u64(u64::MAX as u128), u64::MAX);
    assert_eq!(nanos_u64(u64::MAX as u128 + 1), u64::MAX);
}
