//! The three strategies behind one interface, and the profiler that times
//! repeated runs of one of them on fresh copies of a baseline buffer.
use vstd::prelude::*;
use crate::executor::{run_parallel_batches, run_parallel_tiles};
use crate::partition::{
    PartitionError, PixelRange, Tile, ceil_div, is_grid_partition, is_linear_partition,
    lemma_grid_partition_exact, lemma_linear_partition_exact, partition_grid, partition_linear,
    pixel_covered, point_covered, ranges_cover, tiles_cover,
};
use crate::transform::{lemma_pixel_span, run_sequential, transformed, transformed_byte};
use vstd::arithmetic::div_mod::lemma_fundamental_div_mod;

verus! {

/// Relies on std::time::Instant::now: reads the monotonic clock.
pub assume_specification[ std::time::Instant::now ]() -> std::time::Instant;

/// Relies on std::time::Instant::elapsed: the time passed since the instant.
pub assume_specification[ std::time::Instant::elapsed ](i: &std::time::Instant) -> std::time::Duration;

/// Relies on core::time::Duration::as_nanos: the whole nanoseconds of a duration.
pub assume_specification[ core::time::Duration::as_nanos ](d: &core::time::Duration) -> u128;

/// A monotonic clock reading.
#[verifier::external_type_specification]
#[verifier::external_body]
pub struct ExInstant(std::time::Instant);

/// How to sweep a buffer.
#[derive(Clone, Copy, Debug, PartialEq, Eq, Structural)]
pub enum Strategy {
    /// One pass over all pixels in linear order on the calling thread.
    Sequential,
    /// One parallel task per range of `unit_size` consecutive pixels.
    Batches { unit_size: usize },
    /// One parallel task per square tile of edge `tile_size`.
    Tiles { tile_size: usize },
}

/// A strategy with its work units computed for one image size.
pub enum Plan {
    Sequential,
    Batches(Vec<PixelRange>),
    Tiles(Vec<Tile>),
}

/// The strategy is refused because its unit or tile size is zero.
pub open spec fn strategy_refused(s: Strategy) -> bool {
    match s {
        Strategy::Sequential => false,
        Strategy::Batches { unit_size } => unit_size == 0,
        Strategy::Tiles { tile_size } => tile_size == 0,
    }
}

/// `plan` is the decomposition that `s` asks for on a `width` x `height` image.
pub open spec fn plan_of(plan: Plan, s: Strategy, width: int, height: int) -> bool {
    match (s, plan) {
        (Strategy::Sequential, Plan::Sequential) => true,
        (Strategy::Batches { unit_size }, Plan::Batches(units)) => is_linear_partition(
            units@,
            width * height,
            unit_size as int,
        ),
        (Strategy::Tiles { tile_size }, Plan::Tiles(tiles)) => is_grid_partition(
            tiles@,
            width,
            height,
            tile_size as int,
        ),
        _ => false,
    }
}

/// Every pixel of a `width` x `height` image lies in some unit of `plan`.
pub open spec fn plan_covers(plan: Plan, width: int, height: int) -> bool {
    match plan {
        Plan::Sequential => true,
        Plan::Batches(units) => ranges_cover(units@, width * height),
        Plan::Tiles(tiles) => tiles_cover(tiles@, width, height),
    }
}

proof fn lemma_linear_cover(units: Seq<PixelRange>, width: int, height: int, unit_size: int)
    requires
        width >= 0,
        height >= 0,
        unit_size >= 1,
        is_linear_partition(units, width * height, unit_size),
    ensures
        ranges_cover(units, width * height),
{
    if width >= 1 && height >= 1 {
        assert(width * height >= 1) by (nonlinear_arith)
            requires
                width >= 1,
                height >= 1,
        ;
        lemma_linear_partition_exact(units, width * height, unit_size);
    } else {
        assert(width * height == 0) by (nonlinear_arith)
            requires
                width == 0 || height == 0,
        ;
        assert(ceil_div(0, unit_size) == 0);
    }
}

proof fn lemma_grid_cover(tiles: Seq<Tile>, width: int, height: int, tile_size: int)
    requires
        width >= 0,
        height >= 0,
        tile_size >= 1,
        is_grid_partition(tiles, width, height, tile_size),
    ensures
        tiles_cover(tiles, width, height),
{
    if width >= 1 && height >= 1 {
        lemma_grid_partition_exact(tiles, width, height, tile_size);
    } else {
        if width == 0 {
            assert(ceil_div(width, tile_size) == 0);
        } else {
            assert(ceil_div(height, tile_size) == 0);
        }
        assert(ceil_div(width, tile_size) * ceil_div(height, tile_size) == 0) by (nonlinear_arith)
            requires
                ceil_div(width, tile_size) == 0 || ceil_div(height, tile_size) == 0,
        ;
    }
}

/// The bytes of `s` with exactly the pixels that some range of `units` holds
/// transformed.
pub open spec fn transformed_over_ranges(s: Seq<u8>, units: Seq<PixelRange>, nc: nat, inc: u8) -> Seq<u8> {
    Seq::new(
        s.len(),
        |b: int|
            if pixel_covered(units, b / (nc as int)) {
                transformed_byte(s, b, nc, inc)
            } else {
                s[b]
            },
    )
}

/// The bytes of `s`, an image `width` pixels wide, with exactly the pixels
/// that some tile of `tiles` holds transformed.
pub open spec fn transformed_over_tiles(
    s: Seq<u8>,
    tiles: Seq<Tile>,
    width: int,
    nc: nat,
    inc: u8,
) -> Seq<u8> {
    Seq::new(
        s.len(),
        |b: int|
            if point_covered(tiles, (b / (nc as int)) % width, (b / (nc as int)) / width) {
                transformed_byte(s, b, nc, inc)
            } else {
                s[b]
            },
    )
}

/// Whatever the increment and the unit and tile sizes, transforming the
/// pixels of each unit of the linear decomposition, or of each tile of the
/// grid decomposition, leaves the same bytes as the sequential sweep.
pub proof fn lemma_decompositions_agree(
    s: Seq<u8>,
    width: int,
    height: int,
    nc: nat,
    inc: u8,
    units: Seq<PixelRange>,
    unit_size: int,
    tiles: Seq<Tile>,
    tile_size: int,
)
    requires
        width >= 0,
        height >= 0,
        nc >= 1,
        s.len() == width * height * nc,
        unit_size >= 1,
        tile_size >= 1,
        is_linear_partition(units, width * height, unit_size),
        is_grid_partition(tiles, width, height, tile_size),
    ensures
        transformed_over_ranges(s, units, nc, inc) == transformed(s, nc, inc),
        transformed_over_tiles(s, tiles, width, nc, inc) == transformed(s, nc, inc),
{
    lemma_linear_cover(units, width, height, unit_size);
    lemma_grid_cover(tiles, width, height, tile_size);
    assert forall|b: int| 0 <= b < s.len() implies #[trigger] transformed_over_ranges(
        s,
        units,
        nc,
        inc,
    )[b] == transformed(s, nc, inc)[b] && transformed_over_tiles(s, tiles, width, nc, inc)[b]
        == transformed(s, nc, inc)[b] by {
        let p = b / (nc as int);
        lemma_pixel_span(b, nc as int, 0, width * height);
        assert(width >= 1) by (nonlinear_arith)
            requires
                p < width * height,
                p >= 0,
                height >= 0,
                width >= 0,
        ;
        lemma_fundamental_div_mod(p, width);
        assert(p / width < height) by (nonlinear_arith)
            requires
                p == width * (p / width) + p % width,
                0 <= p % width < width,
                p < width * height,
        ;
        assert(pixel_covered(units, p));
        assert(point_covered(tiles, p % width, p / width));
    }
    assert(transformed_over_ranges(s, units, nc, inc) =~= transformed(s, nc, inc));
    assert(transformed_over_tiles(s, tiles, width, nc, inc) =~= transformed(s, nc, inc));
}

/// Computes the work units of `strategy` for a `width` x `height` image.
pub fn make_plan(strategy: Strategy, width: usize, height: usize) -> (r: Result<Plan, PartitionError>)
    requires
        width * height <= usize::MAX,
    ensures
        r is Err <==> strategy_refused(strategy),
        r is Err ==> r->Err_0 == PartitionError::InvalidArgument,
        r is Ok ==> plan_of(r->Ok_0, strategy, width as int, height as int),
        r is Ok ==> plan_covers(r->Ok_0, width as int, height as int),
{
    match strategy {
        Strategy::Sequential => Ok(Plan::Sequential),
        Strategy::Batches { unit_size } => {
            let units = partition_linear(width * height, unit_size)?;
            proof {
                lemma_linear_cover(units@, width as int, height as int, unit_size as int);
            }
            Ok(Plan::Batches(units))
        },
        Strategy::Tiles { tile_size } => {
            let tiles = partition_grid(width, height, tile_size)?;
            proof {
                lemma_grid_cover(tiles@, width as int, height as int, tile_size as int);
            }
            Ok(Plan::Tiles(tiles))
        },
    }
}

/// Runs a computed plan over `buf` to completion.
pub fn execute(plan: &Plan, buf: &mut Vec<u8>, width: usize, height: usize, nc: usize, inc: u8)
    requires
        nc >= 1,
        old(buf)@.len() == width * height * nc,
        plan_covers(*plan, width as int, height as int),
    ensures
        final(buf)@ == transformed(old(buf)@, nc as nat, inc),
{
    match plan {
        Plan::Sequential => run_sequential(buf, width, height, nc, inc),
        Plan::Batches(units) => run_parallel_batches(buf, width, height, nc, inc, units),
        Plan::Tiles(tiles) => run_parallel_tiles(buf, width, height, nc, inc, tiles),
    }
}

/// Transforms every pixel of `buf` with `strategy`. A zero unit or tile size
/// is refused and leaves `buf` as it was; otherwise every strategy leaves the
/// same bytes.
pub fn run_strategy(
    strategy: Strategy,
    buf: &mut Vec<u8>,
    width: usize,
    height: usize,
    nc: usize,
    inc: u8,
) -> (r: Result<(), PartitionError>)
    requires
        nc >= 1,
        width * height <= usize::MAX,
        old(buf)@.len() == width * height * nc,
    ensures
        r is Err <==> strategy_refused(strategy),
        r is Err ==> r->Err_0 == PartitionError::InvalidArgument && final(buf)@ == old(buf)@,
        r is Ok ==> final(buf)@ == transformed(old(buf)@, nc as nat, inc),
{
    let plan = make_plan(strategy, width, height)?;
    execute(&plan, buf, width, height, nc, inc);
    Ok(())
}

/// The number of timed runs for `sample_count` samples: one fewer than asked.
pub open spec fn run_count(sample_count: u32) -> int {
    if sample_count >= 1 {
        sample_count - 1
    } else {
        0
    }
}

/// Whole nanoseconds, saturated at the largest `u64`.
pub fn nanos_u64(ns: u128) -> (r: u64)
    ensures
        r == if ns > u64::MAX as u128 {
            u64::MAX as int
        } else {
            ns as int
        },
{
    if ns > u64::MAX as u128 {
        u64::MAX
    } else {
        ns as u64
    }
}

/// Times `sample_count - 1` runs of `strategy`, each on a fresh copy of
/// `baseline`; the work units are computed once, before any timing. Returns
/// the elapsed nanoseconds of each run in order.
pub fn profile(
    strategy: Strategy,
    baseline: &Vec<u8>,
    width: usize,
    height: usize,
    nc: usize,
    inc: u8,
    sample_count: u32,
) -> (r: Result<Vec<u64>, PartitionError>)
    requires
        nc >= 1,
        width * height <= usize::MAX,
        baseline@.len() == width * height * nc,
    ensures
        r is Err <==> strategy_refused(strategy),
        r is Err ==> r->Err_0 == PartitionError::InvalidArgument,
        r is Ok ==> r->Ok_0@.len() == run_count(sample_count),
{
    let plan = make_plan(strategy, width, height)?;
    let mut samples: Vec<u64> = Vec::new();
    let mut i: u32 = 1;
    while i < sample_count
        invariant
            nc >= 1,
            baseline@.len() == width * height * nc,
            plan_covers(plan, width as int, height as int),
            1 <= i,
            i <= sample_count || i == 1,
            samples@.len() == i - 1,
        decreases sample_count - i,
    {
        let mut buf = baseline.clone();
        let start = std::time::Instant::now();
        execute(&plan, &mut buf, width, height, nc, inc);
        let elapsed = start.elapsed();
        samples.push(nanos_u64(elapsed.as_nanos()));
        i = i + 1;
    }
    Ok(samples)
}

} // verus!
