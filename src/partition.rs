//! Decomposition of an image's pixel space into independent work units:
//! contiguous ranges of linear pixel indices (batches), or rectangles clipped
//! to the image (tiles) in row-major tile order.
use vstd::prelude::*;
use vstd::arithmetic::div_mod::{lemma_fundamental_div_mod, lemma_fundamental_div_mod_converse};

verus! {

/// A half-open range `[start, end)` of linear pixel indices.
#[derive(Clone, Copy, Debug, PartialEq, Eq, Structural)]
pub struct PixelRange {
    pub start: usize,
    pub end: usize,
}

/// A rectangle `[x0, x1) x [y0, y1)` of pixel coordinates.
#[derive(Clone, Copy, Debug, PartialEq, Eq, Structural)]
pub struct Tile {
    pub x0: usize,
    pub x1: usize,
    pub y0: usize,
    pub y1: usize,
}

/// Why a decomposition was refused.
#[derive(Clone, Copy, Debug, PartialEq, Eq, Structural)]
pub enum PartitionError {
    /// The unit or tile size was zero.
    InvalidArgument,
}

pub open spec fn min(a: int, b: int) -> int {
    if a <= b {
        a
    } else {
        b
    }
}

/// `a / b` rounded up.
pub open spec fn ceil_div(a: int, b: int) -> int {
    if a % b == 0 {
        a / b
    } else {
        a / b + 1
    }
}

pub open spec fn range_contains(r: PixelRange, p: int) -> bool {
    r.start <= p < r.end
}

pub open spec fn tile_contains(t: Tile, x: int, y: int) -> bool {
    t.x0 <= x < t.x1 && t.y0 <= y < t.y1
}

/// `units` is the decomposition of `[0, total)` into ranges of `size` pixels,
/// the last one possibly shorter.
pub open spec fn is_linear_partition(units: Seq<PixelRange>, total: int, size: int) -> bool {
    &&& units.len() == ceil_div(total, size)
    &&& forall|i: int|
        0 <= i < units.len() ==> (#[trigger] units[i]).start == i * size && units[i].end == min(
            (i + 1) * size,
            total,
        )
}

/// `tiles` is the decomposition of a `width` x `height` image into squares of
/// edge `size`, clipped to the image, in row-major tile order.
pub open spec fn is_grid_partition(tiles: Seq<Tile>, width: int, height: int, size: int) -> bool {
    let cols = ceil_div(width, size);
    &&& tiles.len() == cols * ceil_div(height, size)
    &&& forall|i: int|
        0 <= i < tiles.len() ==> {
            let t = #[trigger] tiles[i];
            &&& t.x0 == (i % cols) * size
            &&& t.x1 == min(t.x0 + size, width)
            &&& t.y0 == (i / cols) * size
            &&& t.y1 == min(t.y0 + size, height)
        }
}

pub open spec fn pixel_covered(units: Seq<PixelRange>, p: int) -> bool {
    exists|i: int| 0 <= i < units.len() && range_contains(units[i], p)
}

pub open spec fn point_covered(tiles: Seq<Tile>, x: int, y: int) -> bool {
    exists|i: int| 0 <= i < tiles.len() && tile_contains(tiles[i], x, y)
}

/// Every range lies in `[0, total)` and every pixel of it lies in some range.
pub open spec fn ranges_cover(units: Seq<PixelRange>, total: int) -> bool {
    &&& forall|i: int| 0 <= i < units.len() ==> (#[trigger] units[i]).start <= units[i].end <= total
    &&& forall|p: int| 0 <= p < total ==> #[trigger] pixel_covered(units, p)
}

/// Every tile lies in the image and every pixel of the image lies in some tile.
pub open spec fn tiles_cover(tiles: Seq<Tile>, width: int, height: int) -> bool {
    &&& forall|i: int|
        0 <= i < tiles.len() ==> (#[trigger] tiles[i]).x0 <= tiles[i].x1 <= width && tiles[i].y0
            <= tiles[i].y1 <= height
    &&& forall|x: int, y: int|
        0 <= x < width && 0 <= y < height ==> #[trigger] point_covered(tiles, x, y)
}

proof fn lemma_below_ceil(a: int, b: int, i: int)
    requires
        a >= 0,
        b > 0,
        0 <= i < ceil_div(a, b),
    ensures
        i * b < a,
        i * b + b <= a + b - 1,
{
    lemma_fundamental_div_mod(a, b);
    let q = a / b;
    let r = a % b;
    assert(i * b < a && i * b + b <= a + b - 1) by (nonlinear_arith)
        requires
            a == b * q + r,
            0 <= r < b,
            0 <= i,
            (r == 0 && i < q) || (r != 0 && i <= q),
            b > 0,
    ;
}

proof fn lemma_ceil_fits(a: int, b: int)
    requires
        a >= 0,
        b > 0,
    ensures
        a % b != 0 ==> a / b + 1 <= a,
{
    lemma_fundamental_div_mod(a, b);
    let q = a / b;
    let r = a % b;
    assert(r != 0 ==> q + 1 <= a) by (nonlinear_arith)
        requires
            a == b * q + r,
            0 <= r < b,
            q >= 0,
    ;
}

/// The pixel `p` lies in unit `p / b`.
proof fn lemma_unit_of(a: int, b: int, p: int)
    requires
        b > 0,
        0 <= p < a,
    ensures
        0 <= p / b < ceil_div(a, b),
        (p / b) * b <= p < (p / b) * b + b,
{
    lemma_fundamental_div_mod(a, b);
    lemma_fundamental_div_mod(p, b);
    let q = a / b;
    let r = a % b;
    let pq = p / b;
    let pr = p % b;
    assert(0 <= pq < ceil_div(a, b)) by (nonlinear_arith)
        requires
            a == b * q + r,
            0 <= r < b,
            p == b * pq + pr,
            0 <= pr < b,
            0 <= p < a,
            b > 0,
            ceil_div(a, b) == if r == 0 {
                q
            } else {
                q + 1
            },
    ;
    assert(pq * b <= p < pq * b + b) by (nonlinear_arith)
        requires
            p == b * pq + pr,
            0 <= pr < b,
    ;
}

proof fn lemma_ceil_covers(a: int, b: int)
    requires
        a >= 0,
        b > 0,
    ensures
        ceil_div(a, b) * b >= a,
        ceil_div(a, b) >= 0,
{
    lemma_fundamental_div_mod(a, b);
    let q = a / b;
    let r = a % b;
    assert(ceil_div(a, b) * b >= a && ceil_div(a, b) >= 0) by (nonlinear_arith)
        requires
            a == b * q + r,
            0 <= r < b,
            a >= 0,
            ceil_div(a, b) == if r == 0 {
                q
            } else {
                q + 1
            },
    ;
}

/// For any `total >= 1` and `size >= 1`, the ranges of a linear decomposition
/// are non-empty, number `ceil(total / size)`, start at 0, each begins where
/// the previous one ends, the last ends at `total`, and every pixel of
/// `[0, total)` lies in exactly one of them.
pub proof fn lemma_linear_partition_exact(units: Seq<PixelRange>, total: int, size: int)
    requires
        total >= 1,
        size >= 1,
        is_linear_partition(units, total, size),
    ensures
        units.len() == ceil_div(total, size),
        units.len() >= 1,
        units[0].start == 0,
        units[units.len() - 1].end == total,
        forall|i: int| 0 <= i < units.len() ==> (#[trigger] units[i]).start < units[i].end,
        forall|i: int|
            0 <= i < units.len() - 1 ==> (#[trigger] units[i]).end == units[i + 1].start,
        ranges_cover(units, total),
        forall|p: int, i: int, j: int|
            0 <= i < units.len() && 0 <= j < units.len() && #[trigger] range_contains(units[i], p)
                && #[trigger] range_contains(units[j], p) ==> i == j,
{
    let n = units.len();
    lemma_unit_of(total, size, 0);
    assert(units[0].start == 0);
    assert forall|i: int| 0 <= i < n implies (#[trigger] units[i]).start < units[i].end
        && units[i].end <= total by {
        lemma_below_ceil(total, size, i);
        assert((i + 1) * size == i * size + size) by (nonlinear_arith);
    }
    assert forall|i: int| 0 <= i < n - 1 implies (#[trigger] units[i]).end
        == units[i + 1].start by {
        lemma_below_ceil(total, size, i + 1);
    }
    lemma_ceil_covers(total, size);
    assert(units[n - 1].end == total) by {
        assert((n - 1 + 1) * size == n * size);
    }
    assert forall|p: int| 0 <= p < total implies #[trigger] pixel_covered(units, p) by {
        lemma_unit_of(total, size, p);
        let i = p / size;
        assert((i + 1) * size == i * size + size) by (nonlinear_arith);
        assert(range_contains(units[i], p));
    }
    assert forall|p: int, i: int, j: int|
        0 <= i < n && 0 <= j < n && #[trigger] range_contains(units[i], p)
            && #[trigger] range_contains(units[j], p) implies i == j by {
        if i < j {
            assert((i + 1) * size <= j * size) by (nonlinear_arith)
                requires
                    i + 1 <= j,
                    size >= 1,
            ;
        } else if j < i {
            assert((j + 1) * size <= i * size) by (nonlinear_arith)
                requires
                    j + 1 <= i,
                    size >= 1,
            ;
        }
    }
}

proof fn lemma_tile_index(cols: int, rows: int, i: int)
    requires
        cols >= 1,
        0 <= i < cols * rows,
    ensures
        0 <= i % cols < cols,
        0 <= i / cols < rows,
        i == cols * (i / cols) + i % cols,
{
    lemma_fundamental_div_mod(i, cols);
    let q = i / cols;
    let r = i % cols;
    assert(0 <= q < rows) by (nonlinear_arith)
        requires
            i == cols * q + r,
            0 <= r < cols,
            0 <= i < cols * rows,
            cols >= 1,
    ;
}

/// The tile column (or row) `k` whose span `[k * size, k * size + size)`
/// holds `x` is `x / size`.
proof fn lemma_span_index(x: int, size: int, k: int)
    requires
        size >= 1,
        k >= 0,
        k * size <= x < k * size + size,
    ensures
        x / size == k,
{
    lemma_fundamental_div_mod_converse(x, size, k, x - k * size);
}

/// For any `width, height >= 1` and `size >= 1`, the tiles of a grid
/// decomposition are non-empty rectangles inside the image, and every pixel
/// of `[0, width) x [0, height)` lies in exactly one of them.
pub proof fn lemma_grid_partition_exact(tiles: Seq<Tile>, width: int, height: int, size: int)
    requires
        width >= 1,
        height >= 1,
        size >= 1,
        is_grid_partition(tiles, width, height, size),
    ensures
        tiles.len() == ceil_div(width, size) * ceil_div(height, size),
        forall|i: int|
            0 <= i < tiles.len() ==> (#[trigger] tiles[i]).x0 < tiles[i].x1 <= width
                && tiles[i].y0 < tiles[i].y1 <= height,
        tiles_cover(tiles, width, height),
        forall|x: int, y: int, i: int, j: int|
            0 <= i < tiles.len() && 0 <= j < tiles.len() && #[trigger] tile_contains(tiles[i], x, y)
                && #[trigger] tile_contains(tiles[j], x, y) ==> i == j,
{
    let cols = ceil_div(width, size);
    let rows = ceil_div(height, size);
    let n = tiles.len();
    lemma_unit_of(width, size, 0);
    assert forall|i: int| 0 <= i < n implies (#[trigger] tiles[i]).x0 < tiles[i].x1 <= width
        && tiles[i].y0 < tiles[i].y1 <= height by {
        lemma_tile_index(cols, rows, i);
        lemma_below_ceil(width, size, i % cols);
        lemma_below_ceil(height, size, i / cols);
    }
    assert forall|x: int, y: int| 0 <= x < width && 0 <= y < height implies #[trigger] point_covered(
        tiles,
        x,
        y,
    ) by {
        lemma_unit_of(width, size, x);
        lemma_unit_of(height, size, y);
        let tx = x / size;
        let ty = y / size;
        let i = ty * cols + tx;
        assert(0 <= i < cols * rows) by (nonlinear_arith)
            requires
                0 <= tx < cols,
                0 <= ty < rows,
                i == ty * cols + tx,
        ;
        lemma_fundamental_div_mod_converse(i, cols, ty, tx);
        assert(tile_contains(tiles[i], x, y));
    }
    assert forall|x: int, y: int, i: int, j: int|
        0 <= i < n && 0 <= j < n && #[trigger] tile_contains(tiles[i], x, y)
            && #[trigger] tile_contains(tiles[j], x, y) implies i == j by {
        lemma_tile_index(cols, rows, i);
        lemma_tile_index(cols, rows, j);
        lemma_span_index(x, size, i % cols);
        lemma_span_index(x, size, j % cols);
        lemma_span_index(y, size, i / cols);
        lemma_span_index(y, size, j / cols);
    }
}

/// Divides the pixel indices `[0, total_pixels)` into consecutive ranges of
/// `unit_size` pixels, the last one possibly shorter.
pub fn partition_linear(total_pixels: usize, unit_size: usize) -> (r: Result<
    Vec<PixelRange>,
    PartitionError,
>)
    ensures
        unit_size == 0 <==> r is Err,
        r is Err ==> r->Err_0 == PartitionError::InvalidArgument,
        r is Ok ==> is_linear_partition(r->Ok_0@, total_pixels as int, unit_size as int),
{
    if unit_size == 0 {
        return Err(PartitionError::InvalidArgument);
    }
    proof {
        lemma_ceil_fits(total_pixels as int, unit_size as int);
    }
    let count: usize = if total_pixels % unit_size == 0 {
        total_pixels / unit_size
    } else {
        total_pixels / unit_size + 1
    };
    let mut units: Vec<PixelRange> = Vec::new();
    let mut i: usize = 0;
    while i < count
        invariant
            unit_size > 0,
            count == ceil_div(total_pixels as int, unit_size as int),
            i <= count,
            units@.len() == i,
            forall|j: int|
                0 <= j < i ==> (#[trigger] units@[j]).start == j * unit_size && units@[j].end
                    == min((j + 1) * unit_size, total_pixels as int),
        decreases count - i,
    {
        proof {
            lemma_below_ceil(total_pixels as int, unit_size as int, i as int);
            assert((i + 1) * unit_size == i * unit_size + unit_size) by (nonlinear_arith);
        }
        let start: usize = i * unit_size;
        let end: usize = if total_pixels - start <= unit_size {
            total_pixels
        } else {
            start + unit_size
        };
        units.push(PixelRange { start, end });
        i = i + 1;
    }
    Ok(units)
}

/// Divides a `width` x `height` image into squares of edge `tile_size`,
/// clipped to the image, listed row by row of tiles.
pub fn partition_grid(width: usize, height: usize, tile_size: usize) -> (r: Result<
    Vec<Tile>,
    PartitionError,
>)
    ensures
        tile_size == 0 <==> r is Err,
        r is Err ==> r->Err_0 == PartitionError::InvalidArgument,
        r is Ok ==> is_grid_partition(r->Ok_0@, width as int, height as int, tile_size as int),
{
    if tile_size == 0 {
        return Err(PartitionError::InvalidArgument);
    }
    proof {
        lemma_ceil_fits(width as int, tile_size as int);
        lemma_ceil_fits(height as int, tile_size as int);
    }
    let cols: usize = if width % tile_size == 0 {
        width / tile_size
    } else {
        width / tile_size + 1
    };
    let rows: usize = if height % tile_size == 0 {
        height / tile_size
    } else {
        height / tile_size + 1
    };
    let ghost t = tile_size as int;
    let mut tiles: Vec<Tile> = Vec::new();
    let mut ty: usize = 0;
    while ty < rows
        invariant
            tile_size > 0,
            t == tile_size,
            cols == ceil_div(width as int, t),
            rows == ceil_div(height as int, t),
            ty <= rows,
            tiles@.len() == ty * cols,
            forall|j: int|
                0 <= j < tiles@.len() ==> {
                    let b = #[trigger] tiles@[j];
                    &&& b.x0 == (j % (cols as int)) * t
                    &&& b.x1 == min(b.x0 + t, width as int)
                    &&& b.y0 == (j / (cols as int)) * t
                    &&& b.y1 == min(b.y0 + t, height as int)
                },
        decreases rows - ty,
    {
        proof {
            lemma_below_ceil(height as int, t, ty as int);
        }
        let y0: usize = ty * tile_size;
        let y1: usize = if height - y0 <= tile_size {
            height
        } else {
            y0 + tile_size
        };
        let mut tx: usize = 0;
        while tx < cols
            invariant
                tile_size > 0,
                t == tile_size,
                cols == ceil_div(width as int, t),
                ty < rows,
                y0 == ty * t,
                y1 == min(y0 + t, height as int),
                tx <= cols,
                tiles@.len() == ty * cols + tx,
                forall|j: int|
                    0 <= j < tiles@.len() ==> {
                        let b = #[trigger] tiles@[j];
                        &&& b.x0 == (j % (cols as int)) * t
                        &&& b.x1 == min(b.x0 + t, width as int)
                        &&& b.y0 == (j / (cols as int)) * t
                        &&& b.y1 == min(b.y0 + t, height as int)
                    },
            decreases cols - tx,
        {
            proof {
                lemma_below_ceil(width as int, t, tx as int);
                lemma_fundamental_div_mod_converse(
                    ty * cols + tx,
                    cols as int,
                    ty as int,
                    tx as int,
                );
                assert(ty * cols == (ty as int) * (cols as int));
            }
            let x0: usize = tx * tile_size;
            let x1: usize = if width - x0 <= tile_size {
                width
            } else {
                x0 + tile_size
            };
            tiles.push(Tile { x0, x1, y0, y1 });
            tx = tx + 1;
        }
        proof {
            assert(ty * cols + cols == (ty + 1) * cols) by (nonlinear_arith);
        }
        ty = ty + 1;
    }
    proof {
        assert(rows * cols == cols * rows) by (nonlinear_arith);
    }
    Ok(tiles)
}

} // verus!
