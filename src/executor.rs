//! Parallel strategies. Each work unit is handed to rayon's worker pool as one
//! task; a task reads the shared input buffer and yields the transformed bytes
//! of its own pixels. When every task has finished, those bytes are written
//! back over the caller's buffer. Because the units cover every pixel, the
//! result equals the sequential sweep whatever the decomposition.
use vstd::prelude::*;
use rayon::iter::{IndexedParallelIterator, IntoParallelRefIterator, ParallelIterator};
use crate::partition::{
    PixelRange, Tile, ranges_cover, pixel_covered, range_contains, tiles_cover, point_covered,
    tile_contains,
};
use crate::transform::{
    transform_segment, transformed, transformed_byte, transformed_segment, lemma_pixel_span,
};

verus! {

/// Relies on rayon's `par_iter().map(f).collect_into_vec(..)` over a slice:
/// `f` runs once on every item, on the worker pool, the call returns only once
/// all of them have finished, and the results stand in the items' order.
#[verifier::external_body]
fn par_map<T: Sync, U: Send, F: Fn(&T) -> U + Sync + Send>(items: &Vec<T>, f: F) -> (r: Vec<U>)
    requires
        forall|i: int| 0 <= i < items@.len() ==> f.requires((&items@[i],)),
    ensures
        r@.len() == items@.len(),
        forall|i: int| 0 <= i < items@.len() ==> f.ensures((&items@[i],), #[trigger] r@[i]),
{
    let mut out: Vec<U> = Vec::new();
    items.par_iter().map(f).collect_into_vec(&mut out);
    out
}

/// Overwrites `buf[offset .. offset + data.len()]` with `data`.
fn write_bytes(buf: &mut Vec<u8>, offset: usize, data: &Vec<u8>)
    requires
        offset + data@.len() <= old(buf)@.len(),
    ensures
        final(buf)@.len() == old(buf)@.len(),
        forall|b: int|
            0 <= b < old(buf)@.len() ==> #[trigger] final(buf)@[b] == if offset <= b < offset
                + data@.len() {
                data@[b - offset]
            } else {
                old(buf)@[b]
            },
{
    let n = data.len();
    let len = buf.len();
    let mut j: usize = 0;
    while j < n
        invariant
            n == data@.len(),
            len == old(buf)@.len(),
            offset + n <= old(buf)@.len(),
            j <= n,
            buf@.len() == old(buf)@.len(),
            forall|b: int|
                0 <= b < old(buf)@.len() ==> #[trigger] buf@[b] == if offset <= b < offset + j {
                    data@[b - offset]
                } else {
                    old(buf)@[b]
                },
        decreases n - j,
    {
        buf.set(offset + j, data[j]);
        j = j + 1;
    }
}

/// Some range among the first `k` of `units` holds pixel `p`.
pub open spec fn covered_by_first(units: Seq<PixelRange>, k: int, p: int) -> bool {
    exists|i: int| 0 <= i < k && range_contains(units[i], p)
}

/// Transforms every pixel of a `width` x `height` buffer in parallel, one task
/// per range of `units`, which must cover all pixels.
pub fn run_parallel_batches(
    buf: &mut Vec<u8>,
    width: usize,
    height: usize,
    nc: usize,
    inc: u8,
    units: &Vec<PixelRange>,
)
    requires
        nc >= 1,
        old(buf)@.len() == width * height * nc,
        ranges_cover(units@, width * height),
    ensures
        final(buf)@ == transformed(old(buf)@, nc as nat, inc),
{
    let ghost orig = buf@;
    let ghost total = width * height;
    let len = buf.len();
    proof {
        assert forall|i: int| 0 <= i < units@.len() implies (#[trigger] units@[i]).end * nc
            <= orig.len() by {
            assert(units@[i].end * nc <= total * nc) by (nonlinear_arith)
                requires
                    units@[i].end <= total,
                    nc >= 1,
            ;
        }
    }
    let input: &Vec<u8> = buf;
    let task = (|u: &PixelRange| -> (r: Vec<u8>)
            requires
                u.start <= u.end,
                u.end * nc <= input@.len(),
                nc >= 1,
            ensures
                r@ == transformed_segment(input@, u.start as int, u.end as int, nc as nat, inc),
            { transform_segment(input, u.start, u.end, nc, inc) });
    let outs = par_map(units, task);
    let n = units.len();
    let mut k: usize = 0;
    while k < n
        invariant
            nc >= 1,
            n == units@.len(),
            k <= n,
            len == orig.len(),
            orig.len() == total * nc,
            ranges_cover(units@, total),
            outs@.len() == n,
            forall|i: int| 0 <= i < n ==> (#[trigger] units@[i]).end * nc <= orig.len(),
            forall|i: int|
                0 <= i < n ==> (#[trigger] outs@[i])@ == transformed_segment(
                    orig,
                    units@[i].start as int,
                    units@[i].end as int,
                    nc as nat,
                    inc,
                ),
            buf@.len() == orig.len(),
            forall|b: int|
                0 <= b < orig.len() ==> #[trigger] buf@[b] == if covered_by_first(
                    units@,
                    k as int,
                    b / (nc as int),
                ) {
                    transformed_byte(orig, b, nc as nat, inc)
                } else {
                    orig[b]
                },
        decreases n - k,
    {
        let u = units[k];
        proof {
            assert(u.start * nc <= u.end * nc) by (nonlinear_arith)
                requires
                    u.start <= u.end,
                    nc >= 1,
            ;
        }
        write_bytes(buf, u.start * nc, &outs[k]);
        proof {
            assert forall|b: int| 0 <= b < orig.len() implies #[trigger] buf@[b] == if covered_by_first(
                units@,
                k + 1,
                b / (nc as int),
            ) {
                transformed_byte(orig, b, nc as nat, inc)
            } else {
                orig[b]
            } by {
                let p = b / (nc as int);
                lemma_pixel_span(b, nc as int, u.start as int, u.end as int);
                if range_contains(u, p) {
                    assert(covered_by_first(units@, k + 1, p));
                } else {
                    if covered_by_first(units@, k + 1, p) {
                        let i = choose|i: int| 0 <= i < k + 1 && range_contains(units@[i], p);
                        assert(i != k);
                        assert(covered_by_first(units@, k as int, p));
                    }
                    if covered_by_first(units@, k as int, p) {
                        let i = choose|i: int| 0 <= i < k && range_contains(units@[i], p);
                        assert(covered_by_first(units@, k + 1, p));
                    }
                }
            }
        }
        k = k + 1;
    }
    proof {
        assert forall|b: int| 0 <= b < orig.len() implies #[trigger] buf@[b] == transformed(
            orig,
            nc as nat,
            inc,
        )[b] by {
            let p = b / (nc as int);
            lemma_pixel_span(b, nc as int, 0, total);
            assert(pixel_covered(units@, p));
            let i = choose|i: int| 0 <= i < units@.len() && range_contains(units@[i], p);
            assert(covered_by_first(units@, n as int, p));
        }
        assert(buf@ =~= transformed(orig, nc as nat, inc));
    }
}

/// Pixel `p` of an image `width` pixels wide lies in tile `t`.
pub open spec fn pixel_in_tile(t: Tile, width: int, p: int) -> bool {
    tile_contains(t, p % width, p / width)
}

/// Some tile among the first `k` of `tiles` holds pixel `p`.
pub open spec fn covered_by_first_tiles(tiles: Seq<Tile>, k: int, width: int, p: int) -> bool {
    exists|i: int| 0 <= i < k && pixel_in_tile(tiles[i], width, p)
}

/// The pixels of row `y`, columns `[x0, x1)`, are the linear indices
/// `[y * width + x0, y * width + x1)`.
proof fn lemma_row_span(p: int, width: int, y: int, x0: int, x1: int)
    requires
        width >= 1,
        p >= 0,
        y >= 0,
        0 <= x0 <= x1 <= width,
    ensures
        (y * width + x0 <= p < y * width + x1) <==> (p / width == y && x0 <= p % width < x1),
{
    vstd::arithmetic::div_mod::lemma_fundamental_div_mod(p, width);
    let q = p / width;
    let r = p % width;
    assert((y * width + x0 <= p < y * width + x1) ==> (q == y && x0 <= r < x1)) by (nonlinear_arith)
        requires
            p == width * q + r,
            0 <= r < width,
            0 <= x0 <= x1 <= width,
    ;
    assert((q == y && x0 <= r < x1) ==> (y * width + x0 <= p < y * width + x1)) by (nonlinear_arith)
        requires
            p == width * q + r,
    ;
}

/// The bytes of tile `t`, one vector per pixel row of the tile, transformed;
/// `buf` is only read.
pub fn transform_tile(buf: &Vec<u8>, t: Tile, width: usize, height: usize, nc: usize, inc: u8) -> (r:
    Vec<Vec<u8>>)
    requires
        nc >= 1,
        t.x0 <= t.x1 <= width,
        t.y0 <= t.y1 <= height,
        buf@.len() == width * height * nc,
    ensures
        r@.len() == t.y1 - t.y0,
        forall|j: int|
            0 <= j < r@.len() ==> (#[trigger] r@[j])@ == transformed_segment(
                buf@,
                (t.y0 + j) * width + t.x0,
                (t.y0 + j) * width + t.x1,
                nc as nat,
                inc,
            ),
{
    let len = buf.len();
    let mut rows: Vec<Vec<u8>> = Vec::new();
    let mut y: usize = t.y0;
    while y < t.y1
        invariant
            nc >= 1,
            t.x0 <= t.x1 <= width,
            t.y0 <= y <= t.y1 <= height,
            len == buf@.len(),
            len == width * height * nc,
            rows@.len() == y - t.y0,
            forall|j: int|
                0 <= j < rows@.len() ==> (#[trigger] rows@[j])@ == transformed_segment(
                    buf@,
                    (t.y0 + j) * width + t.x0,
                    (t.y0 + j) * width + t.x1,
                    nc as nat,
                    inc,
                ),
        decreases t.y1 - y,
    {
        proof {
            assert((y * width + t.x1) * nc <= width * height * nc && y * width + t.x1 <= (y + 1)
                * width) by (nonlinear_arith)
                requires
                    y < height,
                    t.x1 <= width,
                    nc >= 1,
            ;
            assert(y * width + t.x1 <= width * height * nc) by (nonlinear_arith)
                requires
                    (y * width + t.x1) * nc <= width * height * nc,
                    nc >= 1,
                    y * width + t.x1 >= 0,
            ;
        }
        let row_start: usize = y * width + t.x0;
        let row_end: usize = y * width + t.x1;
        rows.push(transform_segment(buf, row_start, row_end, nc, inc));
        y = y + 1;
    }
    rows
}

/// Transforms every pixel of a `width` x `height` buffer in parallel, one task
/// per tile of `tiles`, which must cover the image.
pub fn run_parallel_tiles(
    buf: &mut Vec<u8>,
    width: usize,
    height: usize,
    nc: usize,
    inc: u8,
    tiles: &Vec<Tile>,
)
    requires
        nc >= 1,
        old(buf)@.len() == width * height * nc,
        tiles_cover(tiles@, width as int, height as int),
    ensures
        final(buf)@ == transformed(old(buf)@, nc as nat, inc),
{
    let ghost orig = buf@;
    let len = buf.len();
    if width == 0 || height == 0 {
        proof {
            assert(orig.len() == 0) by (nonlinear_arith)
                requires
                    orig.len() == width * height * nc,
                    width == 0 || height == 0,
            ;
            assert(buf@ =~= transformed(orig, nc as nat, inc));
        }
        return;
    }
    let input: &Vec<u8> = buf;
    let task = (|t: &Tile| -> (r: Vec<Vec<u8>>)
        requires
            nc >= 1,
            t.x0 <= t.x1 <= width,
            t.y0 <= t.y1 <= height,
            input@.len() == width * height * nc,
        ensures
            r@.len() == t.y1 - t.y0,
            forall|j: int|
                0 <= j < r@.len() ==> (#[trigger] r@[j])@ == transformed_segment(
                    input@,
                    (t.y0 + j) * width + t.x0,
                    (t.y0 + j) * width + t.x1,
                    nc as nat,
                    inc,
                ),
        { transform_tile(input, *t, width, height, nc, inc) });
    let outs = par_map(tiles, task);
    let ghost w = width as int;
    let n = tiles.len();
    let mut k: usize = 0;
    while k < n
        invariant
            nc >= 1,
            w == width,
            width >= 1,
            height >= 1,
            n == tiles@.len(),
            k <= n,
            len == orig.len(),
            orig.len() == width * height * nc,
            tiles_cover(tiles@, w, height as int),
            outs@.len() == n,
            forall|i: int|
                0 <= i < n ==> (#[trigger] outs@[i])@.len() == tiles@[i].y1 - tiles@[i].y0,
            forall|i: int, j: int|
                0 <= i < n && 0 <= j < outs@[i]@.len() ==> (#[trigger] outs@[i]@[j])@
                    == transformed_segment(
                    orig,
                    (tiles@[i].y0 + j) * width + tiles@[i].x0,
                    (tiles@[i].y0 + j) * width + tiles@[i].x1,
                    nc as nat,
                    inc,
                ),
            buf@.len() == orig.len(),
            forall|b: int|
                0 <= b < orig.len() ==> #[trigger] buf@[b] == if covered_by_first_tiles(
                    tiles@,
                    k as int,
                    w,
                    b / (nc as int),
                ) {
                    transformed_byte(orig, b, nc as nat, inc)
                } else {
                    orig[b]
                },
        decreases n - k,
    {
        let t = tiles[k];
        let rows_out: &Vec<Vec<u8>> = &outs[k];
        let mut y: usize = t.y0;
        while y < t.y1
            invariant
                nc >= 1,
                w == width,
                width >= 1,
                k < n,
                n == tiles@.len(),
                t == tiles@[k as int],
                t.x0 <= t.x1 <= width,
                t.y0 <= y <= t.y1 <= height,
                len == orig.len(),
                orig.len() == width * height * nc,
                rows_out@.len() == t.y1 - t.y0,
                forall|j: int|
                    0 <= j < rows_out@.len() ==> (#[trigger] rows_out@[j])@ == transformed_segment(
                        orig,
                        (t.y0 + j) * width + t.x0,
                        (t.y0 + j) * width + t.x1,
                        nc as nat,
                        inc,
                    ),
                buf@.len() == orig.len(),
                forall|b: int|
                    0 <= b < orig.len() ==> #[trigger] buf@[b] == if covered_by_first_tiles(
                        tiles@,
                        k as int,
                        w,
                        b / (nc as int),
                    ) || (pixel_in_tile(t, w, b / (nc as int)) && (b / (nc as int)) / w < y) {
                        transformed_byte(orig, b, nc as nat, inc)
                    } else {
                        orig[b]
                    },
            decreases t.y1 - y,
        {
            proof {
                assert((y * width + t.x1) * nc <= width * height * nc && y * width + t.x0 <= y
                    * width + t.x1) by (nonlinear_arith)
                    requires
                        y < height,
                        t.x0 <= t.x1 <= width,
                        nc >= 1,
                ;
                assert((y * width + t.x0) * nc <= (y * width + t.x1) * nc) by (nonlinear_arith)
                    requires
                        y * width + t.x0 <= y * width + t.x1,
                        nc >= 1,
                ;
                assert(y * width + t.x1 <= width * height * nc) by (nonlinear_arith)
                    requires
                        (y * width + t.x1) * nc <= width * height * nc,
                        nc >= 1,
                        y * width + t.x1 >= 0,
                ;
            }
            let row_start: usize = y * width + t.x0;
            let row_end: usize = y * width + t.x1;
                write_bytes(buf, row_start * nc, &rows_out[y - t.y0]);
            proof {
                assert forall|b: int| 0 <= b < orig.len() implies #[trigger] buf@[b] == if covered_by_first_tiles(
                    tiles@,
                    k as int,
                    w,
                    b / (nc as int),
                ) || (pixel_in_tile(t, w, b / (nc as int)) && (b / (nc as int)) / w < y + 1) {
                    transformed_byte(orig, b, nc as nat, inc)
                } else {
                    orig[b]
                } by {
                    let p = b / (nc as int);
                    lemma_pixel_span(b, nc as int, row_start as int, row_end as int);
                    assert(p >= 0);
                    lemma_row_span(p, w, y as int, t.x0 as int, t.x1 as int);
                }
            }
            y = y + 1;
        }
        proof {
            assert forall|b: int| 0 <= b < orig.len() implies #[trigger] buf@[b] == if covered_by_first_tiles(
                tiles@,
                k + 1,
                w,
                b / (nc as int),
            ) {
                transformed_byte(orig, b, nc as nat, inc)
            } else {
                orig[b]
            } by {
                let p = b / (nc as int);
                if pixel_in_tile(t, w, p) {
                    assert(covered_by_first_tiles(tiles@, k + 1, w, p));
                } else {
                    if covered_by_first_tiles(tiles@, k + 1, w, p) {
                        let i = choose|i: int| 0 <= i < k + 1 && pixel_in_tile(tiles@[i], w, p);
                        assert(i != k);
                        assert(covered_by_first_tiles(tiles@, k as int, w, p));
                    }
                    if covered_by_first_tiles(tiles@, k as int, w, p) {
                        let i = choose|i: int| 0 <= i < k && pixel_in_tile(tiles@[i], w, p);
                        assert(covered_by_first_tiles(tiles@, k + 1, w, p));
                    }
                }
            }
        }
        k = k + 1;
    }
    proof {
        assert forall|b: int| 0 <= b < orig.len() implies #[trigger] buf@[b] == transformed(
            orig,
            nc as nat,
            inc,
        )[b] by {
            let p = b / (nc as int);
            lemma_pixel_span(b, nc as int, 0, w * height);
            vstd::arithmetic::div_mod::lemma_fundamental_div_mod(p, w);
            assert(p / w < height) by (nonlinear_arith)
                requires
                    p == w * (p / w) + p % w,
                    0 <= p % w < w,
                    p < w * height,
            ;
            assert(point_covered(tiles@, p % w, p / w));
            let i = choose|i: int| 0 <= i < tiles@.len() && tile_contains(tiles@[i], p % w, p / w);
            assert(pixel_in_tile(tiles@[i], w, p));
            assert(covered_by_first_tiles(tiles@, n as int, w, p));
        }
        assert(buf@ =~= transformed(orig, nc as nat, inc));
    }
}

} // verus!
