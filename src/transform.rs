//! The per-pixel operation: add a constant to every colour channel of a pixel,
//! saturating at 255, and leave the last (alpha) channel untouched.
use vstd::prelude::*;

verus! {

/// Saturating unsigned 8-bit addition.
pub open spec fn sat_add(v: u8, inc: u8) -> u8 {
    if v + inc > 255 {
        255
    } else {
        (v + inc) as u8
    }
}

/// Whether byte offset `k` of an interleaved buffer with `nc` channels per
/// pixel holds a colour channel (every channel but the last).
pub open spec fn is_colour_byte(k: int, nc: nat) -> bool {
    k % (nc as int) < nc - 1
}

/// The value byte `k` of `s` takes when its pixel is transformed.
pub open spec fn transformed_byte(s: Seq<u8>, k: int, nc: nat, inc: u8) -> u8 {
    if is_colour_byte(k, nc) {
        sat_add(s[k], inc)
    } else {
        s[k]
    }
}

/// The whole buffer `s` with every pixel transformed.
pub open spec fn transformed(s: Seq<u8>, nc: nat, inc: u8) -> Seq<u8> {
    Seq::new(s.len(), |k: int| transformed_byte(s, k, nc, inc))
}

/// The bytes of the pixels `[start, end)` of `s`, transformed.
pub open spec fn transformed_segment(s: Seq<u8>, start: int, end: int, nc: nat, inc: u8) -> Seq<u8> {
    transformed(s, nc, inc).subrange(start * nc, end * nc)
}

/// A pixel of `nc` channels with its colour channels transformed.
pub open spec fn transformed_pixel(p: Seq<u8>, inc: u8) -> Seq<u8> {
    Seq::new(
        p.len(),
        |i: int|
            if i < p.len() - 1 {
                sat_add(p[i], inc)
            } else {
                p[i]
            },
    )
}

/// Whatever the increment, the transform leaves the last channel (alpha) of
/// every pixel as it was.
pub proof fn lemma_alpha_untouched(s: Seq<u8>, nc: nat, inc: u8)
    requires
        nc >= 1,
    ensures
        forall|k: int|
            0 <= k < s.len() && k % (nc as int) == nc - 1 ==> #[trigger] transformed(s, nc, inc)[k]
                == s[k],
{
}

/// `k * nc + c` with `c < nc` lies in pixel `k` at channel `c`.
pub proof fn lemma_pixel_offset(k: int, nc: int, c: int)
    requires
        k >= 0,
        0 <= c < nc,
    ensures
        (k * nc + c) / nc == k,
        (k * nc + c) % nc == c,
{
    vstd::arithmetic::div_mod::lemma_fundamental_div_mod_converse(k * nc + c, nc, k, c);
}

/// Byte `b` lies in the bytes `[s * nc, e * nc)` of the pixels `[s, e)`
/// exactly when its pixel `b / nc` lies in `[s, e)`.
pub proof fn lemma_pixel_span(b: int, nc: int, s: int, e: int)
    requires
        nc >= 1,
        b >= 0,
    ensures
        (s * nc <= b < e * nc) <==> (s <= b / nc < e),
{
    vstd::arithmetic::div_mod::lemma_fundamental_div_mod(b, nc);
    let q = b / nc;
    let r = b % nc;
    assert(s * nc <= b <==> s <= q) by (nonlinear_arith)
        requires
            b == nc * q + r,
            0 <= r < nc,
    ;
    assert(b < e * nc <==> q < e) by (nonlinear_arith)
        requires
            b == nc * q + r,
            0 <= r < nc,
    ;
}

/// The bytes of the pixels `[seg_start, seg_end)` of `buf`, transformed; `buf`
/// is only read.
pub fn transform_segment(buf: &Vec<u8>, seg_start: usize, seg_end: usize, nc: usize, inc: u8) -> (r: Vec<u8>)
    requires
        nc >= 1,
        seg_start <= seg_end,
        seg_end * nc <= buf@.len(),
    ensures
        r@ == transformed_segment(buf@, seg_start as int, seg_end as int, nc as nat, inc),
{
    let len = buf.len();
    proof {
        assert(seg_start * nc <= seg_end * nc) by (nonlinear_arith)
            requires
                seg_start <= seg_end,
                nc >= 1,
        ;
    }
    let lo: usize = seg_start * nc;
    let hi: usize = seg_end * nc;
    let mut out: Vec<u8> = Vec::new();
    let mut b: usize = lo;
    while b < hi
        invariant
            nc >= 1,
            len == buf@.len(),
            lo <= b <= hi,
            hi <= len,
            out@.len() == b - lo,
            forall|j: int|
                0 <= j < out@.len() ==> #[trigger] out@[j] == transformed_byte(
                    buf@,
                    lo + j,
                    nc as nat,
                    inc,
                ),
        decreases hi - b,
    {
        if b % nc < nc - 1 {
            out.push(saturating_add_byte(buf[b], inc));
        } else {
            out.push(buf[b]);
        }
        b = b + 1;
    }
    assert(out@ =~= transformed_segment(buf@, seg_start as int, seg_end as int, nc as nat, inc));
    out
}

/// Saturating addition of one byte.
pub fn saturating_add_byte(v: u8, inc: u8) -> (r: u8)
    ensures
        r == sat_add(v, inc),
{
    if v > 255 - inc {
        255
    } else {
        v + inc
    }
}

/// Transforms one pixel in place: each channel but the last gets `inc` added,
/// saturating at 255; the last channel (alpha) is kept.
pub fn apply_pixel(pixel: &mut [u8], inc: u8)
    requires
        old(pixel)@.len() >= 1,
    ensures
        final(pixel)@ == transformed_pixel(old(pixel)@, inc),
        final(pixel)@[final(pixel)@.len() - 1] == old(pixel)@[old(pixel)@.len() - 1],
{
    let n = pixel.len();
    let mut i: usize = 0;
    while i < n - 1
        invariant
            n == pixel@.len(),
            n == old(pixel)@.len(),
            n >= 1,
            i <= n - 1,
            forall|j: int| 0 <= j < i ==> pixel@[j] == sat_add(old(pixel)@[j], inc),
            forall|j: int| i <= j < n ==> pixel@[j] == old(pixel)@[j],
        decreases n - 1 - i,
    {
        let v = saturating_add_byte(pixel[i], inc);
        pixel[i] = v;
        i = i + 1;
    }
    assert(pixel@ =~= transformed_pixel(old(pixel)@, inc));
}

/// Transforms the pixels `[start, end)` of `buf` in place and leaves every
/// other byte as it was.
pub fn apply_pixels(buf: &mut Vec<u8>, start: usize, end: usize, nc: usize, inc: u8)
    requires
        nc >= 1,
        start <= end,
        end * nc <= old(buf)@.len(),
    ensures
        final(buf)@.len() == old(buf)@.len(),
        forall|k: int|
            0 <= k < old(buf)@.len() ==> #[trigger] final(buf)@[k] == if start * nc <= k < end * nc {
                transformed_byte(old(buf)@, k, nc as nat, inc)
            } else {
                old(buf)@[k]
            },
{
    let len = buf.len();
    let mut p: usize = start;
    while p < end
        invariant
            nc >= 1,
            len == old(buf)@.len(),
            start <= p <= end,
            end * nc <= old(buf)@.len(),
            buf@.len() == old(buf)@.len(),
            forall|k: int|
                0 <= k < old(buf)@.len() ==> #[trigger] buf@[k] == if start * nc <= k < p * nc {
                    transformed_byte(old(buf)@, k, nc as nat, inc)
                } else {
                    old(buf)@[k]
                },
        decreases end - p,
    {
        proof {
            assert((p + 1) * nc <= end * nc && (p + 1) * nc == p * nc + nc) by (nonlinear_arith)
                requires
                    p < end,
                    nc >= 1,
            ;
            assert(start * nc <= p * nc) by (nonlinear_arith)
                requires
                    start <= p,
                    nc >= 1,
            ;
        }
        let base: usize = p * nc;
        let mut c: usize = 0;
        while c < nc
            invariant
                nc >= 1,
                len == old(buf)@.len(),
                start <= p < end,
                base == p * nc,
                start * nc <= p * nc,
                (p + 1) * nc == p * nc + nc,
                base + nc <= old(buf)@.len(),
                c <= nc,
                buf@.len() == old(buf)@.len(),
                forall|k: int|
                    0 <= k < old(buf)@.len() ==> #[trigger] buf@[k] == if start * nc <= k < base + c {
                        transformed_byte(old(buf)@, k, nc as nat, inc)
                    } else {
                        old(buf)@[k]
                    },
            decreases nc - c,
        {
            proof {
                lemma_pixel_offset(p as int, nc as int, c as int);
            }
            if c < nc - 1 {
                let v = saturating_add_byte(buf[base + c], inc);
                buf.set(base + c, v);
            }
            c = c + 1;
        }
        p = p + 1;
    }
}

/// Transforms every pixel of a `width` x `height` buffer in linear order.
pub fn run_sequential(buf: &mut Vec<u8>, width: usize, height: usize, nc: usize, inc: u8)
    requires
        nc >= 1,
        old(buf)@.len() == width * height * nc,
    ensures
        final(buf)@ == transformed(old(buf)@, nc as nat, inc),
{
    let len = buf.len();
    proof {
        assert(width * height <= width * height * nc) by (nonlinear_arith)
            requires
                nc >= 1,
        ;
    }
    let num_pixels: usize = width * height;
    apply_pixels(buf, 0, num_pixels, nc, inc);
    assert(final(buf)@ =~= transformed(old(buf)@, nc as nat, inc));
}

} // verus!
