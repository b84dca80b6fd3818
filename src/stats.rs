//! Mean and population standard deviation of a series of durations, in whole
//! nanoseconds. The mean is the integer quotient of the sum by the count; the
//! standard deviation is the integer square root, rounded down, of the integer
//! quotient of the squared deviations from that mean by the count. That
//! quotient is carried as a quotient and a remainder by the count, so no
//! intermediate sum can overflow.
use vstd::prelude::*;
use vstd::arithmetic::div_mod::{lemma_fundamental_div_mod, lemma_fundamental_div_mod_converse};

verus! {

/// Mean and standard deviation of a duration series, in nanoseconds.
#[derive(Clone, Copy, Debug, PartialEq, Eq, Structural)]
pub struct Summary {
    pub mean_ns: u64,
    pub stddev_ns: u64,
}

/// Why a series could not be summarised.
#[derive(Clone, Copy, Debug, PartialEq, Eq, Structural)]
pub enum StatsError {
    /// The series holds no sample.
    Empty,
}

pub open spec fn sum_of(s: Seq<u64>) -> int
    decreases s.len(),
{
    if s.len() == 0 {
        0
    } else {
        sum_of(s.drop_last()) + s.last()
    }
}

/// The sum of `(s[i] - m)^2` over the series.
pub open spec fn sq_dev_sum(s: Seq<u64>, m: int) -> int
    decreases s.len(),
{
    if s.len() == 0 {
        0
    } else {
        sq_dev_sum(s.drop_last(), m) + (s.last() - m) * (s.last() - m)
    }
}

pub open spec fn mean_of(s: Seq<u64>) -> int {
    sum_of(s) / (s.len() as int)
}

pub open spec fn variance_of(s: Seq<u64>) -> int {
    sq_dev_sum(s, mean_of(s)) / (s.len() as int)
}

/// `r` is the square root of `x` rounded down.
pub open spec fn is_floor_sqrt(r: int, x: int) -> bool {
    r >= 0 && r * r <= x < (r + 1) * (r + 1)
}

pub open spec fn std_dev_of(s: Seq<u64>) -> int {
    choose|r: int| is_floor_sqrt(r, variance_of(s))
}

proof fn lemma_floor_sqrt_unique(a: int, b: int, x: int)
    requires
        is_floor_sqrt(a, x),
        is_floor_sqrt(b, x),
    ensures
        a == b,
{
    if a < b {
        assert((a + 1) * (a + 1) <= b * b) by (nonlinear_arith)
            requires
                0 <= a,
                a + 1 <= b,
        ;
    } else if b < a {
        assert((b + 1) * (b + 1) <= a * a) by (nonlinear_arith)
            requires
                0 <= b,
                b + 1 <= a,
        ;
    }
}

proof fn lemma_std_dev_is(s: Seq<u64>, r: int)
    requires
        is_floor_sqrt(r, variance_of(s)),
    ensures
        std_dev_of(s) == r,
{
    let c = std_dev_of(s);
    assert(is_floor_sqrt(c, variance_of(s)));
    lemma_floor_sqrt_unique(c, r, variance_of(s));
}

proof fn lemma_sum_nonneg(s: Seq<u64>)
    ensures
        0 <= sum_of(s) <= s.len() * (u64::MAX as int),
    decreases s.len(),
{
    if s.len() > 0 {
        lemma_sum_nonneg(s.drop_last());
    }
}

/// The square root of `x` rounded down.
pub fn floor_sqrt(x: u128) -> (r: u64)
    ensures
        is_floor_sqrt(r as int, x as int),
{
    let mut lo: u128 = 0;
    let mut hi: u128 = 0x1_0000_0000_0000_0000;
    assert(x < hi * hi) by (nonlinear_arith)
        requires
            x <= u128::MAX,
            hi == 0x1_0000_0000_0000_0000u128,
    ;
    while hi - lo > 1
        invariant
            lo < hi <= 0x1_0000_0000_0000_0000u128,
            lo * lo <= x,
            x < hi * hi,
        decreases hi - lo,
    {
        let mid: u128 = lo + (hi - lo) / 2;
        assert(mid * mid <= 0xFFFF_FFFF_FFFF_FFFFu128 * 0xFFFF_FFFF_FFFF_FFFFu128) by (nonlinear_arith)
            requires
                0 <= mid < 0x1_0000_0000_0000_0000u128,
        ;
        if mid * mid <= x {
            lo = mid;
        } else {
            hi = mid;
        }
    }
    lo as u64
}

/// Mean and population standard deviation of `values`, in nanoseconds.
/// Fails only on an empty series.
pub fn summarize(values: &Vec<u64>) -> (r: Result<Summary, StatsError>)
    ensures
        r is Ok <==> values@.len() > 0,
        r is Err ==> r->Err_0 == StatsError::Empty,
        r is Ok ==> r->Ok_0.mean_ns == mean_of(values@) && r->Ok_0.stddev_ns == std_dev_of(
            values@,
        ),
{
    let n = values.len();
    if n == 0 {
        return Err(StatsError::Empty);
    }
    let ghost s = values@;
    let ghost big: int = (u64::MAX as int) * (u64::MAX as int);
    let mut total: u128 = 0;
    let mut i: usize = 0;
    while i < n
        invariant
            n == s.len(),
            s == values@,
            i <= n,
            total == sum_of(s.take(i as int)),
            total <= i * (u64::MAX as int),
        decreases n - i,
    {
        assert(s.take(i + 1).drop_last() =~= s.take(i as int));
        assert(total + values[i as int] <= (i + 1) * (u64::MAX as int) <= u128::MAX) by (nonlinear_arith)
            requires
                total <= i * (u64::MAX as int),
                values[i as int] <= u64::MAX,
                i < n <= usize::MAX,
                usize::MAX <= u64::MAX,
        ;
        total = total + values[i] as u128;
        i = i + 1;
    }
    assert(s.take(n as int) =~= s);
    assert(total / (n as u128) <= u64::MAX) by (nonlinear_arith)
        requires
            total <= n * (u64::MAX as int),
            n >= 1,
    ;
    let mean: u64 = (total / (n as u128)) as u64;
    assert(mean == mean_of(s));
    let nn: u128 = n as u128;
    // The squared deviations of the first `j` samples sum to `quot * n + rem`.
    let mut quot: u128 = 0;
    let mut rem: u128 = 0;
    let mut j: usize = 0;
    while j < n
        invariant
            n == s.len(),
            n >= 1,
            nn == n,
            s == values@,
            big == (u64::MAX as int) * (u64::MAX as int),
            mean == mean_of(s),
            j <= n,
            quot * n + rem == sq_dev_sum(s.take(j as int), mean as int),
            rem < n,
            sq_dev_sum(s.take(j as int), mean as int) <= j * big,
        decreases n - j,
    {
        assert(s.take(j + 1).drop_last() =~= s.take(j as int));
        let ghost before = sq_dev_sum(s.take(j as int), mean as int);
        let ghost after = sq_dev_sum(s.take(j + 1), mean as int);
        let v = values[j];
        let d: u64 = if v >= mean {
            v - mean
        } else {
            mean - v
        };
        assert(d * d == (v - mean) * (v - mean)) by (nonlinear_arith)
            requires
                d == v - mean || d == mean - v,
        ;
        assert(d as u128 * d as u128 <= big) by (nonlinear_arith)
            requires
                d <= u64::MAX,
                big == (u64::MAX as int) * (u64::MAX as int),
        ;
        let dd: u128 = d as u128 * d as u128;
        assert(after == before + dd);
        let tq: u128 = dd / nn;
        let tr: u128 = dd % nn;
        proof {
            lemma_fundamental_div_mod(dd as int, n as int);
            assert(after <= (j + 1) * big <= n * big) by (nonlinear_arith)
                requires
                    before <= j * big,
                    dd <= big,
                    after == before + dd,
                    j < n,
                    big >= 0,
            ;
            assert(0 <= tr < n && dd == n * tq + tr);
            assert((quot + tq) * n + (rem + tr) == after && (quot + tq) * n <= after)
                by (nonlinear_arith)
                requires
                    quot * n + rem == before,
                    dd == n * tq + tr,
                    after == before + dd,
                    rem >= 0,
                    tr >= 0,
            ;
            assert(quot + tq <= big) by (nonlinear_arith)
                requires
                    (quot + tq) * n <= after,
                    after <= n * big,
                    n >= 1,
            ;
        }
        let q1: u128 = quot + tq;
        let r1: u128 = rem + tr;
        if r1 >= nn {
            proof {
                assert((q1 + 1) * n <= q1 * n + r1) by (nonlinear_arith)
                    requires
                        r1 >= n,
                ;
                assert(q1 + 1 <= big) by (nonlinear_arith)
                    requires
                        (q1 + 1) * n <= q1 * n + r1,
                        q1 * n + r1 == after,
                        after <= n * big,
                        n >= 1,
                ;
            }
            assert((q1 + 1) * n + (r1 - n) == q1 * n + r1) by (nonlinear_arith);
            quot = q1 + 1;
            rem = r1 - nn;
        } else {
            quot = q1;
            rem = r1;
        }
        j = j + 1;
    }
    assert(s.take(n as int) =~= s);
    proof {
        lemma_fundamental_div_mod_converse(
            sq_dev_sum(s, mean as int),
            n as int,
            quot as int,
            rem as int,
        );
    }
    let sd = floor_sqrt(quot);
    proof {
        lemma_std_dev_is(s, sd as int);
    }
    Ok(Summary { mean_ns: mean, stddev_ns: sd })
}

/// A series of `n >= 1` equal durations `d` has mean `d` and standard
/// deviation 0.
pub proof fn lemma_constant_series(s: Seq<u64>, d: u64)
    requires
        s.len() >= 1,
        forall|i: int| 0 <= i < s.len() ==> s[i] == d,
    ensures
        mean_of(s) == d,
        sq_dev_sum(s, mean_of(s)) == 0,
        variance_of(s) == 0,
        std_dev_of(s) == 0,
{
    lemma_constant_sums(s, d);
    let n = s.len() as int;
    assert((n * d) / n == d) by (nonlinear_arith)
        requires
            n >= 1,
    ;
    lemma_std_dev_is(s, 0);
}

proof fn lemma_constant_sums(s: Seq<u64>, d: u64)
    requires
        forall|i: int| 0 <= i < s.len() ==> s[i] == d,
    ensures
        sum_of(s) == s.len() * d,
        sq_dev_sum(s, d as int) == 0,
    decreases s.len(),
{
    if s.len() > 0 {
        lemma_constant_sums(s.drop_last(), d);
        assert(sum_of(s) == (s.len() - 1) * d + d);
        assert((s.len() - 1) * d + d == s.len() * d) by (nonlinear_arith);
    }
}

} // verus!
