//! The integer side of choosing the number of clusters: the range of
//! cluster counts that are tried, and the clamping of the chosen one.
use vstd::prelude::*;

verus! {

/// The fewest clusters that are ever chosen, and the fewest that are tried
/// at most.
pub const MIN_CLUSTERS: usize = 8;

/// Whether `r` is the integer square root of `n`, rounded down.
pub open spec fn is_isqrt(n: int, r: int) -> bool {
    0 <= r && r * r <= n < (r + 1) * (r + 1)
}

/// The square root of `n`, rounded down, as `usize::isqrt` gives it.
pub fn isqrt(n: usize) -> (r: usize)
    ensures
        is_isqrt(n as int, r as int),
{
    let mut lo: u128 = 0;
    let mut hi: u128 = (n as u128) + 1;
    assert(0 * 0 <= n);
    assert(n < hi * hi) by (nonlinear_arith)
        requires
            hi == n + 1,
            n >= 0,
    ;
    while lo + 1 < hi
        invariant
            lo < hi <= (n as int) + 1,
            lo * lo <= n,
            n < hi * hi,
        decreases hi - lo,
    {
        let mid = lo + (hi - lo) / 2;
        assert(mid < hi);
        assert(mid * mid <= 0xffff_ffff_ffff_fffe_0000_0000_0000_0001) by (nonlinear_arith)
            requires
                0 <= mid <= 0xffff_ffff_ffff_ffff,
        ;
        if mid * mid <= n as u128 {
            lo = mid;
        } else {
            hi = mid;
        }
    }
    assert(hi == lo + 1);
    assert(lo <= n as int);
    lo as usize
}

/// The most clusters that are tried for `n` points: twice the square root of
/// `n`, rounded down, but at least `MIN_CLUSTERS`.
pub open spec fn max_clusters_spec(n: int, r: int) -> int {
    if 2 * r > MIN_CLUSTERS {
        2 * r
    } else {
        MIN_CLUSTERS as int
    }
}

/// The most clusters that are tried for `n_points` points.
pub fn max_cluster_count(n_points: usize) -> (k: usize)
    ensures
        exists|r: int| is_isqrt(n_points as int, r) && k == max_clusters_spec(n_points as int, r),
{
    let r = isqrt(n_points);
    assert(2 * r <= usize::MAX) by (nonlinear_arith)
        requires
            r * r <= n_points,
            n_points <= usize::MAX,
            r >= 0,
    {
        if r >= 2 {
            assert(r * r >= 2 * r);
        }
    }
    let twice = 2 * r;
    if twice > MIN_CLUSTERS {
        twice
    } else {
        MIN_CLUSTERS
    }
}

/// The number of clusters that is used: the chosen one, at least `min_k` and
/// then at most `max_k`.
pub fn clamp_cluster_count(knee: usize, min_k: usize, max_k: usize) -> (k: usize)
    ensures
        k == vstd::math::min(vstd::math::max(knee as int, min_k as int), max_k as int),
{
    let lower = if knee > min_k {
        knee
    } else {
        min_k
    };
    if lower < max_k {
        lower
    } else {
        max_k
    }
}

} // verus!
