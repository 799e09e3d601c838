//! Universe-splitting arithmetic for the van Emde Boas structure.
//!
//! A universe of size `u = 2^k` (with `k >= 2`) is split into
//! `upper_sqrt(u) = 2^ceil(k/2)` clusters, each covering
//! `lower_sqrt(u) = 2^floor(k/2)` consecutive values. A value `x` is routed
//! to cluster `spec_high(u, x)` at offset `spec_low(u, x)`, and
//! `spec_index(u, h, l)` reassembles a value from the pair. The asymmetric
//! exponent split keeps `upper_sqrt(u) * lower_sqrt(u) == u` exact even when
//! `k` is odd.

use vstd::arithmetic::div_mod::{
    lemma_fundamental_div_mod, lemma_fundamental_div_mod_converse,
};
use vstd::arithmetic::logarithm::{lemma_log_pow, log};
use vstd::arithmetic::power::pow;
use vstd::arithmetic::power2::{
    is_pow2, is_pow2_equiv, lemma2_to64, lemma_pow2, lemma_pow2_adds,
    lemma_pow2_strictly_increases, pow2,
};
use vstd::prelude::*;

verus! {

/// A universe size is valid when it is at least 2 and a power of two.
pub open spec fn valid_universe(u: int) -> bool {
    u >= 2 && is_pow2(u)
}

/// The base-two logarithm of a power of two.
pub open spec fn log2(u: int) -> nat {
    log(2, u) as nat
}

/// The width of one cluster: `2^floor(log2(u) / 2)`.
pub open spec fn lower_sqrt(u: int) -> int {
    pow2(log2(u) / 2) as int
}

/// The number of clusters, which is also the universe of the summary:
/// `2^ceil(log2(u) / 2)`.
pub open spec fn upper_sqrt(u: int) -> int {
    pow2((log2(u) - log2(u) / 2) as nat) as int
}

/// The cluster that holds `x`.
pub open spec fn spec_high(u: int, x: int) -> int {
    x / lower_sqrt(u)
}

/// The offset of `x` within its cluster.
pub open spec fn spec_low(u: int, x: int) -> int {
    x % lower_sqrt(u)
}

/// The value stored at offset `l` of cluster `h`.
pub open spec fn spec_index(u: int, h: int, l: int) -> int {
    h * lower_sqrt(u) + l
}

/// A valid universe is an exact power of two: `u == 2^log2(u)`.
pub proof fn lemma_universe_pow2(u: int)
    requires
        valid_universe(u),
    ensures
        u == pow2(log2(u)),
        log2(u) >= 1,
{
    is_pow2_equiv(u);
    let k = choose|k: nat| pow(2, k) == u;
    lemma_pow2(k);
    lemma_log_pow(2, k);
    assert(pow2(k) == u);
    assert(log(2, pow2(k) as int) == k);
    if k == 0 {
        lemma2_to64();
        assert(pow2(0) == 1);
    }
}

/// How a valid universe larger than 2 splits: both square roots are valid
/// universes themselves, both are strictly smaller, and their product gives
/// back the whole universe exactly.
pub proof fn lemma_universe_split(u: int)
    requires
        valid_universe(u),
        u > 2,
    ensures
        2 <= lower_sqrt(u) <= upper_sqrt(u),
        lower_sqrt(u) < u,
        upper_sqrt(u) < u,
        upper_sqrt(u) * lower_sqrt(u) == u,
        valid_universe(lower_sqrt(u)),
        valid_universe(upper_sqrt(u)),
{
    lemma_universe_pow2(u);
    let k = log2(u);
    let lo = k / 2;
    let hi = (k - k / 2) as nat;
    if k == 1 {
        lemma2_to64();
        assert(u == pow2(1) == 2);
    }
    assert(k >= 2);
    assert(1 <= lo <= hi < k);
    lemma_pow2_adds(hi, lo);
    assert(pow2(hi) * pow2(lo) == pow2(k));
    lemma_pow2_strictly_increases(lo, k);
    lemma_pow2_strictly_increases(hi, k);
    if lo < hi {
        lemma_pow2_strictly_increases(lo, hi);
    }
    lemma_pow2_strictly_increases(0, lo);
    lemma_pow2_strictly_increases(0, hi);
    lemma2_to64();
    assert(pow2(0) == 1);
    assert(pow2(lo) >= 2 && pow2(hi) >= 2);
    is_pow2_equiv(lower_sqrt(u));
    is_pow2_equiv(upper_sqrt(u));
    lemma_pow2(lo);
    lemma_pow2(hi);
}

/// Splitting a value of the universe gives a cluster below `upper_sqrt(u)`,
/// an offset below `lower_sqrt(u)`, and the pair reassembles to the value.
pub proof fn lemma_split_value(u: int, x: int)
    requires
        valid_universe(u),
        u > 2,
        0 <= x < u,
    ensures
        0 <= spec_high(u, x) < upper_sqrt(u),
        0 <= spec_low(u, x) < lower_sqrt(u),
        spec_index(u, spec_high(u, x), spec_low(u, x)) == x,
{
    lemma_universe_split(u);
    let d = lower_sqrt(u);
    let up = upper_sqrt(u);
    lemma_fundamental_div_mod(x, d);
    assert(x == d * (x / d) + x % d);
    assert(0 <= x % d < d) by {
        vstd::arithmetic::div_mod::lemma_mod_division_less_than_divisor(x, d);
    }
    assert(x / d >= 0) by {
        vstd::arithmetic::div_mod::lemma_div_pos_is_pos(x, d);
    }
    assert(x / d < up) by {
        if x / d >= up {
            assert(d * (x / d) >= d * up) by (nonlinear_arith)
                requires
                    d > 0,
                    x / d >= up,
            ;
        }
    }
    assert(spec_index(u, spec_high(u, x), spec_low(u, x)) == (x / d) * d + x % d);
}

/// Reassembling a cluster index and an in-range offset yields a value of the
/// universe that splits back into exactly that pair.
pub proof fn lemma_join_pair(u: int, h: int, l: int)
    requires
        valid_universe(u),
        u > 2,
        0 <= h < upper_sqrt(u),
        0 <= l < lower_sqrt(u),
    ensures
        0 <= spec_index(u, h, l) < u,
        spec_high(u, spec_index(u, h, l)) == h,
        spec_low(u, spec_index(u, h, l)) == l,
{
    lemma_universe_split(u);
    let d = lower_sqrt(u);
    let up = upper_sqrt(u);
    assert(h * d + l < up * d) by (nonlinear_arith)
        requires
            d > 0,
            0 <= h <= up - 1,
            0 <= l < d,
    ;
    lemma_fundamental_div_mod_converse(h * d + l, d, h, l);
}

/// The pair order agrees with the value order: values compare first by
/// cluster index and then by offset.
pub proof fn lemma_pair_order(u: int, h1: int, l1: int, h2: int, l2: int)
    requires
        valid_universe(u),
        u > 2,
        0 <= h1 < upper_sqrt(u),
        0 <= l1 < lower_sqrt(u),
        0 <= h2 < upper_sqrt(u),
        0 <= l2 < lower_sqrt(u),
    ensures
        spec_index(u, h1, l1) < spec_index(u, h2, l2) <==> (h1 < h2 || (h1 == h2 && l1 < l2)),
{
    lemma_universe_split(u);
    let d = lower_sqrt(u);
    assert((h1 * d + l1 < h2 * d + l2) <==> (h1 < h2 || (h1 == h2 && l1 < l2)))
        by (nonlinear_arith)
        requires
            d > 0,
            0 <= l1 < d,
            0 <= l2 < d,
    ;
}

/// `usize::MAX` is odd, so a valid universe that fits in a `usize` is
/// strictly below it.
pub proof fn lemma_universe_below_max(u: int)
    requires
        valid_universe(u),
        u <= usize::MAX as int,
    ensures
        u < usize::MAX as int,
{
    if u == usize::MAX as int {
        assert(u % 2 == 1);
        reveal(is_pow2);
        assert(!is_pow2(u));
    }
}

/// No power of two lies strictly between `2^63` and `2^64`, so every valid
/// universe that fits in a `usize` is at most `2^63`.
pub proof fn lemma_universe_fits(u: int)
    requires
        valid_universe(u),
        u <= usize::MAX as int,
    ensures
        u <= 0x8000_0000_0000_0000,
        log2(u) <= 63,
{
    lemma_universe_pow2(u);
    let k = log2(u);
    if k > 63 {
        lemma_pow2_strictly_increases(63, k);
        vstd::arithmetic::power2::lemma2_to64_rest();
        assert(pow2(63) == 0x8000_0000_0000_0000);
        assert(u > 0x8000_0000_0000_0000);
        if k >= 64 {
            if k > 64 {
                lemma_pow2_strictly_increases(64, k);
            }
            assert(pow2(64) == 0x1_0000_0000_0000_0000) by {
                lemma2_to64();
            }
            assert(u >= 0x1_0000_0000_0000_0000);
            assert(u > usize::MAX as int);
        }
    } else {
        vstd::arithmetic::power2::lemma2_to64_rest();
        if k < 63 {
            lemma_pow2_strictly_increases(k, 63);
        }
        assert(pow2(63) == 0x8000_0000_0000_0000);
    }
}

} // verus!
