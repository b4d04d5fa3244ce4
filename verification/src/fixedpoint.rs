//! Fixed-point arithmetic primitives shared by the whole engine: a
//! deterministic pseudo-random generator, integer square root, saturation,
//! and a logistic (sigmoid) approximation.  Every function is pinned to a
//! spec-level mirror so that each numeric step of training is reproducible.
use vstd::prelude::*;

verus! {

/// One (1.0) in embedding fixed-point units.
pub const FP_ONE: i64 = 65536;

/// Embedding coordinates are saturated to this magnitude (64.0) after every
/// update, so the matrices stay within a provable range for all runs.
pub const VEC_LIMIT: i64 = 4194304;

/// One (probability 1.0) in micro units, used for probabilities and
/// learning rates.
pub const MICRO_ONE: u64 = 1000000;

/// One step of the 64-bit linear congruential generator that drives every
/// random decision of the engine (window radii, sub-sampling, negatives).
pub open spec fn spec_rng_next(s: u64) -> u64 {
    (((s as int) * 6364136223846793005 + 1442695040888963407) % 0x10000000000000000) as u64
}

/// Deterministic pseudo-random generator: identical seeds give identical
/// draw sequences, which makes single-threaded training reproducible.
pub struct Rng {
    pub state: u64,
}

impl Rng {
    pub fn new(seed: u64) -> (r: Rng)
        ensures
            r.state == seed,
    {
        Rng { state: seed }
    }

    pub fn next_u64(&mut self) -> (r: u64)
        ensures
            final(self).state == spec_rng_next(old(self).state),
            r == spec_rng_next(old(self).state),
    {
        let t: u128 = (self.state as u128) * 6364136223846793005u128 + 1442695040888963407u128;
        let v: u128 = t % 0x10000000000000000u128;
        assert(v < 0x10000000000000000);
        self.state = v as u64;
        self.state
    }

    /// A draw uniform-ish over `[0, n)` (modulo reduction of one step).
    pub fn next_below(&mut self, n: u64) -> (r: u64)
        requires
            n >= 1,
        ensures
            final(self).state == spec_rng_next(old(self).state),
            r == spec_rng_next(old(self).state) % n,
            r < n,
    {
        let v = self.next_u64();
        v % n
    }
}

/// Floor of the square root, pinned by its defining inequalities (which
/// have exactly one solution, see `lemma_isqrt_unique`).
pub open spec fn spec_isqrt(x: int) -> int {
    choose|r: int| 0 <= r && #[trigger] (r * r) <= x < (r + 1) * (r + 1)
}

/// The two inequalities `r*r <= x < (r+1)*(r+1)` determine `r`.
pub proof fn lemma_isqrt_unique(x: int, r1: int, r2: int)
    requires
        0 <= r1,
        r1 * r1 <= x < (r1 + 1) * (r1 + 1),
        0 <= r2,
        r2 * r2 <= x < (r2 + 1) * (r2 + 1),
    ensures
        r1 == r2,
{
    if r1 < r2 {
        assert((r1 + 1) * (r1 + 1) <= r2 * r2) by (nonlinear_arith)
            requires
                0 <= r1,
                r1 + 1 <= r2,
        ;
    }
    if r2 < r1 {
        assert((r2 + 1) * (r2 + 1) <= r1 * r1) by (nonlinear_arith)
            requires
                0 <= r2,
                r2 + 1 <= r1,
        ;
    }
}

/// `spec_isqrt` satisfies its defining inequalities for any non-negative
/// argument.
pub proof fn lemma_isqrt_bounds(x: int)
    requires
        x >= 0,
    ensures
        0 <= spec_isqrt(x),
        spec_isqrt(x) * spec_isqrt(x) <= x,
        x < (spec_isqrt(x) + 1) * (spec_isqrt(x) + 1),
    decreases x,
{
    if x == 0 {
        assert(0 * 0 <= x && x < (0 + 1) * (0 + 1)) by (nonlinear_arith)
            requires
                x == 0,
        ;
        assert(exists|r: int| 0 <= r && #[trigger] (r * r) <= x && x < (r + 1) * (r + 1));
    } else {
        lemma_isqrt_bounds(x - 1);
        let r = spec_isqrt(x - 1);
        if x == (r + 1) * (r + 1) {
            assert((r + 1) * (r + 1) <= x && x < (r + 2) * (r + 2)) by (nonlinear_arith)
                requires
                    x == (r + 1) * (r + 1),
                    r >= 0,
            ;
            let w = r + 1;
            assert(0 <= w && w * w <= x && x < (w + 1) * (w + 1));
        } else {
            assert(0 <= r && r * r <= x && x < (r + 1) * (r + 1));
        }
        assert(exists|q: int| 0 <= q && #[trigger] (q * q) <= x && x < (q + 1) * (q + 1));
    }
}

/// The integer square root is monotone.
pub proof fn lemma_isqrt_monotone(a: int, b: int)
    requires
        0 <= a <= b,
    ensures
        spec_isqrt(a) <= spec_isqrt(b),
{
    lemma_isqrt_bounds(a);
    lemma_isqrt_bounds(b);
    let ra = spec_isqrt(a);
    let rb = spec_isqrt(b);
    if ra > rb {
        assert((rb + 1) * (rb + 1) <= ra * ra) by (nonlinear_arith)
            requires
                0 <= rb,
                rb + 1 <= ra,
        ;
    }
}

/// Integer square root by binary search.
pub fn isqrt_u128(x: u128) -> (r: u128)
    ensures
        r * r <= x < (r + 1) * (r + 1),
        r <= 0x10000000000000000u128,
        r as int == spec_isqrt(x as int),
{
    let mut lo: u128 = 0;
    let mut hi: u128 = 0x10000000000000000u128;
    assert(x < hi * hi) by (nonlinear_arith)
        requires
            hi == 0x10000000000000000u128,
            x <= u128::MAX,
    ;
    while lo + 1 < hi
        invariant
            lo < hi,
            hi <= 0x10000000000000000u128,
            lo * lo <= x,
            x < hi * hi,
        decreases hi - lo,
    {
        let mid: u128 = lo + (hi - lo) / 2;
        assert(mid * mid < 0x100000000000000000000000000000000) by (nonlinear_arith)
            requires
                mid < 0x10000000000000000u128,
        ;
        let mm: u128 = mid * mid;
        if mm <= x {
            lo = mid;
        } else {
            hi = mid;
        }
    }
    assert(hi == lo + 1);
    proof {
        let w = lo as int;
        assert(0 <= w && w * w <= x as int && (x as int) < (w + 1) * (w + 1));
        assert(exists|r: int| 0 <= r && #[trigger] (r * r) <= x as int && (x as int) < (r + 1) * (
        r + 1));
        lemma_isqrt_unique(x as int, w, spec_isqrt(x as int));
    }
    lo
}

pub open spec fn spec_abs(x: int) -> int {
    if x >= 0 {
        x
    } else {
        -x
    }
}

pub fn abs_i64(x: i64) -> (r: u64)
    ensures
        r as int == spec_abs(x as int),
{
    if x >= 0 {
        x as u64
    } else {
        let w: i128 = -(x as i128);
        w as u64
    }
}

/// Saturation of an update result to the coordinate range.
pub open spec fn spec_clamp(v: int) -> int {
    if v > 4194304 {
        4194304
    } else if v < -4194304 {
        -4194304
    } else {
        v
    }
}

pub fn clamp_i128(v: i128) -> (r: i64)
    ensures
        r as int == spec_clamp(v as int),
        -4194304 <= r <= 4194304,
{
    if v > 4194304 {
        4194304
    } else if v < -4194304 {
        -4194304
    } else {
        v as i64
    }
}

/// Fixed-point product `a * b / FP_ONE`, truncated toward zero.
pub open spec fn spec_mul_fp(a: int, b: int) -> int {
    let p = a * b;
    if p >= 0 {
        p / 65536
    } else {
        -((-p) / 65536)
    }
}

pub fn mul_fp(a: i64, b: i64) -> (r: i64)
    requires
        spec_abs(a as int) <= 0x2000000000,
        spec_abs(b as int) <= 0x2000000000,
    ensures
        r as int == spec_mul_fp(a as int, b as int),
        spec_abs(r as int) * 65536 <= spec_abs((a as int) * (b as int)),
{
    proof {
        assert(spec_abs((a as int) * (b as int)) <= 0x2000000000 * 0x2000000000)
            by (nonlinear_arith)
            requires
                spec_abs(a as int) <= 0x2000000000,
                spec_abs(b as int) <= 0x2000000000,
        ;
    }
    let p: i128 = (a as i128) * (b as i128);
    if p >= 0 {
        let q: i128 = p / 65536;
        q as i64
    } else {
        let q: i128 = (-p) / 65536;
        -(q as i64)
    }
}

/// Fixed-point logistic approximation `1/2 + x / (2 * (1 + |x|))`,
/// symmetric around zero, strictly inside `(0, 1)`.
pub open spec fn spec_sigmoid_fp(x: int) -> int {
    let t = spec_abs(x);
    let pos = (t * 65536) / (2 * (65536 + t));
    if x >= 0 {
        32768 + pos
    } else {
        32768 - pos
    }
}

pub fn sigmoid_fp(x: i64) -> (r: i64)
    requires
        spec_abs(x as int) <= 393216,
    ensures
        r as int == spec_sigmoid_fp(x as int),
        0 < r < 65536,
{
    let t: u64 = abs_i64(x);
    let num: u64 = t * 65536;
    let den: u64 = 2 * (65536 + t);
    let pos: u64 = num / den;
    proof {
        assert(num < 32768 * den);
        assert(num / den < 32768) by (nonlinear_arith)
            requires
                num < 32768 * den,
                den > 0,
        ;
    }
    if x >= 0 {
        32768 + pos as i64
    } else {
        32768 - pos as i64
    }
}

} // verus!
