//! Sampling tables derived from the vocabulary: the sub-sampling discard
//! probability and the smoothed unigram table for negative-sample draws.
use vstd::prelude::*;
use crate::fixedpoint::{isqrt_u128, lemma_isqrt_bounds, lemma_isqrt_monotone, spec_isqrt};
use crate::vocab::{sum_counts, GEntry, VocabEntry};

verus! {

/// Sub-sampling discard probability, in micro units, for a token occurring
/// `count` times among `train_tokens` training tokens, with threshold
/// `t_sub` (micro units): `1 - sqrt(t/f) - t/f` clamped to `[0, 1)`, where
/// `f = count / train_tokens`.
pub open spec fn spec_discard_prob(count: u64, train_tokens: u64, t_sub: u64) -> int {
    let tf = (t_sub as int * train_tokens as int) / count as int;
    let sq = spec_isqrt(tf * 1000000);
    let raw = 1000000 - sq - tf;
    if raw < 0 {
        0
    } else if raw > 999999 {
        999999
    } else {
        raw
    }
}

/// Computes the discard probability; pinned to `spec_discard_prob`.
pub fn discard_prob_micro(count: u64, train_tokens: u64, t_sub: u64) -> (p: u64)
    requires
        1 <= count <= train_tokens,
        t_sub < 1000000,
    ensures
        p as int == spec_discard_prob(count, train_tokens, t_sub),
        p < 1000000,
{
    proof {
        assert((t_sub as int) * (train_tokens as int) <= 1000000 * 0xffffffffffffffff)
            by (nonlinear_arith)
            requires
                t_sub <= 1000000,
                train_tokens <= 0xffffffffffffffffu64,
        ;
    }
    let tf: u128 = ((t_sub as u128) * (train_tokens as u128)) / (count as u128);
    proof {
        assert(tf as int <= (t_sub as int) * (train_tokens as int)) by (nonlinear_arith)
            requires
                tf as int == ((t_sub as int) * (train_tokens as int)) / (count as int),
                count >= 1,
                (t_sub as int) * (train_tokens as int) >= 0,
        ;
    }
    let sq: u128 = isqrt_u128(tf * 1000000);
    proof {
        lemma_isqrt_bounds(tf as int * 1000000);
        assert(sq as int == spec_isqrt(tf as int * 1000000));
    }
    if 1000000 > sq + tf {
        let raw: u128 = 1000000 - sq - tf;
        if raw > 999999 {
            999999
        } else {
            raw as u64
        }
    } else {
        0
    }
}

/// When a token's frequency is at or below the threshold, it is never
/// discarded: `f <= t_sub` (as rationals, `count * 1e6 <= t_sub * train`)
/// gives discard probability zero.
pub proof fn lemma_discard_zero_at_or_below_threshold(count: u64, train_tokens: u64, t_sub: u64)
    requires
        1 <= count <= train_tokens,
        t_sub < 1000000,
        count as int * 1000000 <= t_sub as int * train_tokens as int,
    ensures
        spec_discard_prob(count, train_tokens, t_sub) == 0,
{
    let tf = (t_sub as int * train_tokens as int) / count as int;
    assert(tf >= 1000000) by (nonlinear_arith)
        requires
            tf == (t_sub as int * train_tokens as int) / count as int,
            count as int * 1000000 <= t_sub as int * train_tokens as int,
            count >= 1,
    ;
    lemma_isqrt_bounds(tf * 1000000);
}

/// Beyond the threshold the discard probability grows with frequency:
/// a token seen at least as often is discarded at least as often.
pub proof fn lemma_discard_monotone(c1: u64, c2: u64, train_tokens: u64, t_sub: u64)
    requires
        1 <= c1 <= c2 <= train_tokens,
        t_sub < 1000000,
    ensures
        spec_discard_prob(c1, train_tokens, t_sub) <= spec_discard_prob(c2, train_tokens, t_sub),
{
    let w = t_sub as int * train_tokens as int;
    let tf1 = w / c1 as int;
    let tf2 = w / c2 as int;
    assert(tf2 <= tf1) by (nonlinear_arith)
        requires
            tf1 == w / c1 as int,
            tf2 == w / c2 as int,
            1 <= c1 as int <= c2 as int,
            w >= 0,
    ;
    assert(tf2 >= 0) by (nonlinear_arith)
        requires
            tf2 == w / c2 as int,
            w >= 0,
            c2 as int >= 1,
    ;
    lemma_isqrt_monotone(tf2 * 1000000, tf1 * 1000000);
}

/// The smoothing weight of one vocabulary entry: `count ^ 0.75`, realized
/// in integer arithmetic as `count * 256 / (count * 2^32)^(1/4)`.
pub open spec fn spec_unigram_weight(count: u64) -> int {
    let r4 = spec_isqrt(spec_isqrt(count as int * 4294967296));
    let d = if r4 >= 1 {
        r4
    } else {
        1
    };
    (count as int * 256) / d
}

/// Computes the smoothing weight; pinned to `spec_unigram_weight`.
pub fn unigram_weight(count: u64) -> (w: u64)
    requires
        count >= 1,
    ensures
        w as int == spec_unigram_weight(count),
        1 <= w <= count,
{
    let s1: u128 = isqrt_u128((count as u128) * 4294967296u128);
    let r4: u128 = isqrt_u128(s1);
    proof {
        // r4 >= 256 because (count * 2^32) >= 2^32 and 256^4 == 2^32.
        lemma_isqrt_monotone(4294967296, count as int * 4294967296);
        lemma_isqrt_bounds(4294967296);
        crate::fixedpoint::lemma_isqrt_unique(4294967296, 65536, spec_isqrt(4294967296));
        lemma_isqrt_monotone(65536, s1 as int);
        lemma_isqrt_bounds(65536);
        crate::fixedpoint::lemma_isqrt_unique(65536, 256, spec_isqrt(65536));
        assert(r4 >= 256);
        // r4 <= count * 256, so the weight is at least one.
        assert(r4 * r4 <= s1 && s1 * s1 <= count as int * 4294967296);
        assert(r4 <= count as int * 256) by (nonlinear_arith)
            requires
                r4 >= 1,
                count >= 1,
                r4 as int * r4 as int <= s1 as int,
                s1 as int * s1 as int <= count as int * 4294967296,
        ;
    }
    let w: u128 = ((count as u128) * 256) / r4;
    proof {
        assert(w >= 1) by (nonlinear_arith)
            requires
                w as int == ((count as int) * 256) / (r4 as int),
                r4 >= 1,
                (count as int) * 256 >= r4 as int,
        ;
        assert(w <= count) by (nonlinear_arith)
            requires
                w as int == ((count as int) * 256) / (r4 as int),
                r4 >= 256,
                count >= 1,
        ;
    }
    w as u64
}

/// Cumulative unigram weights of the first `i` entries.
pub open spec fn spec_weight_cum(cs: Seq<GEntry>, i: int) -> int
    decreases i,
{
    if i <= 0 {
        0
    } else {
        spec_weight_cum(cs, i - 1) + spec_unigram_weight(cs[i - 1].count as u64)
    }
}

/// The negative-sampling table: cumulative `count^0.75` weights over the
/// vocabulary, drawn from by binary search in the cumulative sums.
pub struct UnigramTable {
    pub cum: Vec<u64>,
}

impl UnigramTable {
    pub open spec fn wf(&self) -> bool {
        &&& self.cum.len() >= 1
        &&& forall|i: int| 0 <= i < self.cum.len() ==> #[trigger] self.cum@[i] > (if i == 0 {
            0
        } else {
            self.cum@[i - 1] as int
        })
    }

    /// Builds the table over the vocabulary entries (all counts in a
    /// vocabulary are at least one).
    pub fn build(entries: &Vec<VocabEntry>) -> (t: UnigramTable)
        requires
            entries.len() >= 1,
            forall|k: int| 0 <= k < entries.len() ==> 1 <= #[trigger] entries@[k].count,
            forall|k: int| 0 <= k < entries.len() ==> #[trigger] entries@[k]@.count
                == entries@[k].count as nat,
            sum_counts(entries.deep_view()) <= u64::MAX,
        ensures
            t.wf(),
            t.cum.len() == entries.len(),
            forall|i: int| 0 <= i < entries.len() ==> #[trigger] t.cum@[i] as int
                == spec_weight_cum(entries.deep_view(), i + 1),
    {
        let ghost cs = entries.deep_view();
        let mut cum: Vec<u64> = Vec::new();
        let mut total: u64 = 0;
        let mut i: usize = 0;
        while i < entries.len()
            invariant
                i <= entries.len(),
                cs == entries.deep_view(),
                forall|k: int| 0 <= k < entries.len() ==> 1 <= #[trigger] entries@[k].count,
                forall|k: int| 0 <= k < entries.len() ==> #[trigger] entries@[k]@.count
                    == entries@[k].count as nat,
                sum_counts(cs) <= u64::MAX,
                cum.len() == i,
                total as int == spec_weight_cum(cs, i as int),
                total as int <= sum_counts(cs.take(i as int)),
                forall|k: int| 0 <= k < i ==> #[trigger] cum@[k] as int == spec_weight_cum(
                    cs,
                    k + 1,
                ),
                forall|k: int| 0 <= k < i ==> #[trigger] cum@[k] > (if k == 0 {
                    0
                } else {
                    cum@[k - 1] as int
                }),
            decreases entries.len() - i,
        {
            proof {
                crate::vocab::lemma_sum_take(cs, i as int + 1);
                assert(cs.take(i as int + 1).drop_last() =~= cs.take(i as int));
                assert(cs.take(i as int + 1).last() == cs[i as int]);
            }
            let w = unigram_weight(entries[i].count);
            assert(w as int == spec_unigram_weight(cs[i as int].count as u64));
            total = total + w;
            cum.push(total);
            i = i + 1;
        }
        UnigramTable { cum }
    }

    /// Draws the index whose cumulative interval contains `r mod total`:
    /// index `k` is returned with probability `weight(k) / total`.
    #[verifier::rlimit(50)]
    pub fn draw(&self, r: u64) -> (k: usize)
        requires
            self.wf(),
        ensures
            k < self.cum.len(),
            ({
                let x = r as int % self.cum@[self.cum.len() - 1] as int;
                self.cum@[k as int] > x && (k == 0 || self.cum@[k as int - 1] <= x)
            }),
    {
        let n = self.cum.len();
        let total = self.cum[n - 1];
        let x = r % total;
        let mut lo: usize = 0;
        let mut hi: usize = n;
        while lo < hi
            invariant
                lo <= hi <= n,
                n == self.cum.len(),
                self.wf(),
                x < self.cum@[n - 1],
                lo > 0 ==> self.cum@[lo - 1] <= x,
                hi < n ==> self.cum@[hi as int] > x,
            decreases hi - lo,
        {
            let mid = lo + (hi - lo) / 2;
            if self.cum[mid] <= x {
                lo = mid + 1;
            } else {
                hi = mid;
            }
        }
        proof {
            if lo == n {
                assert(self.cum@[n - 1] <= x);
            }
        }
        lo
    }
}

} // verus!
