//! The learning-rate scheduler: a linear decay over total expected tokens,
//! with a positive floor so the rate never reaches zero mid-training.
use vstd::prelude::*;

verus! {

/// The scheduled rate (in micro units) after `processed` tokens of a run
/// over `epoch * train_tokens` expected tokens: `init_lr` scaled by the
/// remaining fraction, but never below the floor `max(init_lr/10000, 1)`.
pub open spec fn spec_rate(init_lr: u64, epoch: u32, train_tokens: u64, processed: u64) -> int {
    let denom = epoch as int * train_tokens as int + 1;
    let rem = if processed as int >= denom {
        0
    } else {
        denom - processed as int
    };
    let lin = (init_lr as int * rem) / denom;
    let fl = if init_lr as int / 10000 >= 1 {
        init_lr as int / 10000
    } else {
        1
    };
    if lin >= fl {
        lin
    } else {
        fl
    }
}

/// Computes the current rate; pinned to `spec_rate`.
pub fn current_rate(init_lr: u64, epoch: u32, train_tokens: u64, processed: u64) -> (r: u64)
    requires
        1 <= init_lr <= 1000000000,
    ensures
        r as int == spec_rate(init_lr, epoch, train_tokens, processed),
        1 <= r <= init_lr,
{
    proof {
        assert((epoch as int) * (train_tokens as int) <= 0xffffffff * 0xffffffffffffffff)
            by (nonlinear_arith)
            requires
                epoch <= 0xffffffffu32,
                train_tokens <= 0xffffffffffffffffu64,
        ;
    }
    let denom: u128 = (epoch as u128) * (train_tokens as u128) + 1;
    let rem: u128 = if (processed as u128) >= denom {
        0
    } else {
        denom - (processed as u128)
    };
    proof {
        assert((init_lr as int) * (rem as int) <= 1000000000 * (
        0xffffffff * 0xffffffffffffffff + 1)) by (nonlinear_arith)
            requires
                init_lr <= 1000000000,
                0 <= rem as int <= 0xffffffff * 0xffffffffffffffff + 1,
        ;
    }
    let lin: u128 = ((init_lr as u128) * rem) / denom;
    proof {
        assert(lin <= init_lr) by (nonlinear_arith)
            requires
                lin as int == ((init_lr as int) * (rem as int)) / (denom as int),
                rem <= denom,
                denom >= 1,
        ;
    }
    let fl: u64 = if init_lr / 10000 >= 1 {
        init_lr / 10000
    } else {
        1
    };
    if lin as u64 >= fl {
        lin as u64
    } else {
        fl
    }
}

/// The rate never increases as progress advances.
pub proof fn lemma_rate_monotone(init_lr: u64, epoch: u32, train_tokens: u64, p1: u64, p2: u64)
    requires
        p1 <= p2,
    ensures
        spec_rate(init_lr, epoch, train_tokens, p2) <= spec_rate(init_lr, epoch, train_tokens, p1),
{
    let denom = epoch as int * train_tokens as int + 1;
    let rem1 = if p1 as int >= denom {
        0
    } else {
        denom - p1 as int
    };
    let rem2 = if p2 as int >= denom {
        0
    } else {
        denom - p2 as int
    };
    assert(rem2 <= rem1);
    assert((init_lr as int * rem2) / denom <= (init_lr as int * rem1) / denom)
        by (nonlinear_arith)
        requires
            0 <= rem2 <= rem1,
            denom >= 1,
            init_lr >= 0,
    ;
}

/// The rate is always strictly positive.
pub proof fn lemma_rate_positive(init_lr: u64, epoch: u32, train_tokens: u64, p: u64)
    ensures
        spec_rate(init_lr, epoch, train_tokens, p) >= 1,
{
}

} // verus!
