//! The training engine: configuration, the per-pair gradient steps for
//! both losses, the context-window loop over the corpus, and the final
//! export of the trained vectors.
//!
//! The engine trains in-process (deterministically for a fixed seed); the
//! shared-progress counter and learning-rate schedule follow the verified
//! scheduler in `rate`.
use vstd::prelude::*;
use crate::embedding::{
    add_scaled, dot_rows, lr_to_fp, row_ok, EmbeddingStore,
};
use crate::errors::TrainError;
use crate::fixedpoint::{mul_fp, sigmoid_fp, spec_abs, Rng};
use crate::huffman::{lemma_sum_range_end, lemma_sum_range_push, path_ok, sum_range, HuffmanTree};
use crate::rate::current_rate;
use crate::sampling::{discard_prob_micro, UnigramTable};
use crate::tokenize::tokenize;
use crate::vocab::{
    counted_of, eff_min, find_token, lemma_sort_sum, lemma_sum_counted, lemma_sum_counts_elem,
    lemma_sum_counts_len, lemma_sum_pruned, lemma_vocab_entry_counts, pruned_of, spec_all_tokens,
    spec_vocab_entries, sum_counts, VocabEntry, Vocabulary,
};

verus! {

/// Context-aggregation strategy.
#[derive(Clone, Copy, Debug, PartialEq, Eq, Structural)]
pub enum Method {
    Cbow,
    Skipgram,
}

/// Loss strategy.
#[derive(Clone, Copy, Debug, PartialEq, Eq, Structural)]
pub enum Loss {
    Negative,
    Hierarchical,
}

/// The validated configuration record handed in by the front end.
/// Probabilities and rates are in micro units (1000000 = 1.0).
pub struct TrainConfig {
    pub method: Method,
    pub loss: Loss,
    /// initial learning rate, micro units; must be positive
    pub init_lr: u64,
    /// tokens between learning-rate refreshes
    pub lr_update_rate: u64,
    /// dimensionality of the vectors
    pub dim: usize,
    /// context window radius bound
    pub windows: u32,
    /// number of passes over the corpus
    pub epoch: u32,
    /// minimal retained token count
    pub min_count: u64,
    /// negative samples per target (negative-sampling loss only)
    pub negatives: u32,
    /// sub-sampling threshold, micro units; zero disables sub-sampling
    pub t_sub: u64,
    /// worker count honored by the caller's scheduling
    pub threads: u32,
    /// seed of the deterministic pseudo-random generator
    pub seed: u64,
}

impl TrainConfig {
    /// Machine limits and the positivity the interface demands (except
    /// `init_lr`, whose violation is reported as `InvalidRate`).
    pub open spec fn valid(&self) -> bool {
        &&& 1 <= self.dim <= 1048576
        &&& 1 <= self.windows <= 1073741824
        &&& self.epoch >= 1
        &&& self.lr_update_rate >= 1
        &&& self.t_sub < 1000000
        &&& self.init_lr <= 1000000000
        &&& self.threads >= 1
    }
}

/// Which sampling structures the chosen loss needs, and how the output
/// matrix is sized: one row per token for negative sampling, one row per
/// internal tree node for hierarchical softmax.
pub open spec fn aux_ok(
    loss: Loss,
    table: &Option<UnigramTable>,
    tree: &Option<HuffmanTree>,
    n: int,
    out_n: int,
) -> bool {
    &&& (loss == Loss::Negative ==> out_n == n && match table {
        Some(t) => t.wf() && t.cum.len() == n,
        None => false,
    })
    &&& (loss == Loss::Hierarchical ==> out_n == n - 1 && n >= 2 && match tree {
        Some(t) => t.wf() && t.n_leaves == n,
        None => false,
    })
}

/// One logistic gradient step against `output[wi]` with the given label:
/// both the output row and the accumulated input gradient move by
/// `(label - sigmoid(hidden . output[wi])) * lr`.
fn logistic_step(
    hidden: &Vec<i64>,
    neu1e: &mut Vec<i64>,
    output: &mut Vec<Vec<i64>>,
    dim: usize,
    wi: usize,
    label: i64,
    lr_fp: i64,
)
    requires
        dim >= 1,
        row_ok(hidden@, dim as int),
        row_ok(old(neu1e)@, dim as int),
        forall|i: int|
            0 <= i < old(output).len() ==> row_ok(#[trigger] old(output)@[i]@, dim as int),
        wi < old(output).len(),
        label == 0 || label == 65536,
        0 <= lr_fp <= 65536000,
    ensures
        final(output).len() == old(output).len(),
        forall|i: int|
            0 <= i < final(output).len() ==> row_ok(#[trigger] final(output)@[i]@, dim as int),
        row_ok(final(neu1e)@, dim as int),
{
    let f = dot_rows(hidden, &output[wi]);
    let s = sigmoid_fp(f);
    let g = mul_fp(label - s, lr_fp);
    proof {
        assert(spec_abs((label - s) as int * lr_fp as int) <= 65536 * 65536000)
            by (nonlinear_arith)
            requires
                spec_abs((label - s) as int) <= 65536,
                0 <= lr_fp as int <= 65536000,
        ;
    }
    add_scaled(neu1e, &output[wi], g);
    add_scaled(&mut output[wi], hidden, g);
    proof {
        assert forall|i: int| 0 <= i < output.len() implies row_ok(
            #[trigger] output@[i]@,
            dim as int,
        ) by {
            if i != wi {
                assert(output@[i] == old(output)@[i]);
            }
        }
    }
}

/// Negative-sampling loss: one positive update against the target's
/// output row, plus `negatives` updates with label 0 against drawn rows.
/// A draw equal to the target is rejected and redrawn (bounded retries);
/// it is never counted as a valid negative.
fn step_negative(
    hidden: &Vec<i64>,
    neu1e: &mut Vec<i64>,
    output: &mut Vec<Vec<i64>>,
    dim: usize,
    target: usize,
    negatives: u32,
    table: &UnigramTable,
    rng: &mut Rng,
    lr_fp: i64,
)
    requires
        dim >= 1,
        row_ok(hidden@, dim as int),
        row_ok(old(neu1e)@, dim as int),
        forall|i: int|
            0 <= i < old(output).len() ==> row_ok(#[trigger] old(output)@[i]@, dim as int),
        target < old(output).len(),
        table.wf(),
        table.cum.len() == old(output).len(),
        0 <= lr_fp <= 65536000,
    ensures
        final(output).len() == old(output).len(),
        forall|i: int|
            0 <= i < final(output).len() ==> row_ok(#[trigger] final(output)@[i]@, dim as int),
        row_ok(final(neu1e)@, dim as int),
{
    let rounds: u64 = (negatives as u64) + 1;
    let mut d: u64 = 0;
    while d < rounds
        invariant
            dim >= 1,
            row_ok(hidden@, dim as int),
            row_ok(neu1e@, dim as int),
            output.len() == old(output).len(),
            forall|i: int| 0 <= i < output.len() ==> row_ok(#[trigger] output@[i]@, dim as int),
            target < output.len(),
            table.wf(),
            table.cum.len() == output.len(),
            0 <= lr_fp <= 65536000,
        decreases rounds - d,
    {
        let mut wi: usize = target;
        let mut label: i64 = 65536;
        let mut do_update = true;
        if d > 0 {
            let mut cand = table.draw(rng.next_u64());
            let mut t: usize = 0;
            while cand == target && t < 32
                invariant
                    cand < table.cum.len(),
                    table.wf(),
                    t <= 32,
                decreases 32 - t,
            {
                cand = table.draw(rng.next_u64());
                t = t + 1;
            }
            if cand == target {
                do_update = false;
            } else {
                wi = cand;
                label = 0;
            }
        }
        if do_update {
            logistic_step(hidden, neu1e, output, dim, wi, label, lr_fp);
        }
        d = d + 1;
    }
}

/// Hierarchical-softmax loss: walks the target leaf's precomputed code
/// and point path from the root, applying one logistic step per internal
/// node with the code bit as the label.
fn step_hierarchical(
    hidden: &Vec<i64>,
    neu1e: &mut Vec<i64>,
    output: &mut Vec<Vec<i64>>,
    dim: usize,
    target: usize,
    tree: &HuffmanTree,
    lr_fp: i64,
)
    requires
        dim >= 1,
        row_ok(hidden@, dim as int),
        row_ok(old(neu1e)@, dim as int),
        forall|i: int|
            0 <= i < old(output).len() ==> row_ok(#[trigger] old(output)@[i]@, dim as int),
        tree.wf(),
        target < tree.n_leaves,
        old(output).len() == tree.n_leaves - 1,
        0 <= lr_fp <= 65536000,
    ensures
        final(output).len() == old(output).len(),
        forall|i: int|
            0 <= i < final(output).len() ==> row_ok(#[trigger] final(output)@[i]@, dim as int),
        row_ok(final(neu1e)@, dim as int),
{
    proof {
        assert(path_ok(
            tree.left@,
            tree.right@,
            tree.n_leaves as int,
            tree.codes@[target as int]@,
            tree.points@[target as int]@,
            target as int,
        ));
    }
    let n = tree.n_leaves;
    let code = &tree.codes[target];
    let point = &tree.points[target];
    let mut j: usize = 0;
    while j < code.len()
        invariant
            dim >= 1,
            row_ok(hidden@, dim as int),
            row_ok(neu1e@, dim as int),
            output.len() == old(output).len(),
            forall|i: int| 0 <= i < output.len() ==> row_ok(#[trigger] output@[i]@, dim as int),
            output.len() == n - 1,
            n == tree.n_leaves,
            n >= 2,
            code@ == tree.codes@[target as int]@,
            point@ == tree.points@[target as int]@,
            code.len() == point.len(),
            forall|t: int| 0 <= t < point.len() ==> n <= #[trigger] point@[t] < 2 * n - 1,
            0 <= lr_fp <= 65536000,
        decreases code.len() - j,
    {
        let node = point[j];
        let wi = node - n;
        let label: i64 = if code[j] {
            0
        } else {
            65536
        };
        logistic_step(hidden, neu1e, output, dim, wi, label, lr_fp);
        j = j + 1;
    }
}

/// Adds a row into an accumulator without scaling (context averaging).
fn add_raw(acc: &mut Vec<i64>, row: &Vec<i64>, bound: u64)
    requires
        old(acc).len() == row.len(),
        bound <= 0x200000000,
        forall|k: int|
            0 <= k < old(acc).len() ==> spec_abs(#[trigger] old(acc)@[k] as int) <= bound as int
                * 4194304,
        forall|k: int| 0 <= k < row.len() ==> -4194304 <= #[trigger] row@[k] <= 4194304,
    ensures
        final(acc).len() == old(acc).len(),
        forall|k: int|
            0 <= k < final(acc).len() ==> #[trigger] final(acc)@[k] as int == old(acc)@[k] + row@[k],
{
    let mut k: usize = 0;
    while k < acc.len()
        invariant
            k <= acc.len(),
            acc.len() == old(acc).len(),
            acc.len() == row.len(),
            bound <= 0x200000000,
            forall|j: int|
                k <= j < acc.len() ==> spec_abs(#[trigger] acc@[j] as int) <= bound as int
                    * 4194304,
            forall|j: int| k <= j < acc.len() ==> #[trigger] acc@[j] == old(acc)@[j],
            forall|j: int| 0 <= j < row.len() ==> -4194304 <= #[trigger] row@[j] <= 4194304,
            forall|j: int| 0 <= j < k ==> #[trigger] acc@[j] as int == old(acc)@[j] + row@[j],
        decreases acc.len() - k,
    {
        let v = acc[k] + row[k];
        acc[k] = v;
        k = k + 1;
    }
}

/// Divides an accumulator by the number of contributing rows, restoring
/// the coordinate range.
fn div_raw(acc: &mut Vec<i64>, cnt: u64)
    requires
        1 <= cnt <= 0x200000000,
        forall|k: int|
            0 <= k < old(acc).len() ==> spec_abs(#[trigger] old(acc)@[k] as int) <= cnt as int
                * 4194304,
    ensures
        final(acc).len() == old(acc).len(),
        row_ok(final(acc)@, old(acc).len() as int),
{
    let mut k: usize = 0;
    while k < acc.len()
        invariant
            k <= acc.len(),
            acc.len() == old(acc).len(),
            1 <= cnt <= 0x200000000,
            forall|j: int|
                k <= j < acc.len() ==> spec_abs(#[trigger] acc@[j] as int) <= cnt as int * 4194304,
            forall|j: int| 0 <= j < k ==> -4194304 <= #[trigger] acc@[j] <= 4194304,
        decreases acc.len() - k,
    {
        let a = acc[k];
        let mag: i64 = if a >= 0 {
            a
        } else {
            -a
        };
        let q: i64 = mag / (cnt as i64);
        proof {
            assert(0 <= q as int <= 4194304) by (nonlinear_arith)
                requires
                    q as int == mag as int / cnt as int,
                    0 <= mag as int <= cnt as int * 4194304,
                    1 <= cnt as int,
            ;
        }
        let v: i64 = if a >= 0 {
            q
        } else {
            -q
        };
        acc[k] = v;
        k = k + 1;
    }
}

/// One skip-gram pair: the center token `a` is the input, `target` the
/// predicted token; the accumulated gradient is applied to `input[a]`.
fn update_pair_sg(
    store: &mut EmbeddingStore,
    a: usize,
    target: usize,
    loss: Loss,
    table: &Option<UnigramTable>,
    tree: &Option<HuffmanTree>,
    negatives: u32,
    rng: &mut Rng,
    lr: u64,
)
    requires
        old(store).wf(),
        a < old(store).input.len(),
        target < old(store).input.len(),
        aux_ok(
            loss,
            table,
            tree,
            old(store).input.len() as int,
            old(store).output.len() as int,
        ),
        lr <= 1000000000,
    ensures
        final(store).wf(),
        final(store).dim == old(store).dim,
        final(store).input.len() == old(store).input.len(),
        final(store).output.len() == old(store).output.len(),
{
    let dim = store.dim;
    let lr_fp = lr_to_fp(lr);
    let mut neu1e = EmbeddingStore::zero_row(dim);
    match loss {
        Loss::Negative => {
            match table {
                Some(tb) => {
                    step_negative(
                        &store.input[a],
                        &mut neu1e,
                        &mut store.output,
                        dim,
                        target,
                        negatives,
                        tb,
                        rng,
                        lr_fp,
                    );
                },
                None => {
                    proof {
                        assert(false);
                    }
                },
            }
        },
        Loss::Hierarchical => {
            match tree {
                Some(tr) => {
                    step_hierarchical(
                        &store.input[a],
                        &mut neu1e,
                        &mut store.output,
                        dim,
                        target,
                        tr,
                        lr_fp,
                    );
                },
                None => {
                    proof {
                        assert(false);
                    }
                },
            }
        },
    }
    add_scaled(&mut store.input[a], &neu1e, 65536);
    proof {
        assert forall|i: int| 0 <= i < store.input.len() implies row_ok(
            #[trigger] store.input@[i]@,
            dim as int,
        ) by {
            if i != a {
                assert(store.input@[i] == old(store).input@[i]);
            }
        }
    }
}

/// One CBOW center: the context rows in `sent[lo..=hi]` (skipping `i`)
/// are averaged into a hidden vector, the loss is applied against the
/// center token, and the gradient is distributed equally back to every
/// contributing context row.
fn update_center_cbow(
    store: &mut EmbeddingStore,
    sent: &Vec<usize>,
    i: usize,
    lo: usize,
    hi: usize,
    loss: Loss,
    table: &Option<UnigramTable>,
    tree: &Option<HuffmanTree>,
    negatives: u32,
    rng: &mut Rng,
    lr: u64,
)
    requires
        old(store).wf(),
        forall|x: int| 0 <= x < sent.len() ==> #[trigger] sent@[x] < old(store).input.len(),
        lo <= i < sent.len(),
        lo <= hi < sent.len(),
        hi - lo < 0x200000000,
        aux_ok(
            loss,
            table,
            tree,
            old(store).input.len() as int,
            old(store).output.len() as int,
        ),
        lr <= 1000000000,
    ensures
        final(store).wf(),
        final(store).dim == old(store).dim,
        final(store).input.len() == old(store).input.len(),
        final(store).output.len() == old(store).output.len(),
{
    let dim = store.dim;
    let lr_fp = lr_to_fp(lr);
    let mut acc = EmbeddingStore::zero_row(dim);
    let mut cnt: u64 = 0;
    let mut j: usize = lo;
    while j <= hi
        invariant
            lo <= j,
            j <= hi + 1,
            hi < sent.len(),
            store.wf(),
            store.dim == dim,
            store == old(store),
            forall|x: int| 0 <= x < sent.len() ==> #[trigger] sent@[x] < store.input.len(),
            acc.len() == dim,
            cnt <= j - lo,
            hi - lo < 0x200000000,
            forall|k: int|
                0 <= k < acc.len() ==> spec_abs(#[trigger] acc@[k] as int) <= cnt as int * 4194304,
        decreases hi + 1 - j,
    {
        if j != i {
            add_raw(&mut acc, &store.input[sent[j]], cnt + 1);
            cnt = cnt + 1;
        }
        j = j + 1;
    }
    if cnt == 0 {
        return ;
    }
    div_raw(&mut acc, cnt);
    let target = sent[i];
    let mut neu1e = EmbeddingStore::zero_row(dim);
    match loss {
        Loss::Negative => {
            match table {
                Some(tb) => {
                    step_negative(
                        &acc,
                        &mut neu1e,
                        &mut store.output,
                        dim,
                        target,
                        negatives,
                        tb,
                        rng,
                        lr_fp,
                    );
                },
                None => {
                    proof {
                        assert(false);
                    }
                },
            }
        },
        Loss::Hierarchical => {
            match tree {
                Some(tr) => {
                    step_hierarchical(&acc, &mut neu1e, &mut store.output, dim, target, tr, lr_fp);
                },
                None => {
                    proof {
                        assert(false);
                    }
                },
            }
        },
    }
    let mut j2: usize = lo;
    while j2 <= hi
        invariant
            lo <= j2,
            j2 <= hi + 1,
            hi < sent.len(),
            store.wf(),
            store.dim == dim,
            store.input.len() == old(store).input.len(),
            store.output.len() == old(store).output.len(),
            forall|x: int| 0 <= x < sent.len() ==> #[trigger] sent@[x] < store.input.len(),
            row_ok(neu1e@, dim as int),
        decreases hi + 1 - j2,
    {
        if j2 != i {
            let c = sent[j2];
            add_scaled(&mut store.input[c], &neu1e, 65536);
            proof {
                assert forall|x: int| 0 <= x < store.input.len() implies row_ok(
                    #[trigger] store.input@[x]@,
                    dim as int,
                ) by {
                }
            }
        }
        j2 = j2 + 1;
    }
}

/// Runs `epoch` passes over the corpus: per sentence, sub-sampled
/// surviving token indices are collected (the progress counter advances
/// once per kept token), then an asymmetric random window around each
/// position drives the selected method and loss.  The learning rate is
/// refreshed from the verified scheduler every `lr_update_rate` kept
/// tokens.
#[verifier::rlimit(80)]
fn train_corpus(
    store: &mut EmbeddingStore,
    entries: &Vec<VocabEntry>,
    train_tokens: u64,
    corpus: &Vec<Vec<u8>>,
    method: Method,
    loss: Loss,
    table: &Option<UnigramTable>,
    tree: &Option<HuffmanTree>,
    init_lr: u64,
    lr_update_rate: u64,
    windows: u32,
    epoch: u32,
    negatives: u32,
    t_sub: u64,
    rng: &mut Rng,
)
    requires
        old(store).wf(),
        old(store).input.len() == entries.len(),
        entries.len() >= 1,
        train_tokens >= 1,
        forall|k: int|
            0 <= k < entries.len() ==> 1 <= (#[trigger] entries@[k].count) && entries@[k].count
                <= train_tokens,
        aux_ok(loss, table, tree, entries.len() as int, old(store).output.len() as int),
        1 <= init_lr <= 1000000000,
        lr_update_rate >= 1,
        1 <= windows <= 1073741824,
        epoch >= 1,
        t_sub < 1000000,
    ensures
        final(store).wf(),
        final(store).dim == old(store).dim,
        final(store).input.len() == old(store).input.len(),
        final(store).output.len() == old(store).output.len(),
{
    let n = entries.len();
    let ghost out_n = old(store).output.len() as int;
    let ghost dim0 = old(store).dim;
    let mut processed: u64 = 0;
    let mut since: u64 = 0;
    let mut cur_lr: u64 = current_rate(init_lr, epoch, train_tokens, 0);
    let mut e: u32 = 0;
    while e < epoch
        invariant
            store.wf(),
            store.dim == dim0,
            store.input.len() == n,
            store.output.len() == out_n,
            n == entries.len(),
            n >= 1,
            train_tokens >= 1,
            forall|k: int|
                0 <= k < entries.len() ==> 1 <= (#[trigger] entries@[k].count) && entries@[k].count
                    <= train_tokens,
            aux_ok(loss, table, tree, n as int, out_n),
            1 <= init_lr <= 1000000000,
            lr_update_rate >= 1,
            1 <= windows <= 1073741824,
            t_sub < 1000000,
            1 <= cur_lr <= init_lr,
            since <= lr_update_rate,
        decreases epoch - e,
    {
        let mut si: usize = 0;
        while si < corpus.len()
            invariant
                store.wf(),
                store.dim == dim0,
                store.input.len() == n,
                store.output.len() == out_n,
                n == entries.len(),
                n >= 1,
                train_tokens >= 1,
                forall|k: int|
                    0 <= k < entries.len() ==> 1 <= (#[trigger] entries@[k].count)
                        && entries@[k].count <= train_tokens,
                aux_ok(loss, table, tree, n as int, out_n),
                1 <= init_lr <= 1000000000,
                lr_update_rate >= 1,
                1 <= windows <= 1073741824,
                t_sub < 1000000,
                1 <= cur_lr <= init_lr,
                since <= lr_update_rate,
            decreases corpus.len() - si,
        {
            let toks = tokenize(&corpus[si]);
            let mut sent: Vec<usize> = Vec::new();
            let mut ti: usize = 0;
            while ti < toks.len()
                invariant
                    ti <= toks.len(),
                    n == entries.len(),
                    n >= 1,
                    train_tokens >= 1,
                    forall|k: int|
                        0 <= k < entries.len() ==> 1 <= (#[trigger] entries@[k].count)
                            && entries@[k].count <= train_tokens,
                    1 <= init_lr <= 1000000000,
                    lr_update_rate >= 1,
                    t_sub < 1000000,
                    1 <= cur_lr <= init_lr,
                    since <= lr_update_rate,
                    forall|x: int| 0 <= x < sent.len() ==> (#[trigger] sent@[x] as int) < n,
                decreases toks.len() - ti,
            {
                match find_token(entries, &toks[ti]) {
                    Some(k) => {
                        let c = entries[k].count;
                        // a zero threshold disables sub-sampling
                        let keep: bool = if t_sub > 0 {
                            let p = discard_prob_micro(c, train_tokens, t_sub);
                            let dr = rng.next_below(1000000);
                            dr >= p
                        } else {
                            true
                        };
                        if keep {
                            sent.push(k);
                            if processed < 0xffffffffffffffffu64 {
                                processed = processed + 1;
                            }
                            if since < lr_update_rate {
                                since = since + 1;
                            }
                            if since >= lr_update_rate {
                                cur_lr = current_rate(init_lr, epoch, train_tokens, processed);
                                since = 0;
                            }
                        }
                    },
                    None => {},
                }
                ti = ti + 1;
            }
            let mut i: usize = 0;
            while i < sent.len()
                invariant
                    i <= sent.len(),
                    store.wf(),
                    store.dim == dim0,
                    store.input.len() == n,
                    store.output.len() == out_n,
                    n == entries.len(),
                    n >= 1,
                    aux_ok(loss, table, tree, n as int, out_n),
                    1 <= init_lr <= 1000000000,
                    1 <= windows <= 1073741824,
                    1 <= cur_lr <= init_lr,
                    forall|x: int| 0 <= x < sent.len() ==> (#[trigger] sent@[x] as int) < n,
                decreases sent.len() - i,
            {
                let rdraw = rng.next_below(windows as u64);
                let rw = (rdraw as usize) + 1;
                let lo = if i > rw {
                    i - rw
                } else {
                    0
                };
                let hi = if sent.len() - 1 - i < rw {
                    sent.len() - 1
                } else {
                    i + rw
                };
                match method {
                    Method::Skipgram => {
                        let mut j: usize = lo;
                        while j <= hi
                            invariant
                                lo <= j,
                                j <= hi + 1,
                                hi < sent.len(),
                                i < sent.len(),
                                store.wf(),
                                store.dim == dim0,
                                store.input.len() == n,
                                store.output.len() == out_n,
                                n == entries.len(),
                                aux_ok(loss, table, tree, n as int, out_n),
                                1 <= cur_lr <= init_lr <= 1000000000,
                                forall|x: int|
                                    0 <= x < sent.len() ==> (#[trigger] sent@[x] as int) < n,
                            decreases hi + 1 - j,
                        {
                            if j != i {
                                update_pair_sg(
                                    store,
                                    sent[i],
                                    sent[j],
                                    loss,
                                    table,
                                    tree,
                                    negatives,
                                    rng,
                                    cur_lr,
                                );
                            }
                            j = j + 1;
                        }
                    },
                    Method::Cbow => {
                        update_center_cbow(
                            store,
                            &sent,
                            i,
                            lo,
                            hi,
                            loss,
                            table,
                            tree,
                            negatives,
                            rng,
                            cur_lr,
                        );
                    },
                }
                i = i + 1;
            }
            si = si + 1;
        }
        e = e + 1;
    }
}

/// A trained model: the vocabulary, the embedding store whose `input`
/// matrix is the artifact, and the Huffman tree when one was built.
pub struct Model {
    pub vocab: Vocabulary,
    pub store: EmbeddingStore,
    pub tree: Option<HuffmanTree>,
}

/// Trains embeddings over the corpus.  Fatal conditions are checked in
/// order: a non-positive learning rate, an empty post-pruning vocabulary,
/// and a hierarchical-softmax request over fewer than two tokens; on any
/// of them no training happens.
pub fn run(config: &TrainConfig, corpus: &Vec<Vec<u8>>) -> (r: Result<Model, TrainError>)
    requires
        config.valid(),
        spec_all_tokens(corpus.deep_view()).len() < 0x1000000000000000,
    ensures
        ({
            let vs = spec_vocab_entries(corpus.deep_view(), config.min_count);
            &&& ((r matches Err(TrainError::InvalidRate)) <==> config.init_lr == 0)
            &&& ((r matches Err(TrainError::EmptyVocabulary)) <==> (config.init_lr >= 1
                && vs.len() == 0))
            &&& ((r matches Err(TrainError::InvalidVocabulary)) <==> (config.init_lr >= 1
                && vs.len() == 1 && config.loss == Loss::Hierarchical))
            &&& ((r is Ok) <==> (config.init_lr >= 1 && vs.len() >= 1 && (config.loss
                == Loss::Hierarchical ==> vs.len() >= 2)))
            &&& (r matches Err(e) ==> (e == TrainError::InvalidRate
                || e == TrainError::EmptyVocabulary || e == TrainError::InvalidVocabulary))
            &&& (r matches Ok(m) ==> {
                &&& m.vocab.wf(corpus.deep_view(), config.min_count)
                &&& m.store.wf()
                &&& m.store.dim == config.dim
                &&& m.store.input.len() == m.vocab.entries.len()
                &&& m.store.output.len() as int == (if config.loss == Loss::Hierarchical {
                    m.vocab.entries.len() - 1
                } else {
                    m.vocab.entries.len() as int
                })
                &&& (config.loss == Loss::Hierarchical ==> (m.tree matches Some(t) && t.wf()
                    && t.n_leaves == m.vocab.entries.len()))
            })
        }),
{
    if config.init_lr == 0 {
        return Err(TrainError::InvalidRate);
    }
    let vocab = match Vocabulary::build(corpus, config.min_count) {
        Ok(v) => v,
        Err(e) => {
            return Err(e);
        },
    };
    let n = vocab.entries.len();
    let ghost corp = corpus.deep_view();
    let ghost pruned = pruned_of(counted_of(spec_all_tokens(corp)), eff_min(config.min_count));
    proof {
        lemma_vocab_entry_counts(corp, config.min_count);
        lemma_sort_sum(pruned);
        lemma_sum_pruned(counted_of(spec_all_tokens(corp)), eff_min(config.min_count));
        lemma_sum_counted(spec_all_tokens(corp));
        lemma_sum_counts_len(vocab.entries.deep_view());
        assert forall|k: int| 0 <= k < n implies 1 <= (#[trigger] vocab.entries@[k].count)
            && vocab.entries@[k].count <= vocab.train_tokens by {
            assert(vocab.entries.deep_view()[k] == vocab.entries@[k]@);
            lemma_sum_counts_elem(vocab.entries.deep_view(), k);
        }
        assert(vocab.train_tokens >= 1) by {
            assert(vocab.entries.deep_view()[0] == vocab.entries@[0]@);
            lemma_sum_counts_elem(vocab.entries.deep_view(), 0);
        }
    }
    let tree: Option<HuffmanTree>;
    let out_n: usize;
    match config.loss {
        Loss::Hierarchical => {
            let mut counts: Vec<u64> = Vec::new();
            let mut ci: usize = 0;
            while ci < n
                invariant
                    ci <= n,
                    n == vocab.entries.len(),
                    counts.len() == ci,
                    forall|x: int| 0 <= x < ci ==> #[trigger] counts@[x] == vocab.entries@[x].count,
                    sum_range(counts@, 0, ci as int) == sum_counts(
                        vocab.entries.deep_view().take(ci as int),
                    ),
                decreases n - ci,
            {
                proof {
                    let dv = vocab.entries.deep_view();
                    assert(dv.take(ci as int + 1).drop_last() =~= dv.take(ci as int));
                    assert(dv.take(ci as int + 1).last() == dv[ci as int]);
                    assert(dv[ci as int] == vocab.entries@[ci as int]@);
                    lemma_sum_range_push(counts@, vocab.entries@[ci as int].count, 0, ci as int);
                    lemma_sum_range_end(counts@.push(vocab.entries@[ci as int].count), 0, ci as int);
                }
                let c = vocab.entries[ci].count;
                counts.push(c);
                ci = ci + 1;
            }
            proof {
                assert(vocab.entries.deep_view().take(n as int) =~= vocab.entries.deep_view());
            }
            match HuffmanTree::build(&counts) {
                Ok(t) => {
                    out_n = n - 1;
                    tree = Some(t);
                },
                Err(er) => {
                    return Err(er);
                },
            }
        },
        Loss::Negative => {
            tree = None;
            out_n = n;
        },
    }
    let table: Option<UnigramTable> = match config.loss {
        Loss::Negative => Some(UnigramTable::build(&vocab.entries)),
        Loss::Hierarchical => None,
    };
    let mut rng = Rng::new(config.seed);
    let mut store = EmbeddingStore::init(n, out_n, config.dim, &mut rng);
    train_corpus(
        &mut store,
        &vocab.entries,
        vocab.train_tokens,
        corpus,
        config.method,
        config.loss,
        &table,
        &tree,
        config.init_lr,
        config.lr_update_rate,
        config.windows,
        config.epoch,
        config.negatives,
        config.t_sub,
        &mut rng,
    );
    Ok(Model { vocab, store, tree })
}

/// The exported artifact: each retained token with its trained vector, in
/// vocabulary index order; pruned tokens cannot appear, as the vocabulary
/// holds none.
pub fn export_artifact(m: &Model) -> (r: Vec<(Vec<u8>, Vec<i64>)>)
    requires
        m.store.input.len() == m.vocab.entries.len(),
    ensures
        r.len() == m.vocab.entries.len(),
        forall|i: int|
            0 <= i < r.len() ==> (#[trigger] r@[i]).0@ == m.vocab.entries@[i].token@ && r@[i].1@
                == m.store.input@[i]@,
{
    let mut r: Vec<(Vec<u8>, Vec<i64>)> = Vec::new();
    let mut i: usize = 0;
    while i < m.vocab.entries.len()
        invariant
            i <= m.vocab.entries.len(),
            m.store.input.len() == m.vocab.entries.len(),
            r.len() == i,
            forall|x: int|
                0 <= x < i ==> (#[trigger] r@[x]).0@ == m.vocab.entries@[x].token@ && r@[x].1@
                    == m.store.input@[x]@,
        decreases m.vocab.entries.len() - i,
    {
        let tok = m.vocab.entries[i].token.clone();
        let vec = m.store.input[i].clone();
        r.push((tok, vec));
        i = i + 1;
    }
    r
}

/// Every token of a well-formed vocabulary (and so of the exported
/// artifact, which lists exactly its entries) occurs at least `min_count`
/// times in the corpus, and at least once: no pruned token survives.
pub proof fn lemma_artifact_min_count(corpus: Seq<Seq<u8>>, min_count: u64, v: Vocabulary)
    requires
        v.wf(corpus, min_count),
    ensures
        forall|i: int|
            0 <= i < v.entries.len() ==> (#[trigger] v.entries.deep_view()[i]).count >= min_count
                && v.entries.deep_view()[i].count >= eff_min(min_count),
{
    lemma_vocab_entry_counts(corpus, min_count);
}

} // verus!
