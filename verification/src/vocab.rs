//! Vocabulary construction: one linear counting pass over the corpus,
//! pruning of rare tokens, and a stable ordering by descending count with
//! ties broken by first-seen order.  The result of `Vocabulary::build` is
//! pinned to the constructive spec `spec_vocab_entries`, which makes the
//! assignment of indices a mathematical function of `(corpus, min_count)`.
use vstd::prelude::*;
use crate::errors::TrainError;
use crate::tokenize::{spec_tokens, tokenize};

verus! {

/// Spec-level image of a vocabulary entry.  `rank` is the position of the
/// token in first-seen order over the whole corpus, retained to state the
/// tie-break of the final ordering.
pub struct GEntry {
    pub token: Seq<u8>,
    pub count: nat,
    pub rank: nat,
}

/// One retained token with its corpus count and first-seen rank; its index
/// in the vocabulary is its position in `Vocabulary::entries`.
pub struct VocabEntry {
    pub token: Vec<u8>,
    pub count: u64,
    pub rank: usize,
}

impl View for VocabEntry {
    type V = GEntry;

    open spec fn view(&self) -> GEntry {
        GEntry { token: self.token@, count: self.count as nat, rank: self.rank as nat }
    }
}

impl DeepView for VocabEntry {
    type V = GEntry;

    open spec fn deep_view(&self) -> GEntry {
        self.view()
    }
}

/// All tokens of the first `i` sentences, in corpus order.
pub open spec fn all_tokens_upto(corpus: Seq<Seq<u8>>, i: int) -> Seq<Seq<u8>>
    decreases i,
{
    if i <= 0 {
        Seq::<Seq<u8>>::empty()
    } else {
        all_tokens_upto(corpus, i - 1) + spec_tokens(corpus[i - 1])
    }
}

/// All tokens of the corpus, in order.
pub open spec fn spec_all_tokens(corpus: Seq<Seq<u8>>) -> Seq<Seq<u8>> {
    all_tokens_upto(corpus, corpus.len() as int)
}

/// Counting one more occurrence of `t`: the first entry holding `t` is
/// incremented; a token never seen before is appended with rank `r`.
pub open spec fn bump(cs: Seq<GEntry>, t: Seq<u8>, r: nat) -> Seq<GEntry>
    decreases cs.len(),
{
    if cs.len() == 0 {
        seq![GEntry { token: t, count: 1, rank: r }]
    } else if cs[0].token == t {
        seq![GEntry { token: cs[0].token, count: (cs[0].count + 1) as nat, rank: cs[0].rank }]
            + cs.drop_first()
    } else {
        seq![cs[0]] + bump(cs.drop_first(), t, r)
    }
}

/// Counts of a token sequence, in first-seen order.
pub open spec fn counted_of(ts: Seq<Seq<u8>>) -> Seq<GEntry>
    decreases ts.len(),
{
    if ts.len() == 0 {
        Seq::<GEntry>::empty()
    } else {
        let p = counted_of(ts.drop_last());
        bump(p, ts.last(), p.len() as nat)
    }
}

/// The effective pruning threshold: every counted token occurs at least
/// once, so a `min_count` of zero keeps exactly the same tokens as one.
pub open spec fn eff_min(min_count: u64) -> nat {
    if min_count == 0 {
        1
    } else {
        min_count as nat
    }
}

/// Entries whose count reaches the threshold, in unchanged order.
pub open spec fn pruned_of(cs: Seq<GEntry>, m: nat) -> Seq<GEntry>
    decreases cs.len(),
{
    if cs.len() == 0 {
        Seq::<GEntry>::empty()
    } else {
        let p = pruned_of(cs.drop_last(), m);
        if cs.last().count >= m {
            p.push(cs.last())
        } else {
            p
        }
    }
}

/// The strict total order of the final vocabulary: larger counts first,
/// ties broken by first-seen rank (ranks are distinct across entries).
pub open spec fn precedes(a: GEntry, b: GEntry) -> bool {
    a.count > b.count || (a.count == b.count && a.rank < b.rank)
}

/// Insertion into a sequence sorted by `precedes`.
pub open spec fn spec_insert(s: Seq<GEntry>, e: GEntry) -> Seq<GEntry>
    decreases s.len(),
{
    if s.len() == 0 {
        seq![e]
    } else if precedes(e, s[0]) {
        seq![e] + s
    } else {
        seq![s[0]] + spec_insert(s.drop_first(), e)
    }
}

/// Insertion sort by `precedes`.
pub open spec fn spec_sort(s: Seq<GEntry>) -> Seq<GEntry>
    decreases s.len(),
{
    if s.len() == 0 {
        Seq::<GEntry>::empty()
    } else {
        spec_insert(spec_sort(s.drop_last()), s.last())
    }
}

/// The vocabulary of a corpus: count, prune, order.
pub open spec fn spec_vocab_entries(corpus: Seq<Seq<u8>>, min_count: u64) -> Seq<GEntry> {
    spec_sort(pruned_of(counted_of(spec_all_tokens(corpus)), eff_min(min_count)))
}

/// Sum of the counts of a sequence of entries.
pub open spec fn sum_counts(cs: Seq<GEntry>) -> nat
    decreases cs.len(),
{
    if cs.len() == 0 {
        0
    } else {
        sum_counts(cs.drop_last()) + cs.last().count
    }
}

/// The number of training tokens: total count of the retained entries.
pub open spec fn spec_train_tokens(corpus: Seq<Seq<u8>>, min_count: u64) -> nat {
    sum_counts(pruned_of(counted_of(spec_all_tokens(corpus)), eff_min(min_count)))
}

pub proof fn lemma_sum_concat(a: Seq<GEntry>, b: Seq<GEntry>)
    ensures
        sum_counts(a + b) == sum_counts(a) + sum_counts(b),
    decreases b.len(),
{
    if b.len() == 0 {
        assert(a + b =~= a);
    } else {
        assert((a + b).drop_last() =~= a + b.drop_last());
        lemma_sum_concat(a, b.drop_last());
        assert((a + b).last() == b.last());
    }
}

proof fn lemma_sum_singleton(e: GEntry)
    ensures
        sum_counts(seq![e]) == e.count,
{
    let s = seq![e];
    assert(s.len() == 1);
    assert(s.last() == e);
    assert(s.drop_last() =~= Seq::<GEntry>::empty());
    assert(sum_counts(Seq::<GEntry>::empty()) == 0);
    assert(sum_counts(s) == sum_counts(s.drop_last()) + s.last().count);
}

pub proof fn lemma_bump_sum(cs: Seq<GEntry>, t: Seq<u8>, r: nat)
    ensures
        sum_counts(bump(cs, t, r)) == sum_counts(cs) + 1,
    decreases cs.len(),
{
    if cs.len() == 0 {
        lemma_sum_singleton(GEntry { token: t, count: 1, rank: r });
        assert(bump(cs, t, r) =~= seq![GEntry { token: t, count: 1, rank: r }]);
    } else if cs[0].token == t {
        let e = GEntry { token: cs[0].token, count: (cs[0].count + 1) as nat, rank: cs[0].rank };
        lemma_sum_concat(seq![e], cs.drop_first());
        lemma_sum_concat(seq![cs[0]], cs.drop_first());
        assert(cs =~= seq![cs[0]] + cs.drop_first());
        lemma_sum_singleton(e);
        lemma_sum_singleton(cs[0]);
    } else {
        lemma_bump_sum(cs.drop_first(), t, r);
        lemma_sum_concat(seq![cs[0]], bump(cs.drop_first(), t, r));
        lemma_sum_concat(seq![cs[0]], cs.drop_first());
        assert(cs =~= seq![cs[0]] + cs.drop_first());
        lemma_sum_singleton(cs[0]);
    }
}

/// The counts of a token sequence sum to its length.
pub proof fn lemma_sum_counted(ts: Seq<Seq<u8>>)
    ensures
        sum_counts(counted_of(ts)) == ts.len(),
    decreases ts.len(),
{
    if ts.len() > 0 {
        lemma_sum_counted(ts.drop_last());
        let p = counted_of(ts.drop_last());
        lemma_bump_sum(p, ts.last(), p.len() as nat);
    }
}

/// Pruning never increases the total count.
pub proof fn lemma_sum_pruned(cs: Seq<GEntry>, m: nat)
    ensures
        sum_counts(pruned_of(cs, m)) <= sum_counts(cs),
    decreases cs.len(),
{
    if cs.len() > 0 {
        lemma_sum_pruned(cs.drop_last(), m);
        let p = pruned_of(cs.drop_last(), m);
        if cs.last().count >= m {
            assert(p.push(cs.last()).drop_last() =~= p);
        }
    }
}

/// A prefix never has a larger total count than the whole.
pub proof fn lemma_sum_take(cs: Seq<GEntry>, i: int)
    requires
        0 <= i <= cs.len(),
    ensures
        sum_counts(cs.take(i)) <= sum_counts(cs),
{
    assert(cs =~= cs.take(i) + cs.skip(i));
    lemma_sum_concat(cs.take(i), cs.skip(i));
}

pub proof fn lemma_insert_len(s: Seq<GEntry>, e: GEntry)
    ensures
        spec_insert(s, e).len() == s.len() + 1,
    decreases s.len(),
{
    if s.len() > 0 && !precedes(e, s[0]) {
        lemma_insert_len(s.drop_first(), e);
    }
}

pub proof fn lemma_sort_len(s: Seq<GEntry>)
    ensures
        spec_sort(s).len() == s.len(),
    decreases s.len(),
{
    if s.len() > 0 {
        lemma_sort_len(s.drop_last());
        lemma_insert_len(spec_sort(s.drop_last()), s.last());
    }
}

/// A `bump` of a token already present increments exactly its first entry.
proof fn lemma_bump_found(cs: Seq<GEntry>, t: Seq<u8>, r: nat, k: int)
    requires
        0 <= k < cs.len(),
        cs[k].token == t,
        forall|j: int| 0 <= j < k ==> cs[j].token != t,
    ensures
        bump(cs, t, r) == cs.update(
            k,
            GEntry { token: cs[k].token, count: (cs[k].count + 1) as nat, rank: cs[k].rank },
        ),
    decreases k,
{
    let e = GEntry { token: cs[k].token, count: (cs[k].count + 1) as nat, rank: cs[k].rank };
    if k == 0 {
        assert(bump(cs, t, r) =~= cs.update(0, e));
    } else {
        lemma_bump_found(cs.drop_first(), t, r, k - 1);
        assert(bump(cs, t, r) =~= cs.update(k, e));
    }
}

/// A `bump` of an unseen token appends it with count one.
proof fn lemma_bump_new(cs: Seq<GEntry>, t: Seq<u8>, r: nat)
    requires
        forall|j: int| 0 <= j < cs.len() ==> cs[j].token != t,
    ensures
        bump(cs, t, r) == cs.push(GEntry { token: t, count: 1, rank: r }),
    decreases cs.len(),
{
    if cs.len() == 0 {
        assert(bump(cs, t, r) =~= cs.push(GEntry { token: t, count: 1, rank: r }));
    } else {
        lemma_bump_new(cs.drop_first(), t, r);
        assert(bump(cs, t, r) =~= cs.push(GEntry { token: t, count: 1, rank: r }));
    }
}

/// Insertion at the first position whose entry `e` precedes.
proof fn lemma_insert_at(s: Seq<GEntry>, e: GEntry, i: int)
    requires
        0 <= i <= s.len(),
        forall|j: int| 0 <= j < i ==> !precedes(e, s[j]),
        i < s.len() ==> precedes(e, s[i]),
    ensures
        spec_insert(s, e) == s.take(i) + seq![e] + s.skip(i),
    decreases i,
{
    if i == 0 {
        if s.len() == 0 {
            assert(spec_insert(s, e) =~= s.take(0) + seq![e] + s.skip(0));
        } else {
            assert(spec_insert(s, e) =~= s.take(0) + seq![e] + s.skip(0));
        }
    } else {
        lemma_insert_at(s.drop_first(), e, i - 1);
        assert(spec_insert(s, e) =~= s.take(i) + seq![e] + s.skip(i));
    }
}

/// Byte-wise equality of two tokens.
pub fn bytes_eq(a: &Vec<u8>, b: &Vec<u8>) -> (r: bool)
    ensures
        r == (a@ == b@),
{
    if a.len() != b.len() {
        proof {
            assert(a@ != b@);
        }
        return false;
    }
    let mut i: usize = 0;
    while i < a.len()
        invariant
            i <= a.len(),
            a.len() == b.len(),
            forall|j: int| 0 <= j < i ==> a@[j] == b@[j],
        decreases a.len() - i,
    {
        if a[i] != b[i] {
            proof {
                assert(a@ != b@);
            }
            return false;
        }
        i = i + 1;
    }
    proof {
        assert(a@ =~= b@);
    }
    true
}

/// Least index of `t` among the entries, if present.
pub fn find_token(cs: &Vec<VocabEntry>, t: &Vec<u8>) -> (r: Option<usize>)
    ensures
        match r {
            Some(k) => k < cs.len() && cs@[k as int]@.token == t@ && forall|j: int|
                0 <= j < k ==> cs@[j]@.token != t@,
            None => forall|j: int| 0 <= j < cs.len() ==> cs@[j]@.token != t@,
        },
{
    let mut i: usize = 0;
    while i < cs.len()
        invariant
            i <= cs.len(),
            forall|j: int| 0 <= j < i ==> cs@[j]@.token != t@,
        decreases cs.len() - i,
    {
        if bytes_eq(&cs[i].token, t) {
            return Some(i);
        }
        i = i + 1;
    }
    None
}

fn precedes_exec(a: &VocabEntry, b: &VocabEntry) -> (r: bool)
    ensures
        r == precedes(a@, b@),
{
    a.count > b.count || (a.count == b.count && a.rank < b.rank)
}

/// Inserts `e` into a vector sorted by `precedes`; pinned to `spec_insert`.
fn insert_entry(out: &mut Vec<VocabEntry>, e: VocabEntry)
    ensures
        final(out).deep_view() == spec_insert(old(out).deep_view(), e@),
{
    let mut i: usize = 0;
    loop
        invariant_except_break
            i <= out.len(),
            forall|j: int| 0 <= j < i ==> !precedes(e@, #[trigger] out.deep_view()[j]),
        ensures
            i <= out.len(),
            forall|j: int| 0 <= j < i ==> !precedes(e@, #[trigger] out.deep_view()[j]),
            i < out.len() ==> precedes(e@, out.deep_view()[i as int]),
        decreases out.len() - i,
    {
        if i == out.len() {
            break;
        }
        if precedes_exec(&e, &out[i]) {
            break;
        }
        i = i + 1;
    }
    proof {
        lemma_insert_at(out.deep_view(), e@, i as int);
    }
    let ghost old_dv = out.deep_view();
    out.insert(i, e);
    proof {
        assert(out.deep_view() =~~= old_dv.take(i as int) + seq![e@] + old_dv.skip(i as int));
    }
}

/// An ordered vocabulary: entries carry dense indices given by position.
pub struct Vocabulary {
    /// Retained tokens ordered by descending count, ties by first-seen rank.
    pub entries: Vec<VocabEntry>,
    /// Number of corpus tokens before pruning.
    pub total_tokens: u64,
    /// Number of training tokens: total count of the retained entries.
    pub train_tokens: u64,
}

impl Vocabulary {
    pub open spec fn wf(&self, corpus: Seq<Seq<u8>>, min_count: u64) -> bool {
        &&& self.entries.deep_view() == spec_vocab_entries(corpus, min_count)
        &&& self.entries.len() > 0
        &&& self.total_tokens == spec_all_tokens(corpus).len()
        &&& self.train_tokens == spec_train_tokens(corpus, min_count)
    }

    /// Counts all corpus tokens, prunes those under `min_count`, and orders
    /// the survivors by descending count with first-seen tie-break.
    /// Fails with `EmptyVocabulary` exactly when pruning removes everything.
    pub fn build(corpus: &Vec<Vec<u8>>, min_count: u64) -> (r: Result<Vocabulary, TrainError>)
        requires
            spec_all_tokens(corpus.deep_view()).len() <= u64::MAX,
        ensures
            match r {
                Ok(v) => v.wf(corpus.deep_view(), min_count),
                Err(e) => e == TrainError::EmptyVocabulary
                    && spec_vocab_entries(corpus.deep_view(), min_count).len() == 0,
            },
    {
        let ghost corp = corpus.deep_view();
        let mut cs: Vec<VocabEntry> = Vec::new();
        let mut total: u64 = 0;
        let mut si: usize = 0;
        proof {
            assert(cs.deep_view() =~= counted_of(all_tokens_upto(corp, 0)));
        }
        while si < corpus.len()
            invariant
                si <= corpus.len(),
                corp == corpus.deep_view(),
                spec_all_tokens(corp).len() <= u64::MAX,
                cs.deep_view() == counted_of(all_tokens_upto(corp, si as int)),
                total == all_tokens_upto(corp, si as int).len(),
                forall|k: int| 0 <= k < cs.len() ==> #[trigger] cs.deep_view()[k].count <= total,
            decreases corpus.len() - si,
        {
            proof {
                lemma_all_tokens_len_mono(corp, si as int + 1, corp.len() as int);
            }
            let toks = tokenize(&corpus[si]);
            let ghost base = all_tokens_upto(corp, si as int);
            let ghost sent = spec_tokens(corp[si as int]);
            proof {
                assert(corpus@[si as int].deep_view() =~= corpus@[si as int]@);
                assert(corp[si as int] == corpus@[si as int]@);
            }
            assert(toks.deep_view() == sent);
            let mut ti: usize = 0;
            proof {
                assert(base + sent.take(0) =~= base);
            }
            while ti < toks.len()
                invariant
                    ti <= toks.len(),
                    corp == corpus.deep_view(),
                    si < corpus.len(),
                    spec_all_tokens(corp).len() <= u64::MAX,
                    toks.deep_view() == sent,
                    sent == spec_tokens(corp[si as int]),
                    base == all_tokens_upto(corp, si as int),
                    base.len() + sent.len() <= spec_all_tokens(corp).len(),
                    cs.deep_view() == counted_of(base + sent.take(ti as int)),
                    total == base.len() + ti,
                    forall|k: int| 0 <= k < cs.len() ==> #[trigger] cs.deep_view()[k].count
                        <= total,
                decreases toks.len() - ti,
            {
                let ghost prefix = base + sent.take(ti as int);
                let ghost next_prefix = base + sent.take(ti as int + 1);
                proof {
                    assert(next_prefix.drop_last() =~= prefix);
                    assert(next_prefix.last() == sent[ti as int]);
                }
                let t = &toks[ti];
                assert(t@ == sent[ti as int]);
                match find_token(&cs, t) {
                    Some(k) => {
                        proof {
                            lemma_bump_found(
                                cs.deep_view(),
                                t@,
                                cs.deep_view().len() as nat,
                                k as int,
                            );
                        }
                        let ghost old_dv = cs.deep_view();
                        let c = cs[k].count;
                        cs[k].count = c + 1;
                        proof {
                            assert(cs.deep_view() =~~= counted_of(next_prefix));
                        }
                    },
                    None => {
                        proof {
                            lemma_bump_new(cs.deep_view(), t@, cs.deep_view().len() as nat);
                        }
                        let ghost old_dv = cs.deep_view();
                        let rank = cs.len();
                        cs.push(VocabEntry { token: t.clone(), count: 1, rank });
                        proof {
                            assert(cs.deep_view() =~~= counted_of(next_prefix));
                        }
                    },
                }
                total = total + 1;
                ti = ti + 1;
            }
            proof {
                assert(sent.take(sent.len() as int) =~= sent);
                assert(all_tokens_upto(corp, si as int + 1) == base + sent);
            }
            si = si + 1;
        }
        proof {
            assert(all_tokens_upto(corp, corp.len() as int) == spec_all_tokens(corp));
        }
        // Prune: drop entries under the effective threshold, keeping order.
        let m: u64 = if min_count == 0 {
            1
        } else {
            min_count
        };
        let ghost counted = cs.deep_view();
        proof {
            lemma_sum_counted(spec_all_tokens(corp));
        }
        let mut kept: Vec<VocabEntry> = Vec::new();
        let mut train: u64 = 0;
        let mut i: usize = 0;
        proof {
            assert(counted.take(0) =~= Seq::<GEntry>::empty());
            assert(kept.deep_view() =~= pruned_of(counted.take(0), m as nat));
        }
        while i < cs.len()
            invariant
                i <= cs.len(),
                counted == cs.deep_view(),
                sum_counts(counted) <= u64::MAX,
                kept.deep_view() == pruned_of(counted.take(i as int), m as nat),
                train == sum_counts(pruned_of(counted.take(i as int), m as nat)),
            decreases cs.len() - i,
        {
            proof {
                assert(counted.take(i as int + 1).drop_last() =~= counted.take(i as int));
                assert(counted.take(i as int + 1).last() == counted[i as int]);
                lemma_sum_pruned(counted.take(i as int + 1), m as nat);
                lemma_sum_take(counted, i as int + 1);
            }
            if cs[i].count >= m {
                let e = VocabEntry {
                    token: cs[i].token.clone(),
                    count: cs[i].count,
                    rank: cs[i].rank,
                };
                assert(e@ == counted[i as int]);
                proof {
                    let p = pruned_of(counted.take(i as int), m as nat);
                    assert(pruned_of(counted.take(i as int + 1), m as nat) == p.push(
                        counted[i as int],
                    ));
                    assert(p.push(counted[i as int]).drop_last() =~= p);
                    assert(sum_counts(pruned_of(counted.take(i as int + 1), m as nat)) == train
                        + e@.count);
                }
                let ghost old_dv = kept.deep_view();
                train = train + e.count;
                kept.push(e);
                proof {
                    assert(kept.deep_view() =~~= old_dv.push(counted[i as int]));
                }
            }
            i = i + 1;
        }
        proof {
            assert(counted.take(cs.len() as int) =~= counted);
        }
        let ghost pruned = kept.deep_view();
        if kept.len() == 0 {
            proof {
                lemma_sort_len(pruned);
            }
            return Err(TrainError::EmptyVocabulary);
        }
        // Order by descending count, first-seen rank as tie-break.
        let mut entries: Vec<VocabEntry> = Vec::new();
        let mut kept = kept;
        proof {
            assert(entries.deep_view() =~= spec_sort(pruned.take(0)));
        }
        let mut j: usize = 0;
        while j < kept.len()
            invariant
                j <= kept.len(),
                kept.deep_view() == pruned,
                entries.deep_view() == spec_sort(pruned.take(j as int)),
            decreases kept.len() - j,
        {
            proof {
                assert(pruned.take(j as int + 1).drop_last() =~= pruned.take(j as int));
                assert(pruned.take(j as int + 1).last() == pruned[j as int]);
            }
            let e = VocabEntry {
                token: kept[j].token.clone(),
                count: kept[j].count,
                rank: kept[j].rank,
            };
            assert(e@ == pruned[j as int]);
            insert_entry(&mut entries, e);
            j = j + 1;
        }
        proof {
            assert(pruned.take(kept.len() as int) =~= pruned);
            lemma_sort_len(pruned);
        }
        Ok(Vocabulary { entries, total_tokens: total, train_tokens: train })
    }
}

pub proof fn lemma_insert_sum(s: Seq<GEntry>, e: GEntry)
    ensures
        sum_counts(spec_insert(s, e)) == sum_counts(s) + e.count,
    decreases s.len(),
{
    if s.len() == 0 {
        lemma_sum_singleton(e);
        assert(spec_insert(s, e) =~= seq![e]);
    } else if precedes(e, s[0]) {
        lemma_sum_concat(seq![e], s);
        lemma_sum_singleton(e);
    } else {
        lemma_insert_sum(s.drop_first(), e);
        lemma_sum_concat(seq![s[0]], spec_insert(s.drop_first(), e));
        lemma_sum_concat(seq![s[0]], s.drop_first());
        assert(s =~= seq![s[0]] + s.drop_first());
        lemma_sum_singleton(s[0]);
    }
}

/// Ordering the entries does not change their total count.
pub proof fn lemma_sort_sum(s: Seq<GEntry>)
    ensures
        sum_counts(spec_sort(s)) == sum_counts(s),
    decreases s.len(),
{
    if s.len() > 0 {
        lemma_sort_sum(s.drop_last());
        lemma_insert_sum(spec_sort(s.drop_last()), s.last());
    }
}

/// With every count at least one, there are no more entries than tokens.
pub proof fn lemma_sum_counts_len(cs: Seq<GEntry>)
    requires
        forall|i: int| 0 <= i < cs.len() ==> #[trigger] cs[i].count >= 1,
    ensures
        cs.len() <= sum_counts(cs),
    decreases cs.len(),
{
    if cs.len() > 0 {
        assert(forall|i: int|
            0 <= i < cs.drop_last().len() ==> #[trigger] cs.drop_last()[i].count >= 1);
        lemma_sum_counts_len(cs.drop_last());
    }
}

/// Every entry's count is at most the total count.
pub proof fn lemma_sum_counts_elem(cs: Seq<GEntry>, k: int)
    requires
        0 <= k < cs.len(),
    ensures
        cs[k].count <= sum_counts(cs),
    decreases cs.len(),
{
    if k < cs.len() - 1 {
        lemma_sum_counts_elem(cs.drop_last(), k);
    }
}

proof fn lemma_insert_counts(s: Seq<GEntry>, e: GEntry, m: nat)
    requires
        forall|i: int| 0 <= i < s.len() ==> #[trigger] s[i].count >= m,
        e.count >= m,
    ensures
        forall|i: int| 0 <= i < spec_insert(s, e).len() ==> #[trigger] spec_insert(s, e)[i].count
            >= m,
    decreases s.len(),
{
    if s.len() == 0 {
        assert(spec_insert(s, e) =~= seq![e]);
    } else if precedes(e, s[0]) {
        let r = seq![e] + s;
        assert forall|i: int| 0 <= i < r.len() implies #[trigger] r[i].count >= m by {
            if i == 0 {
                assert(r[i] == e);
            } else {
                assert(r[i] == s[i - 1]);
            }
        }
    } else {
        assert(forall|i: int|
            0 <= i < s.drop_first().len() ==> #[trigger] s.drop_first()[i].count >= m);
        lemma_insert_counts(s.drop_first(), e, m);
        let t = spec_insert(s.drop_first(), e);
        let r = seq![s[0]] + t;
        assert forall|i: int| 0 <= i < r.len() implies #[trigger] r[i].count >= m by {
            if i == 0 {
                assert(r[i] == s[0]);
            } else {
                assert(r[i] == t[i - 1]);
            }
        }
    }
}

proof fn lemma_sort_counts(s: Seq<GEntry>, m: nat)
    requires
        forall|i: int| 0 <= i < s.len() ==> #[trigger] s[i].count >= m,
    ensures
        forall|i: int| 0 <= i < spec_sort(s).len() ==> #[trigger] spec_sort(s)[i].count >= m,
    decreases s.len(),
{
    if s.len() > 0 {
        assert(forall|i: int|
            0 <= i < s.drop_last().len() ==> #[trigger] s.drop_last()[i].count >= m);
        lemma_sort_counts(s.drop_last(), m);
        lemma_insert_counts(spec_sort(s.drop_last()), s.last(), m);
    }
}

proof fn lemma_pruned_counts(cs: Seq<GEntry>, m: nat)
    ensures
        forall|i: int| 0 <= i < pruned_of(cs, m).len() ==> #[trigger] pruned_of(cs, m)[i].count
            >= m,
    decreases cs.len(),
{
    if cs.len() > 0 {
        lemma_pruned_counts(cs.drop_last(), m);
        let p = pruned_of(cs.drop_last(), m);
        if cs.last().count >= m {
            assert forall|i: int| 0 <= i < p.push(cs.last()).len() implies #[trigger] p.push(
                cs.last(),
            )[i].count >= m by {
                if i < p.len() {
                    assert(p.push(cs.last())[i] == p[i]);
                } else {
                    assert(p.push(cs.last())[i] == cs.last());
                }
            }
        }
    }
}

/// Every token the vocabulary retains occurs at least `min_count` times
/// (and at least once): pruning is complete before any ordering happens.
pub proof fn lemma_vocab_entry_counts(corpus: Seq<Seq<u8>>, min_count: u64)
    ensures
        forall|i: int|
            0 <= i < spec_vocab_entries(corpus, min_count).len() ==> #[trigger] spec_vocab_entries(
                corpus,
                min_count,
            )[i].count >= eff_min(min_count),
        forall|i: int|
            0 <= i < spec_vocab_entries(corpus, min_count).len() ==> #[trigger] spec_vocab_entries(
                corpus,
                min_count,
            )[i].count >= min_count,
{
    let cs = counted_of(spec_all_tokens(corpus));
    let m = eff_min(min_count);
    lemma_pruned_counts(cs, m);
    lemma_sort_counts(pruned_of(cs, m), m);
}

/// Number of occurrences of `t` among the tokens `ts`.
pub open spec fn occ(ts: Seq<Seq<u8>>, t: Seq<u8>) -> nat
    decreases ts.len(),
{
    if ts.len() == 0 {
        0
    } else {
        occ(ts.drop_last(), t) + (if ts.last() == t {
            1nat
        } else {
            0nat
        })
    }
}

/// Each entry's count is the exact number of occurrences of its token.
pub open spec fn counts_match(cs: Seq<GEntry>, ts: Seq<Seq<u8>>) -> bool {
    forall|k: int| 0 <= k < cs.len() ==> (#[trigger] cs[k]).count == occ(ts, cs[k].token)
}

/// No token appears in two entries.
pub open spec fn tokens_distinct(cs: Seq<GEntry>) -> bool {
    forall|i: int, j: int|
        0 <= i < j < cs.len() ==> (#[trigger] cs[i]).token != (#[trigger] cs[j]).token
}

/// Every occurring token has an entry.
pub open spec fn tokens_complete(cs: Seq<GEntry>, ts: Seq<Seq<u8>>) -> bool {
    forall|t: Seq<u8>|
        #[trigger] occ(ts, t) > 0 ==> exists|k: int|
            0 <= k < cs.len() && (#[trigger] cs[k]).token == t
}

/// The counting pass is exact: counts are occurrence numbers, tokens are
/// unique, and no occurring token is missed.
pub proof fn lemma_counted_props(ts: Seq<Seq<u8>>)
    ensures
        counts_match(counted_of(ts), ts),
        tokens_distinct(counted_of(ts)),
        tokens_complete(counted_of(ts), ts),
    decreases ts.len(),
{
    if ts.len() > 0 {
        let dl = ts.drop_last();
        let x = ts.last();
        lemma_counted_props(dl);
        let cs = counted_of(dl);
        assert forall|t: Seq<u8>| #[trigger] occ(ts, t) == occ(dl, t) + (if t == x {
            1int
        } else {
            0int
        }) by {}
        if exists|k: int| 0 <= k < cs.len() && (#[trigger] cs[k]).token == x {
            let k = choose|k: int| 0 <= k < cs.len() && (#[trigger] cs[k]).token == x;
            assert(forall|j: int| 0 <= j < k ==> (#[trigger] cs[j]).token != x);
            lemma_bump_found(cs, x, cs.len() as nat, k);
            let inc = GEntry {
                token: cs[k].token,
                count: (cs[k].count + 1) as nat,
                rank: cs[k].rank,
            };
            let b = cs.update(k, inc);
            assert(counted_of(ts) == b);
            assert forall|i: int| 0 <= i < b.len() implies (#[trigger] b[i]).count == occ(
                ts,
                b[i].token,
            ) by {
                if i == k {
                    assert(b[i] == inc);
                    assert(occ(ts, x) == occ(dl, x) + 1);
                } else {
                    assert(b[i] == cs[i]);
                    if i < k {
                        assert(cs[i].token != cs[k].token);
                    } else {
                        assert(cs[k].token != cs[i].token);
                    }
                }
            }
            assert forall|i: int, j: int| 0 <= i < j < b.len() implies (#[trigger] b[i]).token
                != (#[trigger] b[j]).token by {
                assert(b[i].token == cs[i].token);
                assert(b[j].token == cs[j].token);
            }
            assert forall|t: Seq<u8>| #[trigger] occ(ts, t) > 0 implies exists|i: int|
                0 <= i < b.len() && (#[trigger] b[i]).token == t by {
                if t == x {
                    assert(b[k].token == t);
                } else {
                    assert(occ(dl, t) > 0);
                    let w = choose|w: int| 0 <= w < cs.len() && (#[trigger] cs[w]).token == t;
                    assert(b[w].token == t);
                }
            }
        } else {
            lemma_bump_new(cs, x, cs.len() as nat);
            let e = GEntry { token: x, count: 1, rank: cs.len() as nat };
            let b = cs.push(e);
            assert(counted_of(ts) == b);
            if occ(dl, x) > 0 {
                let w = choose|w: int| 0 <= w < cs.len() && (#[trigger] cs[w]).token == x;
                assert(false);
            }
            assert forall|i: int| 0 <= i < b.len() implies (#[trigger] b[i]).count == occ(
                ts,
                b[i].token,
            ) by {
                if i < cs.len() {
                    assert(b[i] == cs[i]);
                    assert(cs[i].token != x);
                } else {
                    assert(b[i] == e);
                    assert(occ(ts, x) == occ(dl, x) + 1);
                }
            }
            assert forall|i: int, j: int| 0 <= i < j < b.len() implies (#[trigger] b[i]).token
                != (#[trigger] b[j]).token by {
                if j < cs.len() {
                } else {
                    assert(b[j] == e);
                    assert(b[i] == cs[i]);
                    assert(cs[i].token != x);
                }
            }
            assert forall|t: Seq<u8>| #[trigger] occ(ts, t) > 0 implies exists|i: int|
                0 <= i < b.len() && (#[trigger] b[i]).token == t by {
                if t == x {
                    assert(b[cs.len() as int].token == t);
                } else {
                    assert(occ(dl, t) > 0);
                    let w = choose|w: int| 0 <= w < cs.len() && (#[trigger] cs[w]).token == t;
                    assert(b[w].token == t);
                }
            }
        }
    }
}

/// Every pruned entry is one of the counted entries.
proof fn lemma_pruned_sub(cs: Seq<GEntry>, m: nat)
    ensures
        forall|i: int|
            0 <= i < pruned_of(cs, m).len() ==> exists|j: int|
                0 <= j < cs.len() && #[trigger] pruned_of(cs, m)[i] == cs[j],
    decreases cs.len(),
{
    if cs.len() > 0 {
        lemma_pruned_sub(cs.drop_last(), m);
        let p = pruned_of(cs.drop_last(), m);
        assert forall|i: int| 0 <= i < pruned_of(cs, m).len() implies exists|j: int|
            0 <= j < cs.len() && #[trigger] pruned_of(cs, m)[i] == cs[j] by {
            if cs.last().count >= m {
                if i < p.len() {
                    let j = choose|j: int|
                        0 <= j < cs.drop_last().len() && #[trigger] p[i] == cs.drop_last()[j];
                    assert(pruned_of(cs, m)[i] == cs[j]);
                } else {
                    assert(pruned_of(cs, m)[i] == cs[cs.len() - 1]);
                }
            } else {
                let j = choose|j: int|
                    0 <= j < cs.drop_last().len() && #[trigger] p[i] == cs.drop_last()[j];
                assert(pruned_of(cs, m)[i] == cs[j]);
            }
        }
    }
}

/// Every counted entry that reaches the threshold survives pruning.
proof fn lemma_pruned_keeps(cs: Seq<GEntry>, m: nat)
    ensures
        forall|j: int|
            0 <= j < cs.len() && (#[trigger] cs[j]).count >= m ==> exists|i: int|
                0 <= i < pruned_of(cs, m).len() && #[trigger] pruned_of(cs, m)[i] == cs[j],
    decreases cs.len(),
{
    if cs.len() > 0 {
        lemma_pruned_keeps(cs.drop_last(), m);
        let p = pruned_of(cs.drop_last(), m);
        assert forall|j: int| 0 <= j < cs.len() && (#[trigger] cs[j]).count >= m implies exists|
            i: int,
        | 0 <= i < pruned_of(cs, m).len() && #[trigger] pruned_of(cs, m)[i] == cs[j] by {
            if j == cs.len() - 1 {
                assert(pruned_of(cs, m)[p.len() as int] == cs[j]);
            } else {
                assert(cs.drop_last()[j] == cs[j]);
                let i = choose|i: int| 0 <= i < p.len() && #[trigger] p[i] == cs.drop_last()[j];
                if cs.last().count >= m {
                    assert(pruned_of(cs, m)[i] == cs[j]);
                } else {
                    assert(pruned_of(cs, m)[i] == cs[j]);
                }
            }
        }
    }
}

/// The two directions of insertion membership.
proof fn lemma_insert_elems(s: Seq<GEntry>, e: GEntry)
    ensures
        forall|i: int|
            0 <= i < spec_insert(s, e).len() ==> #[trigger] spec_insert(s, e)[i] == e || exists|
                j: int,
            | 0 <= j < s.len() && spec_insert(s, e)[i] == s[j],
        forall|j: int|
            0 <= j < s.len() ==> exists|i: int|
                0 <= i < spec_insert(s, e).len() && spec_insert(s, e)[i] == #[trigger] s[j],
        exists|i: int| 0 <= i < spec_insert(s, e).len() && #[trigger] spec_insert(s, e)[i] == e,
    decreases s.len(),
{
    let r = spec_insert(s, e);
    if s.len() == 0 {
        assert(r[0] == e);
    } else if precedes(e, s[0]) {
        assert(r[0] == e);
        assert forall|j: int| 0 <= j < s.len() implies exists|i: int|
            0 <= i < r.len() && r[i] == #[trigger] s[j] by {
            assert(r[j + 1] == s[j]);
        }
        assert forall|i: int| 0 <= i < r.len() implies #[trigger] r[i] == e || exists|j: int|
            0 <= j < s.len() && r[i] == s[j] by {
            if i > 0 {
                assert(r[i] == s[i - 1]);
            }
        }
    } else {
        lemma_insert_elems(s.drop_first(), e);
        let t = spec_insert(s.drop_first(), e);
        assert(r[0] == s[0]);
        assert forall|i: int| 0 <= i < r.len() implies #[trigger] r[i] == e || exists|j: int|
            0 <= j < s.len() && r[i] == s[j] by {
            if i > 0 {
                assert(r[i] == t[i - 1]);
                if t[i - 1] != e {
                    let j = choose|j: int|
                        0 <= j < s.drop_first().len() && #[trigger] t[i - 1] == s.drop_first()[j];
                    assert(r[i] == s[j + 1]);
                }
            }
        }
        assert forall|j: int| 0 <= j < s.len() implies exists|i: int|
            0 <= i < r.len() && r[i] == #[trigger] s[j] by {
            if j == 0 {
                assert(r[0] == s[j]);
            } else {
                assert(s.drop_first()[j - 1] == s[j]);
                let i = choose|i: int|
                    0 <= i < t.len() && #[trigger] t[i] == s.drop_first()[j - 1];
                assert(r[i + 1] == s[j]);
            }
        }
        let i0 = choose|i: int| 0 <= i < t.len() && #[trigger] t[i] == e;
        assert(r[i0 + 1] == e);
    }
}

/// The two directions of sort membership.
proof fn lemma_sort_elems(s: Seq<GEntry>)
    ensures
        forall|i: int|
            0 <= i < spec_sort(s).len() ==> exists|j: int|
                0 <= j < s.len() && #[trigger] spec_sort(s)[i] == s[j],
        forall|j: int|
            0 <= j < s.len() ==> exists|i: int|
                0 <= i < spec_sort(s).len() && spec_sort(s)[i] == #[trigger] s[j],
    decreases s.len(),
{
    if s.len() > 0 {
        lemma_sort_elems(s.drop_last());
        let q = spec_sort(s.drop_last());
        let r = spec_sort(s);
        lemma_insert_elems(q, s.last());
        assert forall|i: int| 0 <= i < r.len() implies exists|j: int|
            0 <= j < s.len() && #[trigger] r[i] == s[j] by {
            if r[i] == s.last() {
                assert(r[i] == s[s.len() - 1]);
            } else {
                let jq = choose|jq: int| 0 <= jq < q.len() && #[trigger] r[i] == q[jq];
                let j = choose|j: int|
                    0 <= j < s.drop_last().len() && #[trigger] q[jq] == s.drop_last()[j];
                assert(r[i] == s[j]);
            }
        }
        assert forall|j: int| 0 <= j < s.len() implies exists|i: int|
            0 <= i < r.len() && r[i] == #[trigger] s[j] by {
            if j == s.len() - 1 {
                let i = choose|i: int| 0 <= i < r.len() && #[trigger] r[i] == s.last();
            } else {
                assert(s.drop_last()[j] == s[j]);
                let iq = choose|iq: int|
                    0 <= iq < q.len() && #[trigger] q[iq] == s.drop_last()[j];
                let i = choose|i: int| 0 <= i < r.len() && #[trigger] r[i] == q[iq];
            }
        }
    }
}

/// Sorted by `precedes`: no later entry precedes an earlier one.
pub open spec fn sorted_desc(s: Seq<GEntry>) -> bool {
    forall|i: int, j: int| 0 <= i < j < s.len() ==> !precedes(#[trigger] s[j], #[trigger] s[i])
}

proof fn lemma_insert_sorted(s: Seq<GEntry>, e: GEntry)
    requires
        sorted_desc(s),
    ensures
        sorted_desc(spec_insert(s, e)),
    decreases s.len(),
{
    let r = spec_insert(s, e);
    if s.len() == 0 {
    } else if precedes(e, s[0]) {
        assert forall|i: int, j: int| 0 <= i < j < r.len() implies !precedes(
            #[trigger] r[j],
            #[trigger] r[i],
        ) by {
            assert(r[j] == s[j - 1]);
            if i == 0 {
                assert(r[i] == e);
                if precedes(s[j - 1], e) {
                    // both directions of the strict order cannot hold
                    if j - 1 > 0 {
                        assert(!precedes(s[j - 1], s[0]));
                    }
                }
            } else {
                assert(r[i] == s[i - 1]);
            }
        }
    } else {
        lemma_insert_sorted(s.drop_first(), e);
        lemma_insert_elems(s.drop_first(), e);
        let t = spec_insert(s.drop_first(), e);
        assert forall|i: int, j: int| 0 <= i < j < r.len() implies !precedes(
            #[trigger] r[j],
            #[trigger] r[i],
        ) by {
            assert(r[j] == t[j - 1]);
            if i == 0 {
                assert(r[i] == s[0]);
                if t[j - 1] == e {
                    assert(!precedes(e, s[0]));
                } else {
                    let w = choose|w: int|
                        0 <= w < s.drop_first().len() && t[j - 1] == s.drop_first()[w];
                    assert(t[j - 1] == s[w + 1]);
                    assert(!precedes(s[w + 1], s[0]));
                }
            } else {
                assert(r[i] == t[i - 1]);
            }
        }
    }
}

proof fn lemma_sort_sorted(s: Seq<GEntry>)
    ensures
        sorted_desc(spec_sort(s)),
    decreases s.len(),
{
    if s.len() > 0 {
        lemma_sort_sorted(s.drop_last());
        lemma_insert_sorted(spec_sort(s.drop_last()), s.last());
    }
}

/// The vocabulary order is descending count, ties broken by first-seen
/// rank: no later entry precedes an earlier one under that key.
pub proof fn lemma_vocab_ordered(corpus: Seq<Seq<u8>>, min_count: u64)
    ensures
        sorted_desc(spec_vocab_entries(corpus, min_count)),
{
    lemma_sort_sorted(pruned_of(counted_of(spec_all_tokens(corpus)), eff_min(min_count)));
}

/// The vocabulary holds exact corpus counts: every entry's count is the
/// number of occurrences of its token among the corpus tokens, and every
/// token occurring at least `max(min_count, 1)` times has an entry.
pub proof fn lemma_vocab_counts_exact(corpus: Seq<Seq<u8>>, min_count: u64)
    ensures
        forall|i: int|
            0 <= i < spec_vocab_entries(corpus, min_count).len() ==> (#[trigger] spec_vocab_entries(
                corpus,
                min_count,
            )[i]).count == occ(spec_all_tokens(corpus), spec_vocab_entries(corpus, min_count)[i].token),
        forall|t: Seq<u8>|
            #[trigger] occ(spec_all_tokens(corpus), t) >= eff_min(min_count) ==> exists|i: int|
                0 <= i < spec_vocab_entries(corpus, min_count).len() && (#[trigger] spec_vocab_entries(
                    corpus,
                    min_count,
                )[i]).token == t,
{
    let ts = spec_all_tokens(corpus);
    let m = eff_min(min_count);
    let cs = counted_of(ts);
    let p = pruned_of(cs, m);
    let vs = spec_vocab_entries(corpus, min_count);
    lemma_counted_props(ts);
    lemma_pruned_sub(cs, m);
    lemma_pruned_keeps(cs, m);
    lemma_sort_elems(p);
    assert forall|i: int| 0 <= i < vs.len() implies (#[trigger] vs[i]).count == occ(
        ts,
        vs[i].token,
    ) by {
        let j = choose|j: int| 0 <= j < p.len() && #[trigger] vs[i] == p[j];
        let k = choose|k: int| 0 <= k < cs.len() && #[trigger] p[j] == cs[k];
    }
    assert forall|t: Seq<u8>| #[trigger] occ(ts, t) >= m implies exists|i: int|
        0 <= i < vs.len() && (#[trigger] vs[i]).token == t by {
        assert(occ(ts, t) > 0);
        let k = choose|k: int| 0 <= k < cs.len() && (#[trigger] cs[k]).token == t;
        assert(cs[k].count == occ(ts, t));
        let j = choose|j: int| 0 <= j < p.len() && #[trigger] p[j] == cs[k];
        let i = choose|i: int| 0 <= i < vs.len() && #[trigger] vs[i] == p[j];
        assert(vs[i].token == t);
    }
}

/// Vocabulary indices are a mathematical function of `(corpus, min_count)`:
/// any two well-formed vocabularies over the same inputs agree on every
/// entry, every index, and both token totals.
pub proof fn lemma_vocab_deterministic(
    corpus: Seq<Seq<u8>>,
    min_count: u64,
    a: Vocabulary,
    b: Vocabulary,
)
    requires
        a.wf(corpus, min_count),
        b.wf(corpus, min_count),
    ensures
        a.entries.deep_view() == b.entries.deep_view(),
        a.total_tokens == b.total_tokens,
        a.train_tokens == b.train_tokens,
{
}

/// Prefix lengths of `all_tokens_upto` are monotone in the prefix.
pub proof fn lemma_all_tokens_len_mono(corpus: Seq<Seq<u8>>, i: int, j: int)
    requires
        0 <= i <= j,
    ensures
        all_tokens_upto(corpus, i).len() <= all_tokens_upto(corpus, j).len(),
    decreases j - i,
{
    if i < j {
        lemma_all_tokens_len_mono(corpus, i, j - 1);
    }
}

} // verus!
