//! Huffman coding over vocabulary frequencies for hierarchical softmax:
//! a greedy merge of the two least-frequent nodes at every step, yielding
//! exactly `n - 1` internal nodes, each holding the sum of its children's
//! frequencies, and per-leaf code/point paths in root-to-leaf order.
use vstd::prelude::*;
use crate::errors::TrainError;

verus! {

/// Sum of `fr[lo..hi]`.
pub open spec fn sum_range(fr: Seq<u64>, lo: int, hi: int) -> int
    decreases hi - lo,
{
    if lo >= hi {
        0
    } else {
        fr[lo] + sum_range(fr, lo + 1, hi)
    }
}

pub proof fn lemma_sum_range_nonneg(fr: Seq<u64>, lo: int, hi: int)
    requires
        0 <= lo,
        hi <= fr.len(),
    ensures
        sum_range(fr, lo, hi) >= 0,
    decreases hi - lo,
{
    if lo < hi {
        lemma_sum_range_nonneg(fr, lo + 1, hi);
    }
}

pub proof fn lemma_sum_range_end(fr: Seq<u64>, lo: int, hi: int)
    requires
        0 <= lo <= hi,
        hi < fr.len(),
    ensures
        sum_range(fr, lo, hi + 1) == sum_range(fr, lo, hi) + fr[hi],
    decreases hi - lo,
{
    if lo < hi {
        lemma_sum_range_end(fr, lo + 1, hi);
        assert(sum_range(fr, lo, hi + 1) == fr[lo] + sum_range(fr, lo + 1, hi + 1));
        assert(sum_range(fr, lo, hi) == fr[lo] + sum_range(fr, lo + 1, hi));
    } else {
        assert(sum_range(fr, lo, hi) == 0);
        assert(sum_range(fr, lo, hi + 1) == fr[lo] + sum_range(fr, lo + 1, hi + 1));
        assert(sum_range(fr, lo + 1, hi + 1) == 0);
    }
}

pub proof fn lemma_sum_range_push(fr: Seq<u64>, x: u64, lo: int, hi: int)
    requires
        0 <= lo,
        hi <= fr.len(),
    ensures
        sum_range(fr.push(x), lo, hi) == sum_range(fr, lo, hi),
    decreases hi - lo,
{
    if lo < hi {
        lemma_sum_range_push(fr, x, lo + 1, hi);
    }
}

pub proof fn lemma_sum_range_elem(fr: Seq<u64>, lo: int, hi: int, k: int)
    requires
        0 <= lo <= k < hi,
        hi <= fr.len(),
    ensures
        fr[k] <= sum_range(fr, lo, hi),
    decreases k - lo,
{
    lemma_sum_range_nonneg(fr, lo + 1, hi);
    if lo < k {
        lemma_sum_range_elem(fr, lo + 1, hi, k);
    }
}

/// `code`/`point` describe the root-to-leaf walk for leaf `v`: `point`
/// lists the internal nodes from the root down, and bit `code[j]` selects
/// the child taken out of `point[j]`, ending at `v`.  The code length is
/// therefore exactly the depth of the leaf's path.
pub open spec fn path_ok(
    left: Seq<usize>,
    right: Seq<usize>,
    n: int,
    code: Seq<bool>,
    point: Seq<usize>,
    v: int,
) -> bool {
    &&& code.len() == point.len()
    &&& code.len() >= 1
    &&& point[0] == 2 * n - 2
    &&& forall|j: int| 0 <= j < point.len() ==> n <= #[trigger] point[j] < 2 * n - 1
    &&& forall|j: int|
        0 <= j < point.len() - 1 ==> (if code[j] {
            right[point[j] as int] as int
        } else {
            left[point[j] as int] as int
        }) == #[trigger] point[j + 1] as int
    &&& (if code[code.len() - 1] {
        right[point[point.len() - 1] as int] as int
    } else {
        left[point[point.len() - 1] as int] as int
    }) == v
}

/// The Huffman tree: nodes `0 .. n` are the vocabulary leaves in index
/// order; nodes `n .. 2n-1` are internal, created in merge order, the last
/// one being the root.
pub struct HuffmanTree {
    pub n_leaves: usize,
    pub freq: Vec<u64>,
    pub left: Vec<usize>,
    pub right: Vec<usize>,
    pub codes: Vec<Vec<bool>>,
    pub points: Vec<Vec<usize>>,
}

impl HuffmanTree {
    pub open spec fn wf(&self) -> bool {
        let n = self.n_leaves as int;
        &&& n >= 2
        &&& self.freq.len() == 2 * n - 1
        &&& self.left.len() == 2 * n - 1
        &&& self.right.len() == 2 * n - 1
        &&& forall|k: int|
            n <= k < 2 * n - 1 ==> (#[trigger] self.left@[k] as int) < k && (
            self.right@[k] as int) < k && self.freq@[k] as int == self.freq@[
                self.left@[k] as int
            ] as int + self.freq@[self.right@[k] as int] as int
        &&& self.codes.len() == n
        &&& self.points.len() == n
        &&& forall|v: int|
            0 <= v < n ==> #[trigger] path_ok(
                self.left@,
                self.right@,
                n,
                self.codes@[v]@,
                self.points@[v]@,
                v,
            )
    }

    /// Builds the tree over the vocabulary counts (index order).  Fails
    /// with `InvalidVocabulary` exactly when there are fewer than two
    /// leaves, for which no binary tree is defined.
    pub fn build(counts: &Vec<u64>) -> (r: Result<HuffmanTree, TrainError>)
        requires
            counts.len() < 0x1000000000000000,
            sum_range(counts@, 0, counts.len() as int) <= u64::MAX,
        ensures
            match r {
                Ok(t) => counts.len() >= 2 && t.wf() && t.n_leaves == counts.len() && forall|
                    v: int,
                |
                    0 <= v < counts.len() ==> #[trigger] t.freq@[v] == counts@[v],
                Err(e) => e == TrainError::InvalidVocabulary && counts.len() < 2,
            },
    {
        let n = counts.len();
        if n < 2 {
            return Err(TrainError::InvalidVocabulary);
        }
        let ghost total = sum_range(counts@, 0, n as int);
        let mut freq: Vec<u64> = Vec::new();
        let mut left: Vec<usize> = Vec::new();
        let mut right: Vec<usize> = Vec::new();
        let mut parent: Vec<usize> = Vec::new();
        let mut pbit: Vec<bool> = Vec::new();
        let mut i: usize = 0;
        while i < n
            invariant
                i <= n,
                n == counts.len(),
                freq@ =~= counts@.take(i as int),
                left.len() == i,
                right.len() == i,
                parent.len() == i,
                pbit.len() == i,
            decreases n - i,
        {
            freq.push(counts[i]);
            left.push(0);
            right.push(0);
            parent.push(0);
            pbit.push(false);
            i = i + 1;
        }
        proof {
            assert(counts@.take(n as int) =~= counts@);
        }
        // Merge loop: two queues.  Leaves are consumed from index `lp - 1`
        // downward (ascending count for a sorted vocabulary); internal
        // nodes are consumed from `ip` upward, in creation order.
        let mut lp: usize = n;
        let mut ip: usize = n;
        while lp + (freq.len() - ip) >= 2
            invariant
                n >= 2,
                n == counts.len(),
                n < 0x1000000000000000,
                lp <= n <= ip <= freq.len(),
                left.len() == freq.len(),
                right.len() == freq.len(),
                parent.len() == freq.len(),
                pbit.len() == freq.len(),
                lp + (freq.len() - ip) >= 1,
                freq.len() > n ==> ip < freq.len(),
                (n - lp) + (ip - n) == 2 * (freq.len() - n),
                forall|v: int| 0 <= v < n ==> #[trigger] freq@[v] == counts@[v],
                sum_range(freq@, 0, lp as int) + sum_range(freq@, ip as int, freq.len() as int)
                    == total,
                total <= u64::MAX,
                forall|k: int|
                    n <= k < freq.len() ==> (#[trigger] left@[k] as int) < k && (
                    right@[k] as int) < k && freq@[k] as int == freq@[left@[k] as int] as int
                        + freq@[right@[k] as int] as int,
                forall|x: int|
                    0 <= x < freq.len() && ((x < n && lp <= x) || (n <= x && x < ip))
                        ==> (#[trigger] parent@[x] as int) > x && n <= parent@[x] as int
                        && (parent@[x] as int) < freq.len() && (if pbit@[x] {
                        right@[parent@[x] as int] as int == x
                    } else {
                        left@[parent@[x] as int] as int == x
                    }),
            decreases lp + (freq.len() - ip),
        {
            let next = freq.len();
            // first minimum
            let take_leaf1 = lp > 0 && (ip == next || freq[lp - 1] <= freq[ip]);
            let id1: usize;
            if take_leaf1 {
                id1 = lp - 1;
                lp = lp - 1;
                proof {
                    lemma_sum_range_end(freq@, 0, lp as int);
                }
            } else {
                id1 = ip;
                ip = ip + 1;
            }
            let f1 = freq[id1];
            proof {
                lemma_sum_range_nonneg(freq@, 0, lp as int);
                lemma_sum_range_nonneg(freq@, ip as int, next as int);
                assert(sum_range(freq@, 0, lp as int) + sum_range(
                    freq@,
                    ip as int,
                    next as int,
                ) == total - f1);
            }
            // second minimum
            let take_leaf2 = lp > 0 && (ip == next || freq[lp - 1] <= freq[ip]);
            let id2: usize;
            if take_leaf2 {
                id2 = lp - 1;
                lp = lp - 1;
                proof {
                    lemma_sum_range_end(freq@, 0, lp as int);
                }
            } else {
                id2 = ip;
                ip = ip + 1;
            }
            let f2 = freq[id2];
            proof {
                lemma_sum_range_nonneg(freq@, 0, lp as int);
                lemma_sum_range_nonneg(freq@, ip as int, next as int);
                assert(sum_range(freq@, 0, lp as int) + sum_range(
                    freq@,
                    ip as int,
                    next as int,
                ) == total - f1 - f2);
                assert(f1 + f2 <= total);
            }
            // the merged node
            parent[id1] = next;
            pbit[id1] = false;
            parent[id2] = next;
            pbit[id2] = true;
            let nf = f1 + f2;
            proof {
                lemma_sum_range_push(freq@, nf, 0, lp as int);
                lemma_sum_range_push(freq@, nf, ip as int, next as int);
                lemma_sum_range_end(freq@.push(nf), ip as int, next as int);
            }
            freq.push(nf);
            left.push(id1);
            right.push(id2);
            parent.push(0);
            pbit.push(false);
            proof {
                assert forall|k: int| n <= k < freq.len() implies (#[trigger] left@[k] as int) < k
                    && (right@[k] as int) < k && freq@[k] as int == freq@[left@[k] as int] as int
                    + freq@[right@[k] as int] as int by {
                    if k < next {
                        assert(left@[k] == left@.subrange(0, next as int)[k]);
                    } else {
                        assert(left@[k] as int == id1 as int);
                        assert(right@[k] as int == id2 as int);
                        assert(freq@[k] == nf);
                    }
                }
                assert forall|x: int|
                    0 <= x < freq.len() && ((x < n && lp <= x) || (n <= x && x < ip)) implies (
                #[trigger] parent@[x] as int) > x && n <= parent@[x] as int && (parent@[x] as int)
                    < freq.len() && (if pbit@[x] {
                    right@[parent@[x] as int] as int == x
                } else {
                    left@[parent@[x] as int] as int == x
                }) by {
                    if x == id1 as int {
                        assert(parent@[x] as int == next as int);
                        assert(!pbit@[x]);
                    } else if x == id2 as int {
                        assert(parent@[x] as int == next as int);
                        assert(pbit@[x]);
                    }
                }
            }
        }
        // Exactly one unconsumed node remains: the root `2n - 2`.
        let m = freq.len();
        proof {
            assert(lp + (m - ip) == 1);
            assert(m > n);
            assert(ip < m);
            assert(lp == 0 && ip == m - 1);
            assert(m == 2 * n - 1);
        }
        // Extract per-leaf codes and points by walking parent links up to
        // the root, then reversing into root-to-leaf order.
        let mut codes: Vec<Vec<bool>> = Vec::new();
        let mut points: Vec<Vec<usize>> = Vec::new();
        let mut v: usize = 0;
        while v < n
            invariant
                n >= 2,
                m == freq.len(),
                m == 2 * n - 1,
                left.len() == m,
                right.len() == m,
                parent.len() == m,
                pbit.len() == m,
                v <= n,
                codes.len() == v,
                points.len() == v,
                forall|x: int|
                    0 <= x < m - 1 ==> (#[trigger] parent@[x] as int) > x && n <= parent@[
                        x
                    ] as int && (parent@[x] as int) < m && (if pbit@[x] {
                        right@[parent@[x] as int] as int == x
                    } else {
                        left@[parent@[x] as int] as int == x
                    }),
                forall|u: int|
                    0 <= u < v ==> #[trigger] path_ok(
                        left@,
                        right@,
                        n as int,
                        codes@[u]@,
                        points@[u]@,
                        u,
                    ),
            decreases n - v,
        {
            let mut ubits: Vec<bool> = Vec::new();
            let mut upts: Vec<usize> = Vec::new();
            let mut cur: usize = v;
            while cur != m - 1
                invariant
                    n >= 2,
                    m == 2 * n - 1,
                    v < n,
                    left.len() == m,
                    right.len() == m,
                    parent.len() == m,
                    pbit.len() == m,
                    cur < m,
                    ubits.len() == upts.len(),
                    (if upts.len() == 0 {
                        cur as int == v
                    } else {
                        cur as int == upts@[upts.len() - 1] as int
                    }),
                    forall|j: int| 0 <= j < upts.len() ==> n <= (#[trigger] upts@[j] as int) < m,
                    forall|j: int|
                        0 <= j < upts.len() ==> (if ubits@[j] {
                            right@[#[trigger] upts@[j] as int] as int
                        } else {
                            left@[upts@[j] as int] as int
                        }) == (if j == 0 {
                            v as int
                        } else {
                            upts@[j - 1] as int
                        }),
                    forall|x: int|
                        0 <= x < m - 1 ==> (#[trigger] parent@[x] as int) > x && n <= parent@[
                            x
                        ] as int && (parent@[x] as int) < m && (if pbit@[x] {
                            right@[parent@[x] as int] as int == x
                        } else {
                            left@[parent@[x] as int] as int == x
                        }),
                decreases m - cur,
            {
                let p = parent[cur];
                ubits.push(pbit[cur]);
                upts.push(p);
                cur = p;
            }
            let ln = upts.len();
            assert(ln >= 1);
            let mut code: Vec<bool> = Vec::new();
            let mut point: Vec<usize> = Vec::new();
            let mut j: usize = 0;
            while j < ln
                invariant
                    j <= ln,
                    ln == upts.len(),
                    ln == ubits.len(),
                    code.len() == j,
                    point.len() == j,
                    forall|t: int| 0 <= t < j ==> #[trigger] code@[t] == ubits@[ln - 1 - t],
                    forall|t: int| 0 <= t < j ==> #[trigger] point@[t] == upts@[ln - 1 - t],
                decreases ln - j,
            {
                code.push(ubits[ln - 1 - j]);
                point.push(upts[ln - 1 - j]);
                j = j + 1;
            }
            proof {
                assert(point@[0] == upts@[ln - 1]);
                assert(upts@[ln - 1] as int == 2 * n - 2);
                assert forall|t: int| 0 <= t < ln - 1 implies (if code@[t] {
                    right@[point@[t] as int] as int
                } else {
                    left@[point@[t] as int] as int
                }) == #[trigger] point@[t + 1] as int by {
                    let k = ln - 1 - t;
                    assert(code@[t] == ubits@[k]);
                    assert(point@[t] == upts@[k]);
                    assert(point@[t + 1] == upts@[k - 1]);
                }
                assert((if code@[ln - 1] {
                    right@[point@[ln - 1] as int] as int
                } else {
                    left@[point@[ln - 1] as int] as int
                }) == v) by {
                    assert(code@[ln - 1] == ubits@[0]);
                    assert(point@[ln - 1] == upts@[0]);
                }
                assert(path_ok(left@, right@, n as int, code@, point@, v as int));
            }
            codes.push(code);
            points.push(point);
            v = v + 1;
        }
        Ok(HuffmanTree { n_leaves: n, freq, left, right, codes, points })
    }
}

} // verus!
