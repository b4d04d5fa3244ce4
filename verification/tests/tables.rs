use rustext::fixedpoint::{isqrt_u128, sigmoid_fp, Rng};
use rustext::huffman::HuffmanTree;
use rustext::rate::current_rate;
use rustext::sampling::{discard_prob_micro, unigram_weight, UnigramTable};
use rustext::vocab::VocabEntry;

fn entries_with_counts(counts: &[u64]) -> Vec<VocabEntry> {
    counts
        .iter()
        .enumerate()
        .map(|(i, &c)| VocabEntry { token: vec![b'a' + i as u8], count: c, rank: i })
        .collect()
}

#[test]
fn isqrt_exact_values() {
    assert_eq!(isqrt_u128(0), 0);
    assert_eq!(isqrt_u128(1), 1);
    assert_eq!(isqrt_u128(3), 1);
    assert_eq!(isqrt_u128(4), 2);
    assert_eq!(isqrt_u128(1000000), 1000);
    assert_eq!(isqrt_u128(4294967296), 65536);
    assert_eq!(isqrt_u128(u64::MAX as u128), 4294967295);
}

#[test]
fn rng_is_deterministic() {
    let mut a = Rng::new(42);
    let mut b = Rng::new(42);
    for _ in 0..100 {
        assert_eq!(a.next_u64(), b.next_u64());
    }
    let mut c = Rng::new(43);
    let mut a2 = Rng::new(42);
    let mut differs = false;
    for _ in 0..10 {
        if a2.next_u64() != c.next_u64() {
            differs = true;
        }
    }
    assert!(differs);
}

#[test]
fn sigmoid_center_bounds_and_monotonicity() {
    assert_eq!(sigmoid_fp(0), 32768);
    let mut prev = sigmoid_fp(-393216);
    let mut x: i64 = -393216 + 4096;
    while x <= 393216 {
        let s = sigmoid_fp(x);
        assert!(s > 0 && s < 65536);
        assert!(s >= prev);
        prev = s;
        x += 4096;
    }
    // symmetric around one half
    assert_eq!(sigmoid_fp(65536) - 32768, 32768 - sigmoid_fp(-65536));
}

#[test]
fn huffman_structure() {
    let counts: Vec<u64> = vec![5, 3, 2, 2];
    let t = HuffmanTree::build(&counts).unwrap();
    let n = t.n_leaves;
    assert_eq!(n, 4);
    // exactly n - 1 internal nodes
    assert_eq!(t.freq.len(), 2 * n - 1);
    // leaves carry the vocabulary counts
    for v in 0..n {
        assert_eq!(t.freq[v], counts[v]);
    }
    // every internal node's frequency is the sum of its children's
    for k in n..(2 * n - 1) {
        let l = t.left[k];
        let r = t.right[k];
        assert!(l < k && r < k);
        assert_eq!(t.freq[k], t.freq[l] + t.freq[r]);
    }
    // the root accumulates every leaf
    assert_eq!(t.freq[2 * n - 2], counts.iter().sum::<u64>());
    // each leaf's code length equals the depth of its path, and walking
    // the code bits from the root reaches the leaf
    for v in 0..n {
        let code = &t.codes[v];
        let point = &t.points[v];
        assert_eq!(code.len(), point.len());
        assert!(!code.is_empty());
        assert_eq!(point[0], 2 * n - 2);
        let mut cur = 2 * n - 2;
        for j in 0..code.len() {
            assert_eq!(point[j], cur);
            cur = if code[j] { t.right[cur] } else { t.left[cur] };
        }
        assert_eq!(cur, v);
    }
}

#[test]
fn huffman_single_leaf_is_an_error() {
    let counts: Vec<u64> = vec![7];
    assert!(HuffmanTree::build(&counts).is_err());
}

#[test]
fn unigram_weight_tracks_three_quarter_power() {
    for &c in &[1u64, 2, 10, 100, 10000, 1000000] {
        let w = unigram_weight(c) as f64;
        let expect = (c as f64).powf(0.75);
        assert!((w - expect).abs() <= expect * 0.02 + 1.0, "count {}: {} vs {}", c, w, expect);
    }
}

#[test]
fn unigram_draws_match_smoothed_distribution() {
    // Exhaustively sweep the draw space: the observed distribution must
    // match count^0.75 within chi-square tolerance.
    let counts: Vec<u64> = vec![10000, 5000, 2500, 1250];
    let entries = entries_with_counts(&counts);
    let table = UnigramTable::build(&entries);
    let total = *table.cum.last().unwrap();
    let mut observed = vec![0u64; counts.len()];
    for r in 0..total {
        let k = table.draw(r);
        observed[k] += 1;
    }
    let weights: Vec<f64> = counts.iter().map(|&c| (c as f64).powf(0.75)).collect();
    let wsum: f64 = weights.iter().sum();
    let mut chi2 = 0.0f64;
    for i in 0..counts.len() {
        let expected = weights[i] / wsum * (total as f64);
        let d = observed[i] as f64 - expected;
        chi2 += d * d / expected;
    }
    // 3 degrees of freedom, far under the 0.001 critical value (16.27)
    assert!(chi2 < 16.27, "chi2 = {}", chi2);
}

#[test]
fn subsampling_zero_at_or_below_threshold() {
    // f(w) = 0.001 == t_sub: never discarded
    assert_eq!(discard_prob_micro(1, 1000, 1000), 0);
    // below the threshold: never discarded
    assert_eq!(discard_prob_micro(1, 10000, 1000), 0);
}

#[test]
fn subsampling_grows_with_frequency_and_matches_formula() {
    let train = 1000000u64;
    let t_sub = 1000u64;  // 0.001
    let mut prev = 0u64;
    for &c in &[1000u64, 2000, 5000, 20000, 100000, 500000, 1000000] {
        let p = discard_prob_micro(c, train, t_sub);
        assert!(p >= prev, "discard probability fell from {} to {}", prev, p);
        assert!(p < 1000000);
        prev = p;
    }
    // f = 0.1, t = 0.001: p = 1 - sqrt(0.01) - 0.01 = 0.89
    let p = discard_prob_micro(100000, 1000000, 1000) as f64 / 1e6;
    assert!((p - 0.89).abs() < 0.001, "p = {}", p);
}

#[test]
fn learning_rate_decays_and_stays_positive() {
    let init = 25000u64;
    let train = 999u64;
    // denom = 1 * 999 + 1 = 1000
    assert_eq!(current_rate(init, 1, train, 0), 25000);
    assert_eq!(current_rate(init, 1, train, 500), 12500);
    let mut prev = u64::MAX;
    for p in [0u64, 1, 10, 100, 500, 900, 999, 10000, u64::MAX] {
        let r = current_rate(init, 1, train, p);
        assert!(r <= prev);
        assert!(r >= 1, "rate dropped to zero at {}", p);
        prev = r;
    }
}
