use rustext::errors::TrainError;
use rustext::train::{export_artifact, run, Loss, Method, TrainConfig};
use rustext::vocab::Vocabulary;

fn corpus_of(lines: &[&str]) -> Vec<Vec<u8>> {
    lines.iter().map(|l| l.as_bytes().to_vec()).collect()
}

fn config(method: Method, loss: Loss) -> TrainConfig {
    TrainConfig {
        method,
        loss,
        init_lr: 25000,
        lr_update_rate: 100,
        dim: 4,
        windows: 1,
        epoch: 1,
        min_count: 1,
        negatives: 2,
        t_sub: 0,
        threads: 1,
        seed: 1,
    }
}

#[test]
fn tokenize_splits_on_whitespace() {
    let line = b"  the cat\tsat \n".to_vec();
    let toks = rustext::tokenize::tokenize(&line);
    let words: Vec<&[u8]> = toks.iter().map(|t| t.as_slice()).collect();
    assert_eq!(words, vec![b"the".as_slice(), b"cat".as_slice(), b"sat".as_slice()]);
}

#[test]
fn vocab_counts_and_order() {
    let corpus = corpus_of(&["the cat sat", "the dog sat"]);
    let v = Vocabulary::build(&corpus, 1).unwrap();
    let toks: Vec<&[u8]> = v.entries.iter().map(|e| e.token.as_slice()).collect();
    assert_eq!(
        toks,
        vec![b"the".as_slice(), b"sat".as_slice(), b"cat".as_slice(), b"dog".as_slice()]
    );
    let counts: Vec<u64> = v.entries.iter().map(|e| e.count).collect();
    assert_eq!(counts, vec![2, 2, 1, 1]);
    assert_eq!(v.total_tokens, 6);
    assert_eq!(v.train_tokens, 6);
}

#[test]
fn vocab_min_count_prunes_rare_tokens() {
    let corpus = corpus_of(&["the cat sat", "the dog sat"]);
    let v = Vocabulary::build(&corpus, 2).unwrap();
    let toks: Vec<&[u8]> = v.entries.iter().map(|e| e.token.as_slice()).collect();
    assert_eq!(toks, vec![b"the".as_slice(), b"sat".as_slice()]);
    for e in &v.entries {
        assert!(e.count >= 2);
    }
    assert_eq!(v.total_tokens, 6);
    assert_eq!(v.train_tokens, 4);
}

#[test]
fn vocab_indices_are_deterministic() {
    let corpus = corpus_of(&["b a a c b a", "c b a d", "e d c b a e"]);
    let v1 = Vocabulary::build(&corpus, 1).unwrap();
    let v2 = Vocabulary::build(&corpus, 1).unwrap();
    assert_eq!(v1.entries.len(), v2.entries.len());
    for (a, b) in v1.entries.iter().zip(v2.entries.iter()) {
        assert_eq!(a.token, b.token);
        assert_eq!(a.count, b.count);
        assert_eq!(a.rank, b.rank);
    }
    // descending counts, ties resolved by first-seen order
    for w in v1.entries.windows(2) {
        assert!(
            w[0].count > w[1].count || (w[0].count == w[1].count && w[0].rank < w[1].rank)
        );
    }
}

#[test]
fn vocab_empty_after_pruning_is_an_error() {
    let corpus = corpus_of(&["one two three"]);
    match Vocabulary::build(&corpus, 5) {
        Err(TrainError::EmptyVocabulary) => {}
        other => panic!("expected EmptyVocabulary, got {:?}", other.map(|v| v.entries.len())),
    }
}

#[test]
fn end_to_end_skipgram_negative() {
    let corpus = corpus_of(&["the cat sat", "the dog sat"]);
    let cfg = config(Method::Skipgram, Loss::Negative);
    let model = run(&cfg, &corpus).unwrap();
    let artifact = export_artifact(&model);
    assert_eq!(artifact.len(), 4);
    let toks: Vec<&[u8]> = artifact.iter().map(|(t, _)| t.as_slice()).collect();
    assert_eq!(
        toks,
        vec![b"the".as_slice(), b"sat".as_slice(), b"cat".as_slice(), b"dog".as_slice()]
    );
    let counts: Vec<u64> = model.vocab.entries.iter().map(|e| e.count).collect();
    assert_eq!(counts, vec![2, 2, 1, 1]);
    for (_, vec) in &artifact {
        assert_eq!(vec.len(), 4);
        for &x in vec {
            // fixed-point coordinates stay in the saturated range: the
            // exported values are always finite
            assert!(x.abs() <= rustext::fixedpoint::VEC_LIMIT);
            let f = (x as f64) / (rustext::fixedpoint::FP_ONE as f64);
            assert!(f.is_finite());
        }
    }
}

#[test]
fn end_to_end_min_count_too_high_fails() {
    let corpus = corpus_of(&["the cat sat", "the dog sat"]);
    let mut cfg = config(Method::Skipgram, Loss::Negative);
    cfg.min_count = 100;
    assert_eq!(run(&cfg, &corpus).err(), Some(TrainError::EmptyVocabulary));
}

#[test]
fn end_to_end_hierarchical_single_token_fails() {
    let corpus = corpus_of(&["hello hello hello"]);
    let cfg = config(Method::Skipgram, Loss::Hierarchical);
    assert_eq!(run(&cfg, &corpus).err(), Some(TrainError::InvalidVocabulary));
}

#[test]
fn zero_learning_rate_fails() {
    let corpus = corpus_of(&["the cat sat"]);
    let mut cfg = config(Method::Skipgram, Loss::Negative);
    cfg.init_lr = 0;
    assert_eq!(run(&cfg, &corpus).err(), Some(TrainError::InvalidRate));
}

#[test]
fn single_thread_runs_are_deterministic() {
    let corpus = corpus_of(&["the quick brown fox", "the lazy dog", "the quick dog runs"]);
    let cfg = config(Method::Skipgram, Loss::Negative);
    let m1 = run(&cfg, &corpus).unwrap();
    let m2 = run(&cfg, &corpus).unwrap();
    let a1 = export_artifact(&m1);
    let a2 = export_artifact(&m2);
    assert_eq!(a1.len(), a2.len());
    for ((t1, v1), (t2, v2)) in a1.iter().zip(a2.iter()) {
        assert_eq!(t1, t2);
        assert_eq!(v1, v2);
    }
}

#[test]
fn end_to_end_cbow_hierarchical() {
    let corpus = corpus_of(&["a b c d e", "a c e b d", "e d c b a"]);
    let cfg = config(Method::Cbow, Loss::Hierarchical);
    let model = run(&cfg, &corpus).unwrap();
    assert_eq!(model.vocab.entries.len(), 5);
    assert_eq!(model.store.input.len(), 5);
    assert_eq!(model.store.output.len(), 4);
    assert!(model.tree.is_some());
    let artifact = export_artifact(&model);
    assert_eq!(artifact.len(), 5);
    for (_, vec) in &artifact {
        assert_eq!(vec.len(), 4);
    }
}

#[test]
fn end_to_end_cbow_negative() {
    let corpus = corpus_of(&["x y z", "y z x y"]);
    let cfg = config(Method::Cbow, Loss::Negative);
    let model = run(&cfg, &corpus).unwrap();
    assert_eq!(model.store.output.len(), model.vocab.entries.len());
    assert!(model.tree.is_none());
}

#[test]
fn error_names_are_stable() {
    assert_eq!(TrainError::EmptyVocabulary.name(), "EmptyVocabulary");
    assert_eq!(TrainError::InvalidVocabulary.name(), "InvalidVocabulary");
    assert_eq!(TrainError::InvalidRate.name(), "InvalidRate");
    assert_eq!(TrainError::CorpusIoError.name(), "CorpusIoError");
    assert_eq!(TrainError::ExportIoError.name(), "ExportIoError");
}
