use journey_bot::similarity::{similarity, SimilarityScorer, SCALE};

fn bytes(s: &str) -> Vec<u8> {
    s.as_bytes().to_vec()
}

#[test]
fn identical_contents_score_full_scale() {
    let a = bytes("buy cheap followers now");
    let b = bytes("buy cheap followers now");
    assert_eq!(similarity(&a, &b), SCALE);
    let empty = bytes("");
    assert_eq!(similarity(&empty, &empty), SCALE);
}

#[test]
fn similarity_is_symmetric() {
    let pairs = [
        ("buy cheap followers now", "buy cheap follower now"),
        ("hello world", "entirely different text"),
        ("", "abc"),
        ("abcd", "abdc"),
    ];
    for (x, y) in pairs {
        let a = bytes(x);
        let b = bytes(y);
        assert_eq!(similarity(&a, &b), similarity(&b, &a));
    }
}

#[test]
fn similarity_exact_value() {
    // "ab" vs "ad": edit distance 1 of length 2 gives a base of half the
    // scale; one shared leading byte adds a tenth of the headroom.
    let a = bytes("ab");
    let b = bytes("ad");
    assert_eq!(similarity(&a, &b), 550_000);
    // no shared prefix, no boost
    let c = bytes("xb");
    assert_eq!(similarity(&a, &c), 500_000);
}

#[test]
fn similarity_stays_within_scale() {
    let samples = [
        ("a", "b"),
        ("spam spam spam", "spam spam spam!"),
        ("short", "a much longer unrelated sentence"),
    ];
    for (x, y) in samples {
        let s = similarity(&bytes(x), &bytes(y));
        assert!(s <= SCALE);
    }
}

#[test]
fn unrelated_sentences_score_low() {
    let a = bytes("the quick brown fox");
    let b = bytes("pay my invoice immediately");
    assert!(similarity(&a, &b) < 900_000);
}

#[test]
fn batch_scorer_matches_direct_similarity() {
    let reference = bytes("buy cheap followers now");
    let scorer = SimilarityScorer::new(reference.clone());
    for candidate in ["buy cheap followers now", "buy cheap follower now", "hello"] {
        let c = bytes(candidate);
        assert_eq!(scorer.score(&c), similarity(&reference, &c));
    }
}
