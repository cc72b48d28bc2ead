use journey_bot::bucket::{Bucket, BucketMessage};
use journey_bot::similarity::SCALE;

fn msg(id: u64, content: &str, timestamp: u64) -> BucketMessage {
    BucketMessage {
        content: content.as_bytes().to_vec(),
        message_id: id,
        channel_id: 7,
        timestamp,
    }
}

#[test]
fn bucket_never_exceeds_its_cap_and_evicts_oldest_first() {
    let mut b = Bucket::new();
    for i in 0..4u64 {
        b.add_message(msg(i, "same text", i), 0, 3);
    }
    assert_eq!(b.len(), 3);
    let ids: Vec<u64> = b.messages.iter().map(|m| m.message_id).collect();
    assert_eq!(ids, vec![1, 2, 3]);
}

#[test]
fn add_message_records_the_score() {
    let mut b = Bucket::new();
    b.add_message(msg(1, "text", 0), 123_456, 5);
    assert_eq!(b.last_score, 123_456);
}

#[test]
fn stale_messages_are_evicted() {
    let mut b = Bucket::new();
    b.add_message(msg(1, "old", 0), 0, 10);
    b.add_message(msg(2, "fresh", 100), 0, 10);
    b.remove_old_messages(100, 60);
    assert_eq!(b.len(), 1);
    assert_eq!(b.messages[0].message_id, 2);
    // a bucket emptied by eviction is reclaimable
    b.remove_old_messages(1000, 60);
    assert!(b.is_empty());
}

#[test]
fn mean_similarity_exact_values() {
    let mut b = Bucket::new();
    b.add_message(msg(1, "aa", 0), 0, 10);
    b.add_message(msg(2, "aa", 1), 0, 10);
    let candidate = b"aa".to_vec();
    assert_eq!(b.mean_similarity(&candidate), SCALE);
    // "ab" vs "aa" scores 550000, so the mean over { "aa", "ab" } against
    // "aa" is (1000000 + 550000) / 2.
    let mut mixed = Bucket::new();
    mixed.add_message(msg(1, "aa", 0), 0, 10);
    mixed.add_message(msg(2, "ab", 1), 0, 10);
    assert_eq!(mixed.mean_similarity(&candidate), 775_000);
}
