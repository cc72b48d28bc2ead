use journey_bot::pool::{GuildPool, NewMessage};
use journey_bot::punished::RecentlyPunishedStore;
use journey_bot::similarity::SCALE;
use journey_bot::spam_config::{AntiSpamConfig, Punishment};

fn config(re_punish_threshold: u64) -> AntiSpamConfig {
    AntiSpamConfig {
        punishment: Punishment::Mute,
        timeout_minutes: 10,
        max_messages: vec![3],
        similarity_thresholds: vec![900_000],
        re_punish_threshold,
        time_frame_seconds: 60,
        clean_user: false,
    }
}

fn message(id: u64, content: &str, author_id: u64, channel_id: u64, timestamp: u64) -> NewMessage {
    NewMessage {
        id,
        content: content.as_bytes().to_vec(),
        guild_id: 1,
        channel_id,
        author_name: "someone".to_string(),
        author_id,
        timestamp,
    }
}

#[test]
fn re_offense_is_spam_on_first_occurrence() {
    let mut pool = GuildPool::new(1, config(500_000), RecentlyPunishedStore::new());
    pool.upsert_punished(&b"buy cheap followers now".to_vec(), 0);
    let v = pool.classify(&message(1, "buy cheap followers now", 42, 7, 5), 5);
    assert!(v.is_spam);
    // exact match against the punished fingerprint
    assert_eq!(v.confidence, SCALE);
    // the cluster held only this one message: bucket size did not matter
    let evidence = v.evidence.unwrap();
    assert_eq!(evidence.messages.len(), 1);
}

#[test]
fn punished_upsert_is_keyed_by_exact_content() {
    let mut pool = GuildPool::new(1, config(500_000), RecentlyPunishedStore::new());
    pool.upsert_punished(&b"spam text".to_vec(), 10);
    pool.upsert_punished(&b"spam text".to_vec(), 20);
    pool.upsert_punished(&b"other text".to_vec(), 30);
    let records = pool.punished_records();
    assert_eq!(records.len(), 2);
    assert_eq!(records[0].content, b"spam text".to_vec());
    assert_eq!(records[0].timestamp, 20);
    assert_eq!(records[1].content, b"other text".to_vec());
}

#[test]
fn remove_punished_by_id() {
    let mut pool = GuildPool::new(1, config(500_000), RecentlyPunishedStore::new());
    pool.upsert_punished(&b"first".to_vec(), 0);
    pool.upsert_punished(&b"second".to_vec(), 0);
    let id = pool.punished_records()[0].id;
    assert!(pool.remove_punished(id));
    assert!(!pool.remove_punished(id));
    assert_eq!(pool.punished_records().len(), 1);
    assert_eq!(pool.punished_records()[0].content, b"second".to_vec());
}

#[test]
fn expiry_removes_old_records_and_disarms_the_fast_path() {
    let mut pool = GuildPool::new(1, config(500_000), RecentlyPunishedStore::new());
    pool.upsert_punished(&b"buy cheap followers now".to_vec(), 0);
    // before the sweep, the same content re-posted is an instant re-offense
    let v = pool.classify(&message(1, "buy cheap followers now", 42, 7, 1), 1);
    assert!(v.is_spam);
    // seven days later the record is past its lifetime; the sweep drops it
    let after = 60 * 60 * 24 * 7 + 2;
    pool.expire_punished(after);
    assert_eq!(pool.punished_records().len(), 0);
    // the same content from a fresh user now goes through the bucket path:
    // a first post opens a new bucket and is not spam
    let v = pool.classify(&message(2, "buy cheap followers now", 99, 7, after), after);
    assert!(!v.is_spam);
    assert_eq!(v.confidence, 0);
    assert!(v.evidence.is_none());
}

#[test]
fn clean_user_takes_messages_grouped_per_channel() {
    let mut pool = GuildPool::new(1, config(1_100_000), RecentlyPunishedStore::new());
    // the same text lands in one bucket, across two channels
    pool.classify(&message(1, "buy cheap followers now", 42, 7, 1), 1);
    pool.classify(&message(2, "buy cheap followers now", 42, 8, 2), 2);
    pool.classify(&message(3, "buy cheap followers now", 42, 7, 3), 3);
    let batches = pool.take_user_messages(42);
    assert_eq!(batches.len(), 2);
    assert_eq!(batches[0].channel_id, 7);
    assert_eq!(batches[0].message_ids, vec![1, 3]);
    assert_eq!(batches[1].channel_id, 8);
    assert_eq!(batches[1].message_ids, vec![2]);
    // the user's bucket set is gone: nothing left to take
    assert_eq!(pool.take_user_messages(42).len(), 0);
}

#[test]
fn cleanup_prunes_emptied_buckets() {
    let mut pool = GuildPool::new(1, config(1_100_000), RecentlyPunishedStore::new());
    pool.classify(&message(1, "first topic entirely", 42, 7, 0), 0);
    pool.classify(&message(2, "unrelated second sentence", 42, 7, 5), 5);
    assert_eq!(pool.users()[0].buckets.len(), 2);
    // both messages are stale two minutes later
    pool.cleanup(120);
    assert_eq!(pool.users()[0].buckets.len(), 0);
}
