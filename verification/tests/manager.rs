use journey_bot::manager::PoolManager;
use journey_bot::pool::{GuildPool, NewMessage};
use journey_bot::punished::RecentlyPunishedStore;
use journey_bot::similarity::SCALE;
use journey_bot::spam_config::{AntiSpamConfig, Punishment};

fn config() -> AntiSpamConfig {
    AntiSpamConfig {
        punishment: Punishment::Mute,
        timeout_minutes: 10,
        max_messages: vec![3],
        similarity_thresholds: vec![900_000],
        re_punish_threshold: 1_100_000,
        time_frame_seconds: 60,
        clean_user: false,
    }
}

fn message(id: u64, content: &str, timestamp: u64) -> NewMessage {
    NewMessage {
        id,
        content: content.as_bytes().to_vec(),
        guild_id: 1,
        channel_id: 7,
        author_name: "someone".to_string(),
        author_id: 42,
        timestamp,
    }
}

fn manager_with_pool() -> PoolManager {
    let mut m = PoolManager::new();
    m.insert_pool(GuildPool::new(1, config(), RecentlyPunishedStore::new()));
    m
}

#[test]
fn repeated_copies_trigger_exactly_one_punishment() {
    let mut m = manager_with_pool();
    let v1 = m.handle_new_message(&message(1, "buy cheap followers now", 0), 0).unwrap();
    let v2 = m.handle_new_message(&message(2, "buy cheap followers now", 5), 5).unwrap();
    let v3 = m.handle_new_message(&message(3, "buy cheap followers now", 10), 10).unwrap();
    assert!(!v1.is_spam);
    assert!(!v2.is_spam);
    assert!(v3.is_spam);
    // three identical copies give full confidence
    assert_eq!(v3.confidence, SCALE);
    // the evidence report holds all three messages, in order
    let evidence = v3.evidence.unwrap();
    let ids: Vec<u64> = evidence.messages.iter().map(|x| x.message_id).collect();
    assert_eq!(ids, vec![1, 2, 3]);
}

#[test]
fn unrelated_sentences_open_separate_buckets_and_stay_clean() {
    let mut m = manager_with_pool();
    let v1 = m.handle_new_message(&message(1, "good morning everyone", 0), 0).unwrap();
    let v2 = m.handle_new_message(&message(2, "the weather is lovely today", 3), 3).unwrap();
    let v3 = m.handle_new_message(&message(3, "does anyone play chess", 6), 6).unwrap();
    assert!(!v1.is_spam && !v2.is_spam && !v3.is_spam);
    let pool = m.pool(1).unwrap();
    assert_eq!(pool.users()[0].buckets.len(), 3);
}

#[test]
fn messages_without_a_pool_are_dropped() {
    let mut m = PoolManager::new();
    assert!(m.handle_new_message(&message(1, "anything", 0), 0).is_none());
    assert!(!m.has_pool(1));
}

#[test]
fn disabling_a_guild_is_idempotent() {
    let mut m = manager_with_pool();
    assert!(m.has_pool(1));
    m.handle_update_config(1, true, None);
    assert!(!m.has_pool(1));
    // disabling again is a no-op, not an error
    m.handle_update_config(1, true, None);
    assert!(!m.has_pool(1));
}

#[test]
fn config_refetch_replaces_the_cached_config() {
    let mut m = manager_with_pool();
    let mut fresh = config();
    fresh.timeout_minutes = 99;
    m.handle_update_config(1, false, Some(fresh));
    assert_eq!(m.pool(1).unwrap().config().timeout_minutes, 99);
    // a failed fetch leaves the configuration in place
    m.handle_update_config(1, false, None);
    assert_eq!(m.pool(1).unwrap().config().timeout_minutes, 99);
}

#[test]
fn clean_all_sweeps_every_pool() {
    let mut m = manager_with_pool();
    m.handle_new_message(&message(1, "hello there friends", 0), 0);
    m.clean_all(120);
    let pool = m.pool(1).unwrap();
    assert_eq!(pool.users()[0].buckets.len(), 0);
}

#[test]
fn expire_all_punished_clears_old_records() {
    let mut m = PoolManager::new();
    let mut pool = GuildPool::new(1, config(), RecentlyPunishedStore::new());
    pool.upsert_punished(&b"old spam".to_vec(), 0);
    m.insert_pool(pool);
    m.expire_all_punished(60 * 60 * 24 * 7 + 2);
    assert_eq!(m.pool(1).unwrap().punished_records().len(), 0);
}

#[test]
fn dump_renders_the_pool_state() {
    let mut m = manager_with_pool();
    m.handle_new_message(&message(11, "hi", 3), 3);
    let text = m.dump(1).unwrap();
    assert_eq!(text, "User 42:\n  Bucket (0):\n    11 | 3 | hi\n");
    assert!(m.dump(2).is_none());
}

#[test]
fn near_copies_share_a_bucket() {
    let mut m = manager_with_pool();
    m.handle_new_message(&message(1, "buy cheap followers now", 0), 0);
    m.handle_new_message(&message(2, "buy cheap follower now", 3), 3);
    let pool = m.pool(1).unwrap();
    assert_eq!(pool.users()[0].buckets.len(), 1);
    assert_eq!(pool.users()[0].buckets[0].messages.len(), 2);
}
