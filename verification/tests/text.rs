use journey_bot::clock::now;
use journey_bot::config::{EmojiConfig, RedditConfig, SetupConfig};
use journey_bot::emoji::Emoji;
use journey_bot::error::BotError;
use journey_bot::text::{time_to_text, u64_to_string};

#[test]
fn numbers_render_in_decimal() {
    assert_eq!(u64_to_string(0), "0");
    assert_eq!(u64_to_string(7), "7");
    assert_eq!(u64_to_string(1234567), "1234567");
    assert_eq!(u64_to_string(u64::MAX), "18446744073709551615");
}

#[test]
fn lifespans_render_unit_by_unit() {
    assert_eq!(time_to_text(86400), "1 day");
    assert_eq!(time_to_text(2 * 86400 + 300), "2 days");
    assert_eq!(time_to_text(2 * 86400 + 61), "2 days1 minute");
    assert_eq!(time_to_text(3661), "1 hour1 minute");
    assert_eq!(time_to_text(59), "59 minutes");
    assert_eq!(time_to_text(0), "0 minute");
}

#[test]
fn errors_carry_their_description() {
    let e = BotError::new("something broke".to_string());
    assert_eq!(e.message(), "something broke");
}

#[test]
fn clock_runs_forward_of_the_epoch() {
    let a = now();
    let b = now();
    assert!(b >= a);
}

#[test]
fn config_values_carry_through() {
    let setup = SetupConfig {
        postgres_url: "postgres://localhost/bot".to_string(),
        admin_guild: 5,
        embed_color: (1, 2, 3),
    };
    assert_eq!(setup.embed_color.1, 2);
    let emoji = EmojiConfig {
        ban: 1,
        feed: 2,
        info: 3,
        join: 4,
        react: 5,
        sticky: 6,
        twitch: 7,
        warn: 8,
    };
    assert_eq!(emoji.warn, 8);
    let reddit = RedditConfig {
        id: "SECRET-REDACTED".to_string(),
        secret: "SECRET-REDACTED".to_string(),
        username: "bot".to_string(),
        password: "SECRET-REDACTED".to_string(),
        user_agent: "bot agent".to_string(),
    };
    assert_eq!(reddit.username, "bot");
    assert!(Emoji::Ban == Emoji::Ban);
    assert!(Emoji::Ban != Emoji::Warning);
}
