use activity_notifier::config::{config_from_values, parse_bool, parse_u64};
use activity_notifier::msg_storage::{eviction_list, MessageKey, MessageStorage};

fn key(n: i64) -> MessageKey {
    MessageKey { chat_id: 0, message_id: n }
}

#[test]
fn test_1() {
    let mut msg = MessageStorage::new();
    msg.add_message_at(key(1), 1000);
    msg.add_message_at(key(2), 1000);
    msg.add_message_at(key(3), 1001);
    assert_eq!(msg.get_old_messages_at(0, 1001), [key(1), key(2)]);
    msg.remove_messages(vec![key(1)]);
    assert_eq!(msg.get_old_messages_at(0, 1001), [key(2)]);
}

#[test]
fn test_2() {
    let now: i64 = 1_000_000_000;
    let day: i64 = 60 * 60 * 24;
    let mut msg = MessageStorage::new();
    msg.add_message_at(key(1), now);
    msg.add_message_at(key(2), now - day);
    msg.add_message_at(key(3), now - 2 * day);
    msg.add_message_at(key(4), now - 3 * day);

    let text = msg.to_json_string();
    let reloaded = MessageStorage::new_from_str(&text);
    let msgs = reloaded.get_old_messages_at(36 * 60 * 60, now);
    assert_eq!(msgs, [key(3), key(4)]);
}

#[test]
fn store_round_trip_preserves_expiry() {
    let mut msg = MessageStorage::new();
    msg.add_message_at(key(10), 100);
    msg.add_message_at(key(11), 100);
    msg.add_message_at(key(12), 200);
    // Between the second and third insertion, only the first two are old.
    assert_eq!(msg.get_old_messages_at(150, 300), [key(10), key(11)]);
    msg.remove_messages(vec![key(10)]);
    assert_eq!(msg.get_old_messages_at(150, 300), [key(11)]);

    let text = msg.to_json_string();
    let reloaded = MessageStorage::new_from_str(&text);
    assert_eq!(reloaded.message_count(), 2);
    assert_eq!(reloaded.get_old_messages_at(150, 300), [key(11)]);
}

#[test]
fn recording_twice_keeps_the_first_timestamp() {
    let mut msg = MessageStorage::new();
    msg.add_message_at(key(1), 100);
    msg.add_message_at(key(1), 200);
    assert_eq!(msg.message_count(), 1);
    // A cutoff just above the first stamp still reports the key old:
    // the second recording did not move the stamp forward.
    assert_eq!(msg.get_old_messages_at(0, 101), [key(1)]);
}

#[test]
fn recording_with_the_real_clock() {
    let mut msg = MessageStorage::new();
    msg.add_message(key(1));
    msg.add_message(key(1));
    assert_eq!(msg.message_count(), 1);
    assert!(msg.contains_key(key(1)));
    assert!(!msg.contains_key(key(2)));
    // Nothing a year old is in a store filled a moment ago.
    assert_eq!(msg.get_old_messages(365 * 24 * 60 * 60), []);
    assert_eq!(msg.get_old_messages_std(365 * 24 * 60 * 60), []);
}

#[test]
fn persisted_text_is_dated_json() {
    let mut msg = MessageStorage::new();
    msg.add_message_at(MessageKey { chat_id: 1, message_id: 2 }, 0);
    let text = msg.to_json_string();
    assert_eq!(text, "[[[1,2],\"1970-01-01 00:00:00 UTC\"]]");
}

#[test]
fn unreadable_entries_are_dropped_on_load() {
    let empty = MessageStorage::new_from_str("this is not json");
    assert_eq!(empty.message_count(), 0);

    let partial = MessageStorage::new_from_str(
        "[[[1,2],\"not a date\"],[[3,4],\"1970-01-02 00:00:00 UTC\"]]",
    );
    assert_eq!(partial.message_count(), 1);
    assert!(partial.contains_key(MessageKey { chat_id: 3, message_id: 4 }));
}

#[test]
fn loading_keeps_the_first_of_duplicate_keys() {
    let entries = vec![
        ((1, 2), "1970-01-02 00:00:00 UTC".to_string()),
        ((1, 2), "1970-01-03 00:00:00 UTC".to_string()),
        ((3, 4), "1970-01-04 00:00:00 UTC".to_string()),
    ];
    let st = MessageStorage::from_entries(&entries);
    assert_eq!(st.message_count(), 2);
    // The duplicate's first stamp is the one kept: a cutoff between the
    // two stamps still reports the key old.
    assert_eq!(
        st.get_old_messages_at(0, 2 * 24 * 60 * 60),
        [MessageKey { chat_id: 1, message_id: 2 }]
    );
}

#[test]
fn loading_accepts_equivalent_timestamp_spellings() {
    // The parser behind the loader takes a relaxed date-and-time
    // grammar, so an equivalent spelling loads with the same moment.
    let st = MessageStorage::new_from_str("[[[1,2],\"1970-01-02T00:00:00Z\"]]");
    assert_eq!(st.message_count(), 1);
    assert_eq!(
        st.get_old_messages_at(0, 2 * 24 * 60 * 60),
        [MessageKey { chat_id: 1, message_id: 2 }]
    );
}

#[test]
fn loading_drops_out_of_range_stamps() {
    // A date before the epoch parses but lies outside the store's
    // supported range, so the entry is dropped like an unreadable one.
    let st = MessageStorage::new_from_str(
        "[[[1,2],\"1969-12-31 00:00:00 UTC\"],[[3,4],\"1970-01-02 00:00:00 UTC\"]]",
    );
    assert_eq!(st.message_count(), 1);
    assert!(st.contains_key(MessageKey { chat_id: 3, message_id: 4 }));
}

#[test]
fn eviction_combines_successes_and_stale_failures() {
    let deleted = vec![key(1)];
    let failed = vec![key(2), key(3)];
    let long_expired = vec![key(3), key(4)];
    assert_eq!(
        eviction_list(deleted, &failed, &long_expired),
        [key(1), key(3)]
    );
}

#[test]
fn eviction_without_failures_keeps_only_successes() {
    let deleted = vec![key(1), key(2)];
    let failed = Vec::new();
    let long_expired = vec![key(1), key(9)];
    assert_eq!(eviction_list(deleted, &failed, &long_expired), [key(1), key(2)]);
}

#[test]
fn test_config() {
    let config = config_from_values(Some("token"), Some("42"), Some("false")).unwrap();
    assert_eq!(config.auto_subscribe, false);
    assert_eq!(config.token, "token");
    assert_eq!(config.owner_id, 42);
}

#[test]
fn config_defaults_and_failures() {
    let defaulted = config_from_values(Some("t"), Some("7"), None).unwrap();
    assert_eq!(defaulted.auto_subscribe, true);

    let unreadable = config_from_values(Some("t"), Some("7"), Some("maybe")).unwrap();
    assert_eq!(unreadable.auto_subscribe, true);

    assert!(config_from_values(None, Some("7"), None).is_none());
    assert!(config_from_values(Some("t"), None, None).is_none());
    assert!(config_from_values(Some("t"), Some("x"), None).is_none());
}

#[test]
fn number_parsing() {
    assert_eq!(parse_u64("42"), Some(42));
    assert_eq!(parse_u64("+42"), Some(42));
    assert_eq!(parse_u64("0"), Some(0));
    assert_eq!(parse_u64("18446744073709551615"), Some(u64::MAX));
    assert_eq!(parse_u64("18446744073709551616"), None);
    assert_eq!(parse_u64(""), None);
    assert_eq!(parse_u64("+"), None);
    assert_eq!(parse_u64("4 2"), None);
    assert_eq!(parse_u64("-42"), None);
    assert_eq!(parse_u64("abc"), None);
    assert_eq!(parse_u64("1a"), None);
}

#[test]
fn bool_parsing() {
    assert_eq!(parse_bool("true"), Some(true));
    assert_eq!(parse_bool("false"), Some(false));
    assert_eq!(parse_bool("True"), None);
    assert_eq!(parse_bool(""), None);
}
