use raft_kv::network::message::{
    valid_key, valid_value, Message, MAX_KEY_BYTES, MAX_VALUE_BYTES,
};

#[test]
fn the_limits_are_four_kib_and_one_mib() {
    assert_eq!(MAX_KEY_BYTES, 4 * 1024);
    assert_eq!(MAX_VALUE_BYTES, 1024 * 1024);
}

#[test]
fn keys_keep_their_limit() {
    assert!(valid_key("a"));
    assert!(valid_key(&"k".repeat(4096)));
    assert!(!valid_key(&"k".repeat(4097)));
    assert!(!valid_key(""));
    assert!(!valid_key("a b"));
    assert!(!valid_key("a\nb"));
    // 2048 two-byte characters are 4096 bytes; one more is over the limit.
    assert!(valid_key(&"é".repeat(2048)));
    assert!(!valid_key(&"é".repeat(2049)));
}

#[test]
fn values_keep_their_limit() {
    assert!(valid_value("v"));
    assert!(valid_value(&"v".repeat(1024 * 1024)));
    assert!(!valid_value(&"v".repeat(1024 * 1024 + 1)));
    assert!(!valid_value(""));
    assert!(!valid_value("two words"));
}

#[test]
fn requests_are_valid_when_their_parts_are() {
    assert!(Message::Get("k".to_string()).is_valid());
    assert!(Message::Put("k".to_string(), "v".to_string()).is_valid());
    assert!(Message::Delete("k".to_string()).is_valid());
    assert!(!Message::Get("".to_string()).is_valid());
    assert!(!Message::Put("k".to_string(), "".to_string()).is_valid());
    assert!(!Message::Put("k k".to_string(), "v".to_string()).is_valid());
    assert!(!Message::Put("k".repeat(4097), "v".to_string()).is_valid());
    assert!(Message::Put("k".repeat(4097 - 1), "v".to_string()).is_valid());
    assert!(!Message::Delete("a\tb".to_string()).is_valid());
}
