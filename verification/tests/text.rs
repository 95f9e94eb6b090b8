use chat_relay::markup::{escape_twitch_channel, unescape_twitch_channel, IntoEmoji};
use chat_relay::records::{TriggerRecordNoDiscord, TriggerRecordNoId};
use chat_relay::text::{is_boundary, push_decimal, same_text, slice};

#[test]
fn escape_puts_a_backslash_before_each_underscore() {
    assert_eq!(escape_twitch_channel("some_channel_"), "some\\_channel\\_");
    assert_eq!(escape_twitch_channel("plain"), "plain");
    assert_eq!(escape_twitch_channel(""), "");
    assert_eq!(escape_twitch_channel("__"), "\\_\\_");
    assert_eq!(escape_twitch_channel("é_ü"), "é\\_ü");
}

#[test]
fn names_from_the_network_are_escaped_too() {
    assert_eq!(unescape_twitch_channel("a_b"), "a\\_b");
    assert_eq!(unescape_twitch_channel("ab"), "ab");
}

#[test]
fn marks_for_yes_and_no() {
    assert_eq!(true.emoji(), "✅");
    assert_eq!(false.emoji(), "❌");
}

#[test]
fn decimal_numerals() {
    for (n, expected) in [
        (0u64, "0"),
        (9, "9"),
        (10, "10"),
        (101, "101"),
        (4294967295, "4294967295"),
        (u64::MAX, "18446744073709551615"),
    ] {
        let mut out = String::from("n=");
        push_decimal(&mut out, n);
        assert_eq!(out, format!("n={}", expected));
    }
}

#[test]
fn same_text_compares_contents() {
    assert!(same_text("abc", "abc"));
    assert!(!same_text("abc", "abd"));
    assert!(!same_text("abc", "ab"));
    assert!(same_text("", ""));
}

#[test]
fn boundaries_and_slices() {
    let text = "aé€b";
    assert!(is_boundary(text, 0));
    assert!(is_boundary(text, 1));
    assert!(!is_boundary(text, 2));
    assert!(is_boundary(text, 3));
    assert!(!is_boundary(text, 5));
    assert!(is_boundary(text, 7));
    assert!(!is_boundary(text, 8));
    assert_eq!(slice(text, 1, 3), Some("é"));
    assert_eq!(slice(text, 3, 7), Some("€b"));
    assert_eq!(slice(text, 7, 7), Some(""));
    assert_eq!(slice(text, 2, 3), None);
    assert_eq!(slice(text, 3, 2), None);
    assert_eq!(slice(text, 0, 8), None);
}

#[test]
fn records_hold_their_fields() {
    let listed = TriggerRecordNoDiscord {
        id: 3,
        trigger: "x".to_string(),
        case_sensitive: true,
        regex: false,
    };
    let matched = TriggerRecordNoId {
        discord_user_id: 9,
        trigger: "x".to_string(),
        case_sensitive: true,
        regex: false,
    };
    assert_eq!(listed.id, 3);
    assert_eq!(matched.discord_user_id, 9);
    assert_eq!(listed.trigger, matched.trigger);
    assert_eq!(listed.case_sensitive, matched.case_sensitive);
    assert_eq!(listed.regex, matched.regex);
}
