use chat_relay::engine::{evaluate, RecipientSpans};
use chat_relay::fold::to_text_spans;
use chat_relay::message::TwitchMessageSimple;
use chat_relay::pattern::{find_trigger, regex_source_of, to_spans, PatternCompileError};
use chat_relay::records::{is_ignored, IgnoreEntry, TriggerRecordNoId};
use chat_relay::router::{
    process, process_at, route, NotificationQueue, QueueFullError, TriggerEvent,
};
use chat_relay::search::{find_occurrences, matches_at};
use chat_relay::span::merge;

fn trigger(owner: i64, pattern: &str, case_sensitive: bool, regex: bool) -> TriggerRecordNoId {
    TriggerRecordNoId {
        discord_user_id: owner,
        trigger: pattern.to_string(),
        case_sensitive,
        regex,
    }
}

fn message(author: &str, text: &str) -> TwitchMessageSimple {
    TwitchMessageSimple::new("channel".to_string(), author.to_string(), text.to_string())
}

fn spans_of(matches: &[RecipientSpans], recipient: i64) -> Option<Vec<(u16, u16)>> {
    matches.iter().find(|m| m.recipient == recipient).map(|m| m.spans.clone())
}

#[test]
fn plain_trigger_finds_every_occurrence() {
    let outcome = evaluate(
        &message("bob", "hello world hello"),
        &vec![trigger(1, "hello", false, false)],
        &vec![],
    );
    assert_eq!(outcome.matches.len(), 1);
    assert_eq!(outcome.matches[0].recipient, 1);
    assert_eq!(outcome.matches[0].spans, vec![(0, 5), (12, 17)]);
    assert_eq!(merge(&outcome.matches[0].spans), vec![(0, 5), (12, 17)]);
    assert!(outcome.failures.is_empty());
}

#[test]
fn overlapping_triggers_merge_into_one_span() {
    let outcome = evaluate(
        &message("bob", "hello"),
        &vec![trigger(1, "hel", false, false), trigger(1, "ello", false, false)],
        &vec![],
    );
    assert_eq!(spans_of(&outcome.matches, 1), Some(vec![(0, 3), (1, 5)]));
    assert_eq!(merge(&outcome.matches[0].spans), vec![(0, 5)]);
}

#[test]
fn case_sensitive_trigger_needs_the_same_case() {
    let t = trigger(1, "Test", true, false);
    assert_eq!(find_trigger(&t, "test"), Ok(vec![]));
    assert_eq!(find_trigger(&t, "a Test"), Ok(vec![(2, 6)]));
}

#[test]
fn case_insensitive_trigger_matches_either_case() {
    let t = trigger(1, "Test", false, false);
    assert_eq!(find_trigger(&t, "Test"), Ok(vec![(0, 4)]));
    assert_eq!(find_trigger(&t, "test"), Ok(vec![(0, 4)]));
    assert_eq!(find_trigger(&t, "a TEST, a test"), Ok(vec![(2, 6), (10, 14)]));
}

#[test]
fn case_insensitive_trigger_folds_letters_beyond_ascii() {
    let t = trigger(1, "ÉCOLE", false, false);
    assert_eq!(find_trigger(&t, "une école"), Ok(vec![(4, 10)]));
}

#[test]
fn case_insensitive_spans_are_offsets_into_the_text() {
    let t = trigger(1, "hello", false, false);
    let text = "\u{130} HELLO \u{212A} hello";
    let found = find_trigger(&t, text).unwrap();
    assert_eq!(found, vec![(3, 8), (13, 18)]);
    for (start, end) in found {
        assert_eq!(text[start as usize..end as usize].to_lowercase(), "hello");
    }
    let kelvin = trigger(1, "k", false, false);
    assert_eq!(find_trigger(&kelvin, text), Ok(vec![(9, 12)]));
    let capital = trigger(1, "\u{130}", false, false);
    assert_eq!(find_trigger(&capital, "x\u{130}x"), Ok(vec![(1, 3)]));
}

#[test]
fn case_insensitive_span_is_the_pattern_in_lower_case() {
    let dotted = trigger(1, "i", false, false);
    assert_eq!(find_trigger(&dotted, "x\u{130}x"), Ok(vec![]));
    let tail = trigger(1, "\u{307}x", false, false);
    assert_eq!(find_trigger(&tail, "\u{130}x"), Ok(vec![]));
    let whole = trigger(1, "i\u{307}x", false, false);
    assert_eq!(find_trigger(&whole, "\u{130}x"), Ok(vec![(0, 3)]));
}

#[test]
fn regex_spans_lie_within_the_text() {
    let text = "gr\u{fc}\u{df}e, Welt";
    let any = trigger(1, "\\w+", true, true);
    let found = find_trigger(&any, text).unwrap();
    assert_eq!(found, vec![(0, 7), (9, 13)]);
    for (start, end) in found {
        assert!(start < end && (end as usize) <= text.len());
        assert!(text.is_char_boundary(start as usize) && text.is_char_boundary(end as usize));
    }
}

#[test]
fn every_span_of_a_notification_lies_within_the_text() {
    let triggers = vec![
        trigger(1, "l+", true, true),
        trigger(1, "LO W", false, false),
        trigger(1, "o", true, false),
    ];
    let event = message("bob", "hello world");
    let outcome = process_at(&event, &triggers, &vec![], 0);
    assert_eq!(outcome.notifications.len(), 1);
    let spans = &outcome.notifications[0].message.triggers;
    assert_eq!(*spans, vec![(2, 7), (7, 8), (9, 10)]);
    for span in spans {
        assert!(span.0 < span.1 && (span.1 as usize) <= event.message.len());
    }
}

#[test]
fn spans_of_the_lowercase_form_are_brought_back() {
    let text = "\u{130} HELLO";
    let lowered = text.to_lowercase();
    assert_eq!(lowered.len(), text.len() + 1);
    assert_eq!(to_text_spans(text, lowered.len(), &vec![(4, 9)]), vec![(3, 8)]);
    assert_eq!(to_text_spans(text, lowered.len(), &vec![(0, 1), (1, 3), (0, 3)]), vec![(0, 2); 3]);
    assert_eq!(to_text_spans(text, lowered.len(), &vec![(2, 2)]), vec![(2, 2)]);
    assert_eq!(to_text_spans("abc", 3, &vec![(1, 2)]), vec![(1, 2)]);
    assert_eq!(to_text_spans("abc", 7, &vec![(1, 2)]), vec![]);
}

#[test]
fn empty_trigger_finds_nothing() {
    assert_eq!(find_trigger(&trigger(1, "", false, false), "abc"), Ok(vec![]));
    assert_eq!(find_trigger(&trigger(1, "", true, false), "abc"), Ok(vec![]));
}

#[test]
fn regex_trigger_respects_case() {
    let t = trigger(1, "h[ae]llo", true, true);
    assert_eq!(find_trigger(&t, "hallo Hello hello"), Ok(vec![(0, 5), (12, 17)]));
}

#[test]
fn regex_trigger_can_ignore_case() {
    let t = trigger(1, "h[ae]llo", false, true);
    assert_eq!(find_trigger(&t, "hallo Hello hello"), Ok(vec![(0, 5), (6, 11), (12, 17)]));
}

#[test]
fn regex_trigger_drops_empty_matches() {
    let t = trigger(1, "a*", true, true);
    assert_eq!(find_trigger(&t, "baab"), Ok(vec![(1, 3)]));
}

#[test]
fn regex_source_wraps_the_pattern_to_ignore_case() {
    assert_eq!(regex_source_of("a|b", true), "a|b");
    assert_eq!(regex_source_of("a|b", false), "(?i:a|b)");
}

#[test]
fn invalid_regex_is_reported_and_skipped() {
    let t = trigger(7, "(", true, true);
    assert_eq!(
        find_trigger(&t, "text"),
        Err(PatternCompileError { recipient: 7, pattern: "(".to_string() })
    );
    let outcome = evaluate(
        &message("bob", "hello there"),
        &vec![trigger(7, "(", true, true), trigger(7, "there", false, false)],
        &vec![],
    );
    assert_eq!(spans_of(&outcome.matches, 7), Some(vec![(6, 11)]));
    assert_eq!(
        outcome.failures,
        vec![PatternCompileError { recipient: 7, pattern: "(".to_string() }]
    );
}

#[test]
fn to_spans_keeps_what_fits() {
    let found = vec![(0, 0), (1, 2), (65530, 65535), (65535, 65536), (70000, 70001), (5, 3)];
    assert_eq!(to_spans(&found), vec![(1, 2), (65530, 65535)]);
}

#[test]
fn occurrences_do_not_overlap() {
    assert_eq!(find_occurrences(b"aaaa", b"aa"), vec![(0, 2), (2, 4)]);
    assert_eq!(find_occurrences(b"aaa", b"aa"), vec![(0, 2)]);
    assert_eq!(find_occurrences(b"abcabc", b"bc"), vec![(1, 3), (4, 6)]);
    assert_eq!(find_occurrences(b"abc", b"abcd"), vec![]);
    assert_eq!(find_occurrences(b"abc", b""), vec![]);
    assert_eq!(find_occurrences(b"", b"a"), vec![]);
}

#[test]
fn occurrences_are_what_the_standard_library_finds() {
    let hay = "abracadabra abracadabra";
    for needle in ["a", "abra", "bra", "ra a", "cad", "abracadabra", "x"] {
        let expected: Vec<(usize, usize)> =
            hay.match_indices(needle).map(|(at, found)| (at, at + found.len())).collect();
        assert_eq!(find_occurrences(hay.as_bytes(), needle.as_bytes()), expected);
    }
}

#[test]
fn matches_at_compares_the_window() {
    assert!(matches_at(b"hello", b"ell", 1));
    assert!(!matches_at(b"hello", b"ell", 0));
    assert!(matches_at(b"hello", b"", 5));
    assert!(!matches_at(b"hello", b"", 6));
    assert!(!matches_at(b"hello", b"lo!", 3));
    assert!(!matches_at(b"hello", b"h", usize::MAX));
}

#[test]
fn ignoring_recipient_gets_nothing() {
    let triggers = vec![trigger(1, "hello", false, false), trigger(2, "hello", false, false)];
    let ignored = vec![IgnoreEntry { discord_user_id: 1, username: "spammer".to_string() }];
    let outcome = evaluate(&message("spammer", "hello hello"), &triggers, &ignored);
    assert_eq!(spans_of(&outcome.matches, 1), None);
    assert_eq!(spans_of(&outcome.matches, 2), Some(vec![(0, 5), (6, 11)]));

    let processed = process_at(&message("spammer", "hello hello"), &triggers, &ignored, 5);
    assert_eq!(processed.notifications.len(), 1);
    assert_eq!(processed.notifications[0].receiver, 2);

    let other = evaluate(&message("friend", "hello"), &triggers, &ignored);
    assert_eq!(spans_of(&other.matches, 1), Some(vec![(0, 5)]));
}

#[test]
fn ignoring_recipient_is_not_told_of_a_bad_pattern() {
    let triggers = vec![trigger(1, "(", true, true)];
    let ignored = vec![IgnoreEntry { discord_user_id: 1, username: "spammer".to_string() }];
    let outcome = evaluate(&message("spammer", "text"), &triggers, &ignored);
    assert!(outcome.failures.is_empty());
    assert!(outcome.matches.is_empty());
}

#[test]
fn is_ignored_needs_recipient_and_author() {
    let ignored = vec![
        IgnoreEntry { discord_user_id: 1, username: "spammer".to_string() },
        IgnoreEntry { discord_user_id: 2, username: "other".to_string() },
    ];
    assert!(is_ignored(&ignored, 1, "spammer"));
    assert!(!is_ignored(&ignored, 2, "spammer"));
    assert!(!is_ignored(&ignored, 1, "Spammer"));
    assert!(is_ignored(&ignored, 2, "other"));
}

#[test]
fn every_recipient_gets_its_own_spans() {
    let triggers = vec![
        trigger(1, "red", false, false),
        trigger(2, "blue", false, false),
        trigger(1, "green", false, false),
        trigger(3, "black", false, false),
        trigger(2, "red", false, false),
    ];
    let outcome = evaluate(&message("bob", "red green blue red"), &triggers, &vec![]);
    assert_eq!(outcome.matches.len(), 2);
    assert_eq!(spans_of(&outcome.matches, 1), Some(vec![(0, 3), (15, 18), (4, 9)]));
    assert_eq!(spans_of(&outcome.matches, 2), Some(vec![(10, 14), (0, 3), (15, 18)]));
    assert_eq!(spans_of(&outcome.matches, 3), None);
}

#[test]
fn route_makes_one_notification_for_each_recipient_with_spans() {
    let event = message("bob", "hello world");
    let matches = vec![
        RecipientSpans { recipient: 10, spans: vec![(6, 11), (0, 5), (3, 8)] },
        RecipientSpans { recipient: 11, spans: vec![] },
        RecipientSpans { recipient: -1, spans: vec![(0, 1)] },
    ];
    let notifications = route(&event, &matches, 1234);
    assert_eq!(notifications.len(), 2);
    assert_eq!(notifications[0].receiver, 10);
    assert_eq!(notifications[0].timestamp, 1234);
    assert_eq!(notifications[0].message.channel, "channel");
    assert_eq!(notifications[0].message.author, "bob");
    assert_eq!(notifications[0].message.message, "hello world");
    assert_eq!(notifications[0].message.triggers, vec![(0, 11)]);
    assert_eq!(notifications[1].receiver, u64::MAX);
    assert_eq!(notifications[1].message.triggers, vec![(0, 1)]);
}

#[test]
fn process_matches_merges_and_routes() {
    let triggers = vec![trigger(1, "hel", false, false), trigger(1, "ello", false, false)];
    let outcome = process_at(&message("bob", "hello"), &triggers, &vec![], 99);
    assert_eq!(
        outcome.notifications,
        vec![TriggerEvent {
            receiver: 1,
            message: TwitchMessageSimple {
                channel: "channel".to_string(),
                author: "bob".to_string(),
                message: "hello".to_string(),
                triggers: vec![(0, 5)],
            },
            timestamp: 99,
        }]
    );
    assert!(outcome.failures.is_empty());
}

#[test]
fn process_stamps_with_the_clock() {
    let triggers = vec![trigger(1, "hello", false, false)];
    let outcome = process(&message("bob", "hello"), Ok(triggers), Ok(vec![])).unwrap();
    assert_eq!(outcome.notifications.len(), 1);
    assert!(outcome.notifications[0].timestamp > 1_600_000_000_000);
    assert_eq!(outcome.notifications[0].message.triggers, vec![(0, 5)]);
}

#[test]
fn trigger_event_new_keeps_its_arguments() {
    let event = TriggerEvent::new(5, message("a", "b"), 7);
    assert_eq!(event.receiver, 5);
    assert_eq!(event.message, message("a", "b"));
    assert_eq!(event.timestamp, 7);
}

#[test]
fn queue_is_first_in_first_out() {
    let mut queue = NotificationQueue::new(3);
    assert_eq!(queue.capacity(), 3);
    assert_eq!(queue.len(), 0);
    assert_eq!(queue.take(), None);
    for receiver in 1..=3u64 {
        assert_eq!(queue.offer(TriggerEvent::new(receiver, message("a", "b"), 0)), Ok(()));
    }
    assert_eq!(queue.len(), 3);
    assert_eq!(queue.take().map(|e| e.receiver), Some(1));
    assert_eq!(queue.take().map(|e| e.receiver), Some(2));
    assert_eq!(queue.take().map(|e| e.receiver), Some(3));
    assert_eq!(queue.take(), None);
}

#[test]
fn full_queue_drops_and_counts() {
    let mut queue = NotificationQueue::new(1);
    assert_eq!(queue.offer(TriggerEvent::new(1, message("a", "b"), 0)), Ok(()));
    assert_eq!(
        queue.offer(TriggerEvent::new(2, message("a", "b"), 0)),
        Err(QueueFullError { receiver: 2 })
    );
    assert_eq!(
        queue.offer(TriggerEvent::new(3, message("a", "b"), 0)),
        Err(QueueFullError { receiver: 3 })
    );
    assert_eq!(queue.failures(), 2);
    assert_eq!(queue.len(), 1);
    assert_eq!(queue.take().map(|e| e.receiver), Some(1));
    assert_eq!(queue.offer(TriggerEvent::new(4, message("a", "b"), 0)), Ok(()));
    assert_eq!(queue.failures(), 2);
}

#[test]
fn queue_without_room_takes_nothing() {
    let mut queue = NotificationQueue::new(0);
    assert!(queue.offer(TriggerEvent::new(1, message("a", "b"), 0)).is_err());
    assert_eq!(queue.failures(), 1);
    assert_eq!(queue.len(), 0);
}

#[test]
fn offer_all_fills_the_room_and_drops_the_rest() {
    let mut queue = NotificationQueue::new(3);
    assert_eq!(queue.offer(TriggerEvent::new(1, message("a", "b"), 0)), Ok(()));
    let batch: Vec<TriggerEvent> =
        (2..=5u64).map(|receiver| TriggerEvent::new(receiver, message("a", "b"), 0)).collect();
    let refused = queue.offer_all(batch);
    assert_eq!(refused, vec![QueueFullError { receiver: 4 }, QueueFullError { receiver: 5 }]);
    assert_eq!(queue.failures(), 2);
    assert_eq!(queue.len(), 3);
    assert_eq!(queue.take().map(|e| e.receiver), Some(1));
    assert_eq!(queue.take().map(|e| e.receiver), Some(2));
    assert_eq!(queue.take().map(|e| e.receiver), Some(3));
    assert_eq!(queue.take(), None);
    assert!(queue.offer_all(vec![]).is_empty());
}

#[test]
fn notification_highlights_the_words_of_the_text_itself() {
    let triggers = vec![trigger(1, "hello", false, false)];
    let event = message("bob", "\u{130} HELLO you");
    let outcome = process_at(&event, &triggers, &vec![], 0);
    assert_eq!(outcome.notifications.len(), 1);
    assert_eq!(
        outcome.notifications[0].message.message_highlighted("**"),
        "\u{130} **HELLO** you"
    );
}
