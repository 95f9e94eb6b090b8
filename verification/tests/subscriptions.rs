use chat_relay::batch::{channels_to_join, channels_to_part, ChannelAdded, ChannelRemoved};
use chat_relay::connection::{IrcMessageEvent, OutgoingCommand};
use chat_relay::sync::{RegistrationChange, SubscriptionSynchronizer};

fn added(recipient: i64, channel: &str) -> RegistrationChange {
    RegistrationChange::Added { recipient, channel: channel.to_string() }
}

fn removed(recipient: i64, channel: &str) -> RegistrationChange {
    RegistrationChange::Removed { recipient, channel: channel.to_string() }
}

fn join(channel: &str) -> Option<IrcMessageEvent> {
    Some(IrcMessageEvent::Outgoing(OutgoingCommand::Join(channel.to_string())))
}

fn part(channel: &str) -> Option<IrcMessageEvent> {
    Some(IrcMessageEvent::Outgoing(OutgoingCommand::Part(channel.to_string())))
}

#[test]
fn shared_channel_is_joined_once_and_left_once() {
    let mut sync = SubscriptionSynchronizer::new();
    assert_eq!(sync.apply(&added(1, "foo")), join("#foo"));
    assert_eq!(sync.apply(&added(2, "foo")), None);
    assert_eq!(sync.apply(&removed(1, "foo")), None);
    assert!(sync.any_subscriber("foo"));
    assert_eq!(sync.apply(&removed(2, "foo")), part("#foo"));
    assert!(!sync.any_subscriber("foo"));
}

#[test]
fn adding_twice_changes_nothing() {
    let mut sync = SubscriptionSynchronizer::new();
    assert_eq!(sync.apply(&added(1, "foo")), join("#foo"));
    assert_eq!(sync.apply(&added(1, "foo")), None);
    assert_eq!(sync.apply(&removed(1, "foo")), part("#foo"));
    assert!(!sync.is_subscribed(1, "foo"));
}

#[test]
fn removing_what_is_not_there_asks_for_nothing() {
    let mut sync = SubscriptionSynchronizer::new();
    assert_eq!(sync.apply(&removed(1, "foo")), None);
    assert_eq!(sync.apply(&added(1, "foo")), join("#foo"));
    assert_eq!(sync.apply(&removed(2, "foo")), None);
    assert_eq!(sync.apply(&removed(1, "bar")), None);
    assert!(sync.is_subscribed(1, "foo"));
}

#[test]
fn channels_are_told_apart() {
    let mut sync = SubscriptionSynchronizer::new();
    assert_eq!(sync.apply(&added(1, "foo")), join("#foo"));
    assert_eq!(sync.apply(&added(1, "bar")), join("#bar"));
    assert_eq!(sync.apply(&added(2, "bar")), None);
    assert_eq!(sync.channels(), vec!["foo".to_string(), "bar".to_string()]);
    assert_eq!(sync.apply(&removed(1, "foo")), part("#foo"));
    assert_eq!(sync.channels(), vec!["bar".to_string()]);
    assert!(sync.is_subscribed(2, "bar"));
    assert!(!sync.is_subscribed(2, "foo"));
}

fn sorted(mut events: Vec<IrcMessageEvent>) -> Vec<String> {
    let mut names: Vec<String> = events
        .drain(..)
        .map(|event| match event {
            IrcMessageEvent::Outgoing(OutgoingCommand::Join(name)) => format!("join {}", name),
            IrcMessageEvent::Outgoing(OutgoingCommand::Part(name)) => format!("part {}", name),
            other => panic!("unexpected event {:?}", other),
        })
        .collect();
    names.sort();
    names
}

fn asked(channel: &str, had_subscriber: bool, stored: bool) -> ChannelAdded {
    ChannelAdded { channel: channel.to_string(), had_subscriber, stored }
}

fn dropped(channel: &str, removed: bool, still_subscribed: bool) -> ChannelRemoved {
    ChannelRemoved { channel: channel.to_string(), removed, still_subscribed }
}

#[test]
fn batch_joins_each_new_channel_once() {
    let batch = vec![
        asked("foo", false, true),
        asked("bar", true, true),
        asked("foo", false, true),
        asked("baz", false, true),
    ];
    assert_eq!(sorted(channels_to_join(&batch)), vec!["join #baz", "join #foo"]);
}

#[test]
fn batch_does_not_join_what_the_store_refused() {
    let batch = vec![asked("foo", false, false), asked("bar", false, true), asked("foo", false, true)];
    assert_eq!(sorted(channels_to_join(&batch)), vec!["join #bar"]);
    assert!(channels_to_join(&vec![]).is_empty());
    assert!(channels_to_join(&vec![asked("x", true, false)]).is_empty());
}

#[test]
fn batch_parts_each_deserted_channel_once() {
    let batch =
        vec![dropped("foo", true, false), dropped("bar", true, true), dropped("foo", true, false)];
    assert_eq!(sorted(channels_to_part(&batch)), vec!["part #foo"]);
    assert!(channels_to_part(&vec![dropped("bar", true, true)]).is_empty());
}

#[test]
fn batch_does_not_part_a_channel_that_nobody_subscribed_to() {
    assert!(channels_to_part(&vec![dropped("bar", false, false)]).is_empty());
    let batch = vec![dropped("bar", false, false), dropped("foo", true, false)];
    assert_eq!(sorted(channels_to_part(&batch)), vec!["part #foo"]);
    let twice = vec![dropped("foo", true, false), dropped("foo", false, false)];
    assert_eq!(channels_to_part(&twice).len(), 1);
}

#[test]
fn batch_asks_once_for_each_channel() {
    let joins = channels_to_join(&vec![asked("foo", false, true), asked("foo", false, true)]);
    assert_eq!(
        joins,
        vec![IrcMessageEvent::Outgoing(OutgoingCommand::Join("#foo".to_string()))]
    );
    let parts = channels_to_part(&vec![dropped("foo", true, false)]);
    assert_eq!(
        parts,
        vec![IrcMessageEvent::Outgoing(OutgoingCommand::Part("#foo".to_string()))]
    );
}
