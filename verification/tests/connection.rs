use chat_relay::channels::{add_name, clone_names, distinct_names, holds, remove_name};
use chat_relay::client::{make_client, ConnectionState, Handled, Recovery};
use chat_relay::connection::{
    bare_name_of, classify, make_join_msg, make_part_msg, nickname_for, wire_name_of,
    ConnectionConfig, ConnectionError, IrcCommand, IrcMessage, IrcMessageEvent, IrcThreadError,
    OutgoingCommand, StoreQueryError, TransportFailure, CHAT_PORT,
};
use chat_relay::message::TwitchMessageSimple;

fn names(list: &[&str]) -> Vec<String> {
    list.iter().map(|s| s.to_string()).collect()
}

fn is_anonymous(nick: &str) -> bool {
    match nick.strip_prefix("justinfan") {
        Some(number) => number.parse::<u32>().map(|n| n.to_string() == number).unwrap_or(false),
        None => false,
    }
}

fn check_anonymous(config: &ConnectionConfig) {
    assert!(is_anonymous(&config.nickname));
    assert_eq!(config.alt_nicks.len(), 3);
    for nick in &config.alt_nicks {
        assert!(is_anonymous(nick));
    }
    assert!(config.use_tls);
    assert_eq!(config.server, "irc.chat.twitch.tv");
    assert_eq!(config.port, 6697);
}

#[test]
fn classify_tells_recoverable_from_fatal() {
    assert_eq!(
        classify(TransportFailure::Timeout),
        ConnectionError::Recoverable(TransportFailure::Timeout)
    );
    assert_eq!(
        classify(TransportFailure::ChannelClosed),
        ConnectionError::Recoverable(TransportFailure::ChannelClosed)
    );
    assert_eq!(
        classify(TransportFailure::TransportLayer),
        ConnectionError::Recoverable(TransportFailure::TransportLayer)
    );
    assert_eq!(
        classify(TransportFailure::ProtocolViolation),
        ConnectionError::Fatal(TransportFailure::ProtocolViolation)
    );
    assert_eq!(
        classify(TransportFailure::AuthenticationRejected),
        ConnectionError::Fatal(TransportFailure::AuthenticationRejected)
    );
    assert_eq!(classify(TransportFailure::Other), ConnectionError::Fatal(TransportFailure::Other));
}

#[test]
fn only_a_fatal_session_failure_ends_the_connection() {
    assert!(IrcThreadError::IrcError(ConnectionError::Fatal(TransportFailure::Other)).is_fatal());
    assert!(
        !IrcThreadError::IrcError(ConnectionError::Recoverable(TransportFailure::Timeout))
            .is_fatal()
    );
    assert!(!IrcThreadError::SqlxError(StoreQueryError).is_fatal());
}

#[test]
fn nickname_is_the_prefix_and_the_number() {
    assert_eq!(nickname_for(0), "justinfan0");
    assert_eq!(nickname_for(7), "justinfan7");
    assert_eq!(nickname_for(10), "justinfan10");
    assert_eq!(nickname_for(12345), "justinfan12345");
    assert_eq!(nickname_for(u32::MAX), "justinfan4294967295");
}

#[test]
fn config_with_numbers_is_exact() {
    let config = ConnectionConfig::with_numbers(1, (22, 333, 4444));
    assert_eq!(
        config,
        ConnectionConfig {
            nickname: "justinfan1".to_string(),
            alt_nicks: names(&["justinfan22", "justinfan333", "justinfan4444"]),
            use_tls: true,
            server: "irc.chat.twitch.tv".to_string(),
            port: CHAT_PORT,
        }
    );
}

#[test]
fn fresh_config_is_anonymous() {
    check_anonymous(&ConnectionConfig::fresh());
}

#[test]
fn wire_names_carry_the_prefix() {
    assert_eq!(wire_name_of("foo"), "#foo");
    assert_eq!(bare_name_of("#foo"), "foo");
    assert_eq!(bare_name_of("foo"), "foo");
    assert_eq!(bare_name_of("##foo"), "#foo");
    assert_eq!(bare_name_of(""), "");
    assert_eq!(bare_name_of("#"), "");
}

#[test]
fn join_and_part_events_name_the_channel_on_the_wire() {
    assert_eq!(
        make_join_msg("foo".to_string()),
        IrcMessageEvent::Outgoing(OutgoingCommand::Join("#foo".to_string()))
    );
    assert_eq!(
        make_part_msg("foo".to_string()),
        IrcMessageEvent::Outgoing(OutgoingCommand::Part("#foo".to_string()))
    );
}

#[test]
fn channel_lists_hold_each_name_once() {
    let mut list = names(&["a", "b"]);
    assert!(holds(&list, "a"));
    assert!(!holds(&list, "c"));
    add_name(&mut list, "a");
    assert_eq!(list, names(&["a", "b"]));
    add_name(&mut list, "c");
    assert_eq!(list, names(&["a", "b", "c"]));
    remove_name(&mut list, "b");
    assert_eq!(list, names(&["a", "c"]));
    remove_name(&mut list, "zzz");
    assert_eq!(list, names(&["a", "c"]));
    assert_eq!(clone_names(&list), list);
    assert_eq!(distinct_names(&names(&["x", "y", "x", "z", "y"])), names(&["x", "y", "z"]));
}

#[test]
fn connect_then_handshake_joins_every_channel() {
    let mut client = make_client(names(&["a", "b", "a"]));
    assert_eq!(*client.state(), ConnectionState::Connecting);
    check_anonymous(client.config());
    assert_eq!(client.list_channels(), names(&["a", "b"]));
    let commands = client.identified();
    assert_eq!(
        commands,
        vec![OutgoingCommand::Join("#a".to_string()), OutgoingCommand::Join("#b".to_string())]
    );
    assert_eq!(*client.state(), ConnectionState::Connected { channels: names(&["a", "b"]) });
    assert!(client.identified().is_empty());
}

#[test]
fn recoverable_failure_reconnects_with_the_same_channels() {
    let mut client = make_client(names(&["a", "b"]));
    client.identified();
    let first = client.config().clone();
    assert_eq!(client.fail(TransportFailure::Timeout), Recovery::Reopen);
    assert_eq!(*client.state(), ConnectionState::Reconnecting { channels: names(&["a", "b"]) });
    check_anonymous(client.config());
    let _ = first;
    let commands = client.identified();
    assert_eq!(
        commands,
        vec![OutgoingCommand::Join("#a".to_string()), OutgoingCommand::Join("#b".to_string())]
    );
    assert_eq!(*client.state(), ConnectionState::Connected { channels: names(&["a", "b"]) });
}

#[test]
fn every_recoverable_failure_reconnects() {
    for failure in
        [TransportFailure::Timeout, TransportFailure::ChannelClosed, TransportFailure::TransportLayer]
    {
        let mut client = make_client(names(&["a"]));
        client.identified();
        assert_eq!(client.fail(failure), Recovery::Reopen);
        assert_eq!(*client.state(), ConnectionState::Reconnecting { channels: names(&["a"]) });
    }
}

#[test]
fn fatal_failure_ends_the_connection() {
    for failure in [
        TransportFailure::ProtocolViolation,
        TransportFailure::AuthenticationRejected,
        TransportFailure::Other,
    ] {
        let mut client = make_client(names(&["a"]));
        client.identified();
        assert_eq!(client.fail(failure), Recovery::Terminate(ConnectionError::Fatal(failure)));
        assert_eq!(*client.state(), ConnectionState::Disconnected);
        assert_eq!(client.fail(failure), Recovery::Nothing);
        assert!(client.identified().is_empty());
        assert_eq!(*client.state(), ConnectionState::Disconnected);
        assert!(client.list_channels().is_empty());
    }
}

#[test]
fn failure_while_a_session_is_being_opened_ends_the_connection() {
    let mut client = make_client(names(&["a"]));
    assert_eq!(
        client.fail(TransportFailure::Timeout),
        Recovery::Terminate(ConnectionError::Recoverable(TransportFailure::Timeout))
    );
    assert_eq!(*client.state(), ConnectionState::Disconnected);

    let mut client = make_client(names(&["a"]));
    client.identified();
    client.fail(TransportFailure::Timeout);
    assert_eq!(
        client.fail(TransportFailure::ChannelClosed),
        Recovery::Terminate(ConnectionError::Recoverable(TransportFailure::ChannelClosed))
    );
    assert_eq!(*client.state(), ConnectionState::Disconnected);
}

#[test]
fn send_keeps_the_channel_set() {
    let mut client = make_client(names(&["a"]));
    client.identified();
    let join = OutgoingCommand::Join("#b".to_string());
    assert_eq!(client.send(join.clone()), Some(join.clone()));
    assert_eq!(client.send(join.clone()), Some(join));
    assert_eq!(*client.state(), ConnectionState::Connected { channels: names(&["a", "b"]) });
    let part = OutgoingCommand::Part("#a".to_string());
    assert_eq!(client.send(part.clone()), Some(part));
    assert_eq!(*client.state(), ConnectionState::Connected { channels: names(&["b"]) });
    let raw = OutgoingCommand::Raw("PING".to_string());
    assert_eq!(client.send(raw.clone()), Some(raw));
    assert_eq!(client.list_channels(), names(&["b"]));
}

#[test]
fn send_while_reconnecting_is_held_for_the_rejoin() {
    let mut client = make_client(names(&["a", "b"]));
    client.identified();
    client.fail(TransportFailure::TransportLayer);
    assert_eq!(client.send(OutgoingCommand::Join("#c".to_string())), None);
    assert_eq!(client.send(OutgoingCommand::Part("#a".to_string())), None);
    assert_eq!(*client.state(), ConnectionState::Reconnecting { channels: names(&["b", "c"]) });
    assert_eq!(
        client.identified(),
        vec![OutgoingCommand::Join("#b".to_string()), OutgoingCommand::Join("#c".to_string())]
    );
}

#[test]
fn send_while_connecting_changes_what_is_joined_first() {
    let mut client = make_client(names(&["a"]));
    assert_eq!(client.send(OutgoingCommand::Join("#b".to_string())), None);
    assert_eq!(client.list_channels(), names(&["a", "b"]));
    assert_eq!(client.identified().len(), 2);
}

#[test]
fn send_after_the_end_does_nothing() {
    let mut client = make_client(names(&["a"]));
    client.fail(TransportFailure::Other);
    assert_eq!(client.send(OutgoingCommand::Join("#b".to_string())), None);
    assert_eq!(*client.state(), ConnectionState::Disconnected);
}

#[test]
fn restart_needs_an_open_session() {
    let mut client = make_client(names(&["a"]));
    assert!(!client.restart());
    assert_eq!(*client.state(), ConnectionState::Connecting);
    client.identified();
    assert!(client.restart());
    assert_eq!(*client.state(), ConnectionState::Reconnecting { channels: names(&["a"]) });
    check_anonymous(client.config());
    assert!(!client.restart());
}

#[test]
fn handle_turns_a_channel_message_into_a_chat_message() {
    let mut client = make_client(names(&["somechannel"]));
    client.identified();
    let incoming = IrcMessage {
        source_nickname: Some("bob".to_string()),
        command: IrcCommand::Privmsg {
            target: "#SomeChannel".to_string(),
            text: "Hello There".to_string(),
        },
    };
    assert_eq!(
        client.handle(&incoming),
        Handled::Chat(TwitchMessageSimple {
            channel: "somechannel".to_string(),
            author: "bob".to_string(),
            message: "Hello There".to_string(),
            triggers: vec![],
        })
    );
    let nameless = IrcMessage {
        source_nickname: None,
        command: IrcCommand::Privmsg { target: "plain".to_string(), text: "x".to_string() },
    };
    assert_eq!(
        client.handle(&nameless),
        Handled::Chat(TwitchMessageSimple {
            channel: "plain".to_string(),
            author: String::new(),
            message: "x".to_string(),
            triggers: vec![],
        })
    );
    assert_eq!(*client.state(), ConnectionState::Connected { channels: names(&["somechannel"]) });
}

#[test]
fn handle_restarts_when_the_network_asks() {
    let mut client = make_client(names(&["a"]));
    client.identified();
    let reconnect =
        IrcMessage { source_nickname: None, command: IrcCommand::Raw { code: "RECONNECT".to_string() } };
    assert_eq!(client.handle(&reconnect), Handled::Restart);
    assert_eq!(*client.state(), ConnectionState::Reconnecting { channels: names(&["a"]) });
    assert_eq!(client.handle(&reconnect), Handled::Nothing);
    let notice =
        IrcMessage { source_nickname: None, command: IrcCommand::Raw { code: "USERNOTICE".to_string() } };
    assert_eq!(client.handle(&notice), Handled::Nothing);
}

#[test]
fn handle_passes_the_welcome_on_and_ignores_the_rest() {
    let mut client = make_client(names(&["a"]));
    let welcome = IrcMessage {
        source_nickname: None,
        command: IrcCommand::Welcome { nickname: "justinfan1".to_string() },
    };
    assert_eq!(client.handle(&welcome), Handled::Welcome("justinfan1".to_string()));
    let join = IrcMessage {
        source_nickname: Some("justinfan1".to_string()),
        command: IrcCommand::Join { channel: "#a".to_string() },
    };
    assert_eq!(client.handle(&join), Handled::Nothing);
    let other = IrcMessage { source_nickname: None, command: IrcCommand::Other };
    assert_eq!(client.handle(&other), Handled::Nothing);
    assert_eq!(*client.state(), ConnectionState::Connecting);
}
