//! The vocabulary of the chat connection: failures and their classes, the
//! anonymous identity, what comes in and what goes out.

use vstd::prelude::*;
use vstd::string::{StrSliceExecFns, StringExecFns};
use crate::text::{decimal, push_decimal};

verus! {

/// The port of the chat network's encrypted endpoint.
pub const CHAT_PORT: u16 = 6697;

/// What went wrong on the chat session.
#[derive(Debug, Clone, Copy, PartialEq, Eq, Structural)]
pub enum TransportFailure {
    /// The network did not answer in time.
    Timeout,
    /// The stream of the session closed abruptly.
    ChannelClosed,
    /// The transport or its encryption layer failed.
    TransportLayer,
    /// The network sent what the protocol does not allow.
    ProtocolViolation,
    /// The network rejected the identification.
    AuthenticationRejected,
    /// Any other failure.
    Other,
}

/// A failure of the connection, by what follows from it.
#[derive(Debug, Clone, Copy, PartialEq, Eq, Structural)]
pub enum ConnectionError {
    /// The session is opened again, with the same channels.
    Recoverable(TransportFailure),
    /// The connection ends and its owner is told.
    Fatal(TransportFailure),
}

/// The failures after which the session is opened again: a timeout, an abrupt
/// closure of the stream, and a failure of the transport layer.
pub open spec fn recoverable(failure: TransportFailure) -> bool {
    failure is Timeout || failure is ChannelClosed || failure is TransportLayer
}

/// The class of a failure.
pub open spec fn classified(failure: TransportFailure) -> ConnectionError {
    if recoverable(failure) {
        ConnectionError::Recoverable(failure)
    } else {
        ConnectionError::Fatal(failure)
    }
}

/// Says whether a failure is recoverable or fatal.
pub fn classify(failure: TransportFailure) -> (class: ConnectionError)
    ensures
        class == classified(failure),
{
    match failure {
        TransportFailure::Timeout => ConnectionError::Recoverable(failure),
        TransportFailure::ChannelClosed => ConnectionError::Recoverable(failure),
        TransportFailure::TransportLayer => ConnectionError::Recoverable(failure),
        TransportFailure::ProtocolViolation => ConnectionError::Fatal(failure),
        TransportFailure::AuthenticationRejected => ConnectionError::Fatal(failure),
        TransportFailure::Other => ConnectionError::Fatal(failure),
    }
}

/// A lookup in the store of registrations failed.
#[derive(Debug, Clone, Copy, PartialEq, Eq, Structural)]
pub struct StoreQueryError;

/// What can go wrong while a message of the chat network is handled.
#[derive(Debug, Clone, Copy, PartialEq, Eq, Structural)]
pub enum IrcThreadError {
    /// The chat session failed.
    IrcError(ConnectionError),
    /// The store of registrations failed; the message is given up.
    SqlxError(StoreQueryError),
}

impl IrcThreadError {
    /// The error ends the connection: it is a fatal failure of the session. A
    /// failure of the store never ends the connection.
    pub open spec fn ends_connection(self) -> bool {
        self matches IrcThreadError::IrcError(ConnectionError::Fatal(_))
    }

    /// Whether the error ends the connection.
    pub fn is_fatal(&self) -> (fatal: bool)
        ensures
            fatal == self.ends_connection(),
    {
        match self {
            IrcThreadError::IrcError(ConnectionError::Fatal(_)) => true,
            _ => false,
        }
    }
}

/// The name of a channel as the chat network writes it: with a leading `#`.
pub open spec fn wire_name(channel: Seq<char>) -> Seq<char> {
    seq!['#'] + channel
}

/// The name of a channel as the library keeps it: without the leading `#`, if
/// there is one.
pub open spec fn bare_name(target: Seq<char>) -> Seq<char> {
    if target.len() > 0 && target[0] == '#' {
        target.subrange(1, target.len() as int)
    } else {
        target
    }
}

/// Cuts the leading `#` off the name of a channel, if there is one.
pub fn bare_name_of(target: &str) -> (name: &str)
    ensures
        name@ == bare_name(target@),
{
    let n = target.unicode_len();
    if n > 0 && target.get_char(0) == '#' {
        target.substring_char(1, n)
    } else {
        target
    }
}

/// Builds the name of a channel as the chat network writes it.
pub fn wire_name_of(channel: &str) -> (name: String)
    ensures
        name@ == wire_name(channel@),
{
    let mut name = String::new();
    name.push('#');
    name.append(channel);
    proof {
        assert(name@ =~= wire_name(channel@));
    }
    name
}

/// A command for the chat network.
#[derive(Debug, Clone, PartialEq, Eq)]
pub enum OutgoingCommand {
    /// Join the channel of this wire name.
    Join(String),
    /// Leave the channel of this wire name.
    Part(String),
    /// A line to be sent as it is.
    Raw(String),
}

/// A command for the chat network, with its names as plain texts.
pub enum CommandView {
    /// Join the channel of this wire name.
    Join(Seq<char>),
    /// Leave the channel of this wire name.
    Part(Seq<char>),
    /// A line to be sent as it is.
    Raw(Seq<char>),
}

impl View for OutgoingCommand {
    type V = CommandView;

    open spec fn view(&self) -> CommandView {
        match self {
            OutgoingCommand::Join(name) => CommandView::Join(name@),
            OutgoingCommand::Part(name) => CommandView::Part(name@),
            OutgoingCommand::Raw(line) => CommandView::Raw(line@),
        }
    }
}

/// A command of the chat network that came in, as far as the library reads it.
#[derive(Debug, Clone, PartialEq, Eq)]
pub enum IrcCommand {
    /// A message to a channel.
    Privmsg { target: String, text: String },
    /// Somebody joined a channel.
    Join { channel: String },
    /// The network welcomed the session under this nickname.
    Welcome { nickname: String },
    /// A command that the protocol library does not know, by its name.
    Raw { code: String },
    /// Any other command.
    Other,
}

/// A message of the chat network that came in.
#[derive(Debug, Clone, PartialEq, Eq)]
pub struct IrcMessage {
    /// The nickname of the sender, where the message names one.
    pub source_nickname: Option<String>,
    /// The command.
    pub command: IrcCommand,
}

/// What passes through the queue of the thread that owns the chat session.
#[derive(Debug, Clone, PartialEq, Eq)]
pub enum IrcMessageEvent {
    /// A message that came in from the chat network.
    Incoming(IrcMessage),
    /// A command to be sent to the chat network.
    Outgoing(OutgoingCommand),
}

/// The event that asks the chat session to join a channel.
pub fn make_join_msg(channel: String) -> (event: IrcMessageEvent)
    ensures
        event matches IrcMessageEvent::Outgoing(OutgoingCommand::Join(name)) && name@ == wire_name(
            channel@,
        ),
{
    IrcMessageEvent::Outgoing(OutgoingCommand::Join(wire_name_of(channel.as_str())))
}

/// The event that asks the chat session to leave a channel.
pub fn make_part_msg(channel: String) -> (event: IrcMessageEvent)
    ensures
        event matches IrcMessageEvent::Outgoing(OutgoingCommand::Part(name)) && name@ == wire_name(
            channel@,
        ),
{
    IrcMessageEvent::Outgoing(OutgoingCommand::Part(wire_name_of(channel.as_str())))
}

/// How a session is opened: who to be, and where to connect.
#[derive(Debug, Clone, PartialEq, Eq)]
pub struct ConnectionConfig {
    /// The nickname to ask for.
    pub nickname: String,
    /// The nicknames to fall back on.
    pub alt_nicks: Vec<String>,
    /// Whether the transport is encrypted.
    pub use_tls: bool,
    /// The host of the chat network.
    pub server: String,
    /// The port of the chat network.
    pub port: u16,
}

/// The anonymous nickname with the number `n`.
pub open spec fn anonymous_nick(n: u32) -> Seq<char> {
    "justinfan"@ + decimal(n as nat)
}

impl ConnectionConfig {
    /// The configuration is that of an anonymous session on the chat network's
    /// encrypted endpoint, with the nicknames numbered as given.
    pub open spec fn anonymous_with(self, primary: u32, spare: (u32, u32, u32)) -> bool {
        &&& self.nickname@ == anonymous_nick(primary)
        &&& self.alt_nicks@.len() == 3
        &&& self.alt_nicks@[0]@ == anonymous_nick(spare.0)
        &&& self.alt_nicks@[1]@ == anonymous_nick(spare.1)
        &&& self.alt_nicks@[2]@ == anonymous_nick(spare.2)
        &&& self.use_tls
        &&& self.server@ == "irc.chat.twitch.tv"@
        &&& self.port == CHAT_PORT
    }

    /// The configuration is that of an anonymous session on the chat network's
    /// encrypted endpoint.
    pub open spec fn anonymous(self) -> bool {
        exists|primary: u32, spare: (u32, u32, u32)| #[trigger] self.anonymous_with(primary, spare)
    }

    /// The configuration of an anonymous session with the nicknames numbered
    /// as given.
    pub fn with_numbers(primary: u32, spare: (u32, u32, u32)) -> (config: Self)
        ensures
            config.anonymous_with(primary, spare),
    {
        let mut alt_nicks: Vec<String> = Vec::new();
        alt_nicks.push(nickname_for(spare.0));
        alt_nicks.push(nickname_for(spare.1));
        alt_nicks.push(nickname_for(spare.2));
        Self {
            nickname: nickname_for(primary),
            alt_nicks,
            use_tls: true,
            server: String::from_str("irc.chat.twitch.tv"),
            port: CHAT_PORT,
        }
    }

    /// The configuration of an anonymous session with nicknames drawn afresh.
    pub fn fresh() -> (config: Self)
        ensures
            config.anonymous(),
    {
        let primary = random_number();
        let spare = (random_number(), random_number(), random_number());
        Self::with_numbers(primary, spare)
    }
}

/// `rand::random` of the crate `rand`, at the type `u32`. The result is drawn
/// at random, so nothing is claimed of it.
#[verifier::external_body]
fn random_number() -> u32 {
    rand::random::<u32>()
}

/// The anonymous nickname with the number `n`.
pub fn nickname_for(n: u32) -> (nick: String)
    ensures
        nick@ == anonymous_nick(n),
{
    let mut nick = String::from_str("justinfan");
    push_decimal(&mut nick, n as u64);
    nick
}

} // verus!
