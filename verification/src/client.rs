//! The chat connection as a state machine: what state it is in, which channels
//! it has joined, and what is to be done when something happens to it.
//!
//! The machine decides; whoever owns the network session acts on what the
//! machine says and tells it what came of it.

use vstd::prelude::*;
use crate::channels::{
    add_name, clone_names, distinct, distinct_names, joined, lemma_distinct, lemma_joined,
    lemma_parted, names, parted, remove_name,
};
use crate::connection::{
    CommandView, ConnectionConfig, ConnectionError, IrcCommand, IrcMessage, OutgoingCommand,
    TransportFailure, bare_name, bare_name_of, classified, classify, recoverable, wire_name,
    wire_name_of,
};
use crate::message::TwitchMessageSimple;
use crate::span::MatchSpan;
use crate::text::{lowercase_of, same_text};

verus! {

/// The state of the chat connection.
#[derive(Debug, Clone, PartialEq, Eq)]
pub enum ConnectionState {
    /// No session, and none is being opened.
    Disconnected,
    /// The first session is being opened.
    Connecting,
    /// A session is open; `channels` are the channels it has joined.
    Connected { channels: Vec<String> },
    /// The session failed and a new one is being opened; `channels` are the
    /// channels to join again.
    Reconnecting { channels: Vec<String> },
}

/// The state of the chat connection, with the channels as plain texts.
pub enum ConnectionView {
    /// No session, and none is being opened.
    Disconnected,
    /// The first session is being opened.
    Connecting,
    /// A session is open.
    Connected { channels: Seq<Seq<char>> },
    /// The session failed and a new one is being opened.
    Reconnecting { channels: Seq<Seq<char>> },
}

impl View for ConnectionState {
    type V = ConnectionView;

    open spec fn view(&self) -> ConnectionView {
        match self {
            ConnectionState::Disconnected => ConnectionView::Disconnected,
            ConnectionState::Connecting => ConnectionView::Connecting,
            ConnectionState::Connected { channels } => ConnectionView::Connected {
                channels: names(channels@),
            },
            ConnectionState::Reconnecting { channels } => ConnectionView::Reconnecting {
                channels: names(channels@),
            },
        }
    }
}

/// The chat connection as the contracts see it.
pub struct ClientView {
    /// The state.
    pub state: ConnectionView,
    /// The channels to join once the first session is open.
    pub startup: Seq<Seq<char>>,
}

/// What is to be done after a failure.
#[derive(Debug, Clone, Copy, PartialEq, Eq, Structural)]
pub enum Recovery {
    /// Open a new session, with the configuration that the connection now holds.
    Reopen,
    /// The connection has ended; tell its owner why.
    Terminate(ConnectionError),
    /// There was no session that could fail.
    Nothing,
}

/// What a message that came in calls for.
#[derive(Debug, Clone, PartialEq, Eq)]
pub enum Handled {
    /// A chat message, to be matched against the triggers of its channel.
    Chat(TwitchMessageSimple),
    /// The network welcomed the session under this nickname.
    Welcome(String),
    /// The network asked for a new session: open one, with the configuration
    /// that the connection now holds.
    Restart,
    /// Nothing.
    Nothing,
}

/// The channels after a command: a join adds its channel, a part takes its
/// channel away, a raw line changes nothing.
pub open spec fn updated(channels: Seq<Seq<char>>, command: CommandView) -> Seq<Seq<char>> {
    match command {
        CommandView::Join(name) => joined(channels, bare_name(name)),
        CommandView::Part(name) => parted(channels, bare_name(name)),
        CommandView::Raw(_) => channels,
    }
}

/// The connection after a command was handed to it.
pub open spec fn after_send(client: ClientView, command: CommandView) -> ClientView {
    match client.state {
        ConnectionView::Disconnected => client,
        ConnectionView::Connecting => ClientView {
            state: client.state,
            startup: updated(client.startup, command),
        },
        ConnectionView::Connected { channels } => ClientView {
            state: ConnectionView::Connected { channels: updated(channels, command) },
            startup: client.startup,
        },
        ConnectionView::Reconnecting { channels } => ClientView {
            state: ConnectionView::Reconnecting { channels: updated(channels, command) },
            startup: client.startup,
        },
    }
}

/// One join command for each channel, in the order of the channels.
pub open spec fn joins(channels: Seq<Seq<char>>) -> Seq<CommandView> {
    Seq::new(channels.len(), |i: int| CommandView::Join(wire_name(channels[i])))
}

/// The channels that a session joins when it has identified itself.
pub open spec fn pending(client: ClientView) -> Seq<Seq<char>> {
    match client.state {
        ConnectionView::Connecting => client.startup,
        ConnectionView::Reconnecting { channels } => channels,
        _ => Seq::empty(),
    }
}

/// The connection after the session has identified itself.
pub open spec fn after_handshake(client: ClientView) -> ClientView {
    match client.state {
        ConnectionView::Connecting | ConnectionView::Reconnecting { .. } => ClientView {
            state: ConnectionView::Connected { channels: pending(client) },
            startup: client.startup,
        },
        _ => client,
    }
}

/// The connection after a failure of the session.
pub open spec fn after_failure(client: ClientView, failure: TransportFailure) -> ClientView {
    match client.state {
        ConnectionView::Connected { channels } => if recoverable(failure) {
            ClientView { state: ConnectionView::Reconnecting { channels }, startup: client.startup }
        } else {
            ClientView { state: ConnectionView::Disconnected, startup: client.startup }
        },
        _ => ClientView { state: ConnectionView::Disconnected, startup: client.startup },
    }
}

/// What is to be done after a failure of the session.
pub open spec fn recovery(client: ClientView, failure: TransportFailure) -> Recovery {
    match client.state {
        ConnectionView::Connected { .. } => if recoverable(failure) {
            Recovery::Reopen
        } else {
            Recovery::Terminate(classified(failure))
        },
        ConnectionView::Disconnected => Recovery::Nothing,
        _ => Recovery::Terminate(classified(failure)),
    }
}

/// The connection after it was asked to open a new session.
pub open spec fn after_restart(client: ClientView) -> ClientView {
    match client.state {
        ConnectionView::Connected { channels } => ClientView {
            state: ConnectionView::Reconnecting { channels },
            startup: client.startup,
        },
        _ => client,
    }
}

/// The author of a message: the nickname of its source, or nothing.
pub open spec fn author_of(message: IrcMessage) -> Seq<char> {
    match message.source_nickname {
        Some(nickname) => nickname@,
        None => Seq::empty(),
    }
}

/// The message is the network's request for a new session.
pub open spec fn asks_restart(message: IrcMessage) -> bool {
    message.command matches IrcCommand::Raw { code } && code@ == "RECONNECT"@
}

/// The connection after a message came in: a request for a new session acts as
/// `restart` does, any other message leaves the connection as it is.
pub open spec fn after_message(client: ClientView, message: IrcMessage) -> ClientView {
    if asks_restart(message) {
        after_restart(client)
    } else {
        client
    }
}

/// `handled` is what the message calls for.
pub open spec fn answers(client: ClientView, message: IrcMessage, handled: Handled) -> bool {
    match message.command {
        IrcCommand::Privmsg { target, text } => {
            &&& handled matches Handled::Chat(chat)
            &&& chat.channel@ == lowercase_of(bare_name(target@))
            &&& chat.author@ == author_of(message)
            &&& chat.message@ == text@
            &&& chat.triggers@ == Seq::<MatchSpan>::empty()
        },
        IrcCommand::Welcome { nickname } => {
            &&& handled matches Handled::Welcome(name)
            &&& name@ == nickname@
        },
        IrcCommand::Raw { code } => if code@ == "RECONNECT"@ && client.state is Connected {
            handled is Restart
        } else {
            handled is Nothing
        },
        _ => handled is Nothing,
    }
}

/// The chat connection: its state, and the identity under which its session is
/// opened.
pub struct TwitchClient {
    config: ConnectionConfig,
    state: ConnectionState,
    startup: Vec<String>,
}

impl View for TwitchClient {
    type V = ClientView;

    closed spec fn view(&self) -> ClientView {
        ClientView { state: self.state@, startup: names(self.startup@) }
    }
}

/// No channel stands twice in what the connection keeps.
pub open spec fn tidy(client: ClientView) -> bool {
    &&& client.startup.no_duplicates()
    &&& client.state matches ConnectionView::Connected { channels } ==> channels.no_duplicates()
    &&& client.state matches ConnectionView::Reconnecting { channels } ==> channels.no_duplicates()
}

/// Begins the connection: the machine is in the state `Connecting`, holds a
/// fresh anonymous identity, and will join `channels` once the session is open.
pub fn make_client(channels: Vec<String>) -> (client: TwitchClient)
    ensures
        client@.state == ConnectionView::Connecting,
        client@.startup == distinct(names(channels@)),
        client.identity().anonymous(),
        tidy(client@),
{
    proof {
        lemma_distinct(names(channels@));
    }
    TwitchClient {
        config: ConnectionConfig::fresh(),
        state: ConnectionState::Connecting,
        startup: distinct_names(&channels),
    }
}

fn join_commands(channels: &Vec<String>) -> (commands: Vec<OutgoingCommand>)
    ensures
        commands@.len() == channels@.len(),
        forall|i: int| 0 <= i < commands@.len() ==> (#[trigger] commands@[i])@ == joins(
            names(channels@),
        )[i],
{
    let mut commands: Vec<OutgoingCommand> = Vec::new();
    let mut i: usize = 0;
    while i < channels.len()
        invariant
            i <= channels.len(),
            commands@.len() == i,
            forall|k: int| 0 <= k < i ==> (#[trigger] commands@[k])@ == joins(names(channels@))[k],
        decreases channels.len() - i,
    {
        commands.push(OutgoingCommand::Join(wire_name_of(channels[i].as_str())));
        i += 1;
    }
    commands
}

fn update(channels: &mut Vec<String>, command: &OutgoingCommand)
    ensures
        names(final(channels)@) == updated(names(old(channels)@), command@),
{
    match command {
        OutgoingCommand::Join(name) => add_name(channels, bare_name_of(name.as_str())),
        OutgoingCommand::Part(name) => remove_name(channels, bare_name_of(name.as_str())),
        OutgoingCommand::Raw(_) => {},
    }
}

impl TwitchClient {
    /// The identity and the endpoint with which the next session is opened.
    pub closed spec fn identity(&self) -> ConnectionConfig {
        self.config
    }

    /// The identity and the endpoint with which the next session is opened.
    pub fn config(&self) -> (config: &ConnectionConfig)
        ensures
            *config == self.identity(),
    {
        &self.config
    }

    /// The state of the connection.
    pub fn state(&self) -> (state: &ConnectionState)
        ensures
            state@ == self@.state,
    {
        &self.state
    }

    /// The channels that the connection has joined or is about to join.
    pub fn list_channels(&self) -> (channels: Vec<String>)
        ensures
            names(channels@) == match self@.state {
                ConnectionView::Connected { channels } => channels,
                _ => pending(self@),
            },
    {
        match &self.state {
            ConnectionState::Disconnected => {
                let none: Vec<String> = Vec::new();
                proof {
                    assert(names(none@) =~= Seq::<Seq<char>>::empty());
                }
                none
            },
            ConnectionState::Connecting => clone_names(&self.startup),
            ConnectionState::Connected { channels } => clone_names(channels),
            ConnectionState::Reconnecting { channels } => clone_names(channels),
        }
    }

    /// The session has identified itself: the connection is `Connected`, and
    /// the commands that join its channels are returned, one for each channel.
    /// In any other state than `Connecting` and `Reconnecting` nothing changes
    /// and nothing is returned.
    pub fn identified(&mut self) -> (commands: Vec<OutgoingCommand>)
        ensures
            final(self)@ == after_handshake(old(self)@),
            tidy(old(self)@) ==> tidy(final(self)@),
            final(self).identity() == old(self).identity(),
            commands@.len() == pending(old(self)@).len(),
            forall|i: int| 0 <= i < commands@.len() ==> (#[trigger] commands@[i])@ == joins(
                pending(old(self)@),
            )[i],
    {
        match &self.state {
            ConnectionState::Connecting => {
                let channels = clone_names(&self.startup);
                let commands = join_commands(&channels);
                self.state = ConnectionState::Connected { channels };
                commands
            },
            ConnectionState::Reconnecting { channels } => {
                let channels = clone_names(channels);
                let commands = join_commands(&channels);
                self.state = ConnectionState::Connected { channels };
                commands
            },
            _ => Vec::new(),
        }
    }

    /// Hands a command to the connection. The channel of a join or a part is
    /// added to or taken from the channels that the connection keeps. The
    /// command is returned for sending where a session is open; while a session
    /// is being opened it is not sent, since the channels are joined when the
    /// session has identified itself. A connection that has ended takes no
    /// commands.
    pub fn send(&mut self, message: OutgoingCommand) -> (out: Option<OutgoingCommand>)
        ensures
            final(self)@ == after_send(old(self)@, message@),
            final(self).identity() == old(self).identity(),
            out == (if old(self)@.state is Connected {
                Some(message)
            } else {
                None
            }),
            tidy(old(self)@) ==> tidy(final(self)@),
    {
        proof {
            if tidy(self@) {
                law_channels_stay_distinct(
                    self@,
                    message@,
                    TransportFailure::Other,
                    IrcMessage { source_nickname: None, command: IrcCommand::Other },
                );
            }
        }
        match &mut self.state {
            ConnectionState::Disconnected => None,
            ConnectionState::Connecting => {
                update(&mut self.startup, &message);
                None
            },
            ConnectionState::Connected { channels } => {
                update(channels, &message);
                Some(message)
            },
            ConnectionState::Reconnecting { channels } => {
                update(channels, &message);
                None
            },
        }
    }

    /// Asks for a new session. An open session gives way to the state
    /// `Reconnecting`, with its channels kept and a fresh anonymous identity;
    /// the result says whether that happened. In any other state nothing
    /// changes.
    pub fn restart(&mut self) -> (begun: bool)
        ensures
            final(self)@ == after_restart(old(self)@),
            tidy(old(self)@) ==> tidy(final(self)@),
            begun == (old(self)@.state is Connected),
            begun ==> final(self).identity().anonymous(),
            !begun ==> final(self).identity() == old(self).identity(),
    {
        match &self.state {
            ConnectionState::Connected { channels } => {
                let channels = clone_names(channels);
                self.state = ConnectionState::Reconnecting { channels };
                self.config = ConnectionConfig::fresh();
                true
            },
            _ => false,
        }
    }

    /// Tells the connection that its session failed. After a recoverable
    /// failure of an open session the connection is `Reconnecting`, with its
    /// channels kept and a fresh anonymous identity. After any other failure of
    /// a session, open or being opened, the connection has ended.
    pub fn fail(&mut self, failure: TransportFailure) -> (then: Recovery)
        ensures
            final(self)@ == after_failure(old(self)@, failure),
            tidy(old(self)@) ==> tidy(final(self)@),
            then == recovery(old(self)@, failure),
            then is Reopen ==> final(self).identity().anonymous(),
            !(then is Reopen) ==> final(self).identity() == old(self).identity(),
    {
        let class = classify(failure);
        match &self.state {
            ConnectionState::Disconnected => Recovery::Nothing,
            ConnectionState::Connected { channels } => {
                match class {
                    ConnectionError::Recoverable(_) => {
                        let channels = clone_names(channels);
                        self.state = ConnectionState::Reconnecting { channels };
                        self.config = ConnectionConfig::fresh();
                        Recovery::Reopen
                    },
                    ConnectionError::Fatal(_) => {
                        self.state = ConnectionState::Disconnected;
                        Recovery::Terminate(class)
                    },
                }
            },
            _ => {
                self.state = ConnectionState::Disconnected;
                Recovery::Terminate(class)
            },
        }
    }

    /// Reads a message that came in and says what it calls for.
    ///
    /// A message to a channel becomes a chat message without spans: the channel
    /// is the target in lower case without its leading `#`, the author is the
    /// nickname of the source. The command `RECONNECT` asks for a new session,
    /// as `restart` does. The welcome of the network is passed on. Nothing else
    /// is acted on.
    pub fn handle(&mut self, message: &IrcMessage) -> (handled: Handled)
        ensures
            final(self)@ == after_message(old(self)@, *message),
            tidy(old(self)@) ==> tidy(final(self)@),
            answers(old(self)@, *message, handled),
            handled is Restart ==> final(self).identity().anonymous(),
            !(handled is Restart) ==> final(self).identity() == old(self).identity(),
    {
        match &message.command {
            IrcCommand::Privmsg { target, text } => {
                let channel = bare_name_of(target.as_str()).to_lowercase();
                let author = match &message.source_nickname {
                    Some(nickname) => nickname.clone(),
                    None => String::new(),
                };
                Handled::Chat(TwitchMessageSimple::new(channel, author, text.clone()))
            },
            IrcCommand::Raw { code } => {
                if same_text(code.as_str(), "RECONNECT") {
                    if self.restart() {
                        Handled::Restart
                    } else {
                        Handled::Nothing
                    }
                } else {
                    Handled::Nothing
                }
            },
            IrcCommand::Welcome { nickname } => Handled::Welcome(nickname.clone()),
            _ => Handled::Nothing,
        }
    }
}

/// After a recoverable failure of an open session the connection is
/// `Reconnecting` with the channels it had, and when the new session has
/// identified itself the connection is `Connected` with those same channels and
/// joins exactly them: one join for each channel, in their order.
pub proof fn law_reconnect_keeps_channels(client: ClientView, failure: TransportFailure)
    requires
        client.state is Connected,
        recoverable(failure),
    ensures
        after_failure(client, failure).state == (ConnectionView::Reconnecting {
            channels: client.state->Connected_channels,
        }),
        after_handshake(after_failure(client, failure)).state == client.state,
        pending(after_failure(client, failure)) == client.state->Connected_channels,
        recovery(client, failure) == Recovery::Reopen,
{
}

/// Whatever happens to the connection, no channel comes to stand twice in what
/// it keeps.
pub proof fn law_channels_stay_distinct(
    client: ClientView,
    command: CommandView,
    failure: TransportFailure,
    message: IrcMessage,
)
    requires
        tidy(client),
    ensures
        tidy(after_send(client, command)),
        tidy(after_handshake(client)),
        tidy(after_failure(client, failure)),
        tidy(after_restart(client)),
        tidy(after_message(client, message)),
{
    match command {
        CommandView::Join(name) => {
            lemma_joined(client.startup, bare_name(name));
            match client.state {
                ConnectionView::Connected { channels } => lemma_joined(channels, bare_name(name)),
                ConnectionView::Reconnecting { channels } => lemma_joined(channels, bare_name(name)),
                _ => {},
            }
        },
        CommandView::Part(name) => {
            lemma_parted(client.startup, bare_name(name));
            match client.state {
                ConnectionView::Connected { channels } => lemma_parted(channels, bare_name(name)),
                ConnectionView::Reconnecting { channels } => lemma_parted(channels, bare_name(name)),
                _ => {},
            }
        },
        CommandView::Raw(_) => {},
    }
}

/// The joins of a list of channels without repetitions name each channel of the
/// list once and no other channel.
pub proof fn law_joins_exact(channels: Seq<Seq<char>>)
    requires
        channels.no_duplicates(),
    ensures
        joins(channels).len() == channels.len(),
        forall|i: int|
            0 <= i < channels.len() ==> #[trigger] joins(channels)[i] == CommandView::Join(
                wire_name(channels[i]),
            ),
        joins(channels).no_duplicates(),
{
    assert forall|i: int, j: int|
        0 <= i < joins(channels).len() && 0 <= j < joins(channels).len() && i != j implies joins(
        channels,
    )[i] != joins(channels)[j] by {
        if wire_name(channels[i]) == wire_name(channels[j]) {
            assert(wire_name(channels[i]).subrange(1, wire_name(channels[i]).len() as int)
                =~= channels[i]);
            assert(wire_name(channels[j]).subrange(1, wire_name(channels[j]).len() as int)
                =~= channels[j]);
        }
    }
}

} // verus!
