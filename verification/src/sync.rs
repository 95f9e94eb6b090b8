//! From changes of the registrations to joins and parts: a channel is joined
//! when its first subscriber comes and left when its last subscriber goes.

use vstd::prelude::*;
use crate::channels::{add_name, distinct, names};
use crate::connection::{CommandView, IrcMessageEvent, make_join_msg, make_part_msg, wire_name};
use crate::text::same_text;

verus! {

/// One recipient's subscription to one channel.
#[derive(Debug, Clone, PartialEq, Eq)]
pub struct ChannelSubscription {
    /// The recipient.
    pub discord_user_id: i64,
    /// The channel's name in lower case, without the leading `#`.
    pub channel: String,
}

/// A change of the registrations.
#[derive(Debug, Clone, PartialEq, Eq)]
pub enum RegistrationChange {
    /// The recipient subscribed to the channel.
    Added { recipient: i64, channel: String },
    /// The recipient gave the subscription to the channel up.
    Removed { recipient: i64, channel: String },
}

/// A subscription as the contracts see it: the recipient and the channel.
pub type Pair = (i64, Seq<char>);

/// The subscriptions as pairs.
pub open spec fn pairs(subscriptions: Seq<ChannelSubscription>) -> Seq<Pair> {
    Seq::new(
        subscriptions.len(),
        |i: int| (subscriptions[i].discord_user_id, subscriptions[i].channel@),
    )
}

/// The test for a subscription to the channel.
pub open spec fn on_channel(channel: Seq<char>) -> spec_fn(Pair) -> bool {
    |pair: Pair| pair.1 == channel
}

/// The test for a subscription other than `gone`.
pub open spec fn other_than(gone: Pair) -> spec_fn(Pair) -> bool {
    |pair: Pair| pair != gone
}

/// The subscriptions to one channel.
pub open spec fn subscribers(list: Seq<Pair>, channel: Seq<char>) -> Seq<Pair> {
    list.filter(on_channel(channel))
}

/// Some recipient subscribes to the channel.
pub open spec fn any_subscriber(list: Seq<Pair>, channel: Seq<char>) -> bool {
    exists|i: int| 0 <= i < list.len() && (#[trigger] list[i]).1 == channel
}

/// The subscriptions without the pair `gone`.
pub open spec fn without(list: Seq<Pair>, gone: Pair) -> Seq<Pair> {
    list.filter(other_than(gone))
}

/// The subscriptions after a change: a subscription that is added stands at the
/// end, unless it is there already; one that is removed is gone.
pub open spec fn changed(list: Seq<Pair>, change: RegistrationChange) -> Seq<Pair> {
    match change {
        RegistrationChange::Added { recipient, channel } => if list.contains((recipient, channel@)) {
            list
        } else {
            list.push((recipient, channel@))
        },
        RegistrationChange::Removed { recipient, channel } => without(list, (recipient, channel@)),
    }
}

/// What a change asks of the chat connection: to join the channel of a
/// subscription that is the channel's first, to leave the channel of a
/// subscription that was the channel's last, and nothing otherwise.
pub open spec fn intent(list: Seq<Pair>, change: RegistrationChange) -> Option<CommandView> {
    match change {
        RegistrationChange::Added { recipient, channel } => if any_subscriber(list, channel@) {
            None
        } else {
            Some(CommandView::Join(wire_name(channel@)))
        },
        RegistrationChange::Removed { recipient, channel } => if list.contains(
            (recipient, channel@),
        ) && !any_subscriber(changed(list, change), channel@) {
            Some(CommandView::Part(wire_name(channel@)))
        } else {
            None
        },
    }
}

/// The event carries the command, or there is neither.
pub open spec fn carries(event: Option<IrcMessageEvent>, command: Option<CommandView>) -> bool {
    match command {
        Some(command) => event matches Some(IrcMessageEvent::Outgoing(out)) && out@ == command,
        None => event is None,
    }
}

/// Keeps track of who subscribes to which channel, and says for each change of
/// the registrations what the chat connection has to do.
pub struct SubscriptionSynchronizer {
    subscriptions: Vec<ChannelSubscription>,
}

impl View for SubscriptionSynchronizer {
    type V = Seq<Pair>;

    closed spec fn view(&self) -> Seq<Pair> {
        pairs(self.subscriptions@)
    }
}

impl SubscriptionSynchronizer {
    /// A synchronizer that knows of no subscription.
    pub fn new() -> (synchronizer: Self)
        ensures
            synchronizer@ == Seq::<Pair>::empty(),
    {
        let synchronizer = Self { subscriptions: Vec::new() };
        proof {
            assert(synchronizer@ =~= Seq::<Pair>::empty());
        }
        synchronizer
    }

    /// Whether some recipient subscribes to the channel.
    pub fn any_subscriber(&self, channel: &str) -> (yes: bool)
        ensures
            yes == any_subscriber(self@, channel@),
    {
        let mut i: usize = 0;
        while i < self.subscriptions.len()
            invariant
                i <= self.subscriptions.len(),
                forall|k: int| 0 <= k < i ==> (#[trigger] self@[k]).1 != channel@,
            decreases self.subscriptions.len() - i,
        {
            if same_text(self.subscriptions[i].channel.as_str(), channel) {
                proof {
                    assert(self@[i as int].1 == channel@);
                }
                return true;
            }
            i += 1;
        }
        false
    }

    /// Whether the recipient subscribes to the channel.
    pub fn is_subscribed(&self, recipient: i64, channel: &str) -> (yes: bool)
        ensures
            yes == self@.contains((recipient, channel@)),
    {
        let mut i: usize = 0;
        while i < self.subscriptions.len()
            invariant
                i <= self.subscriptions.len(),
                forall|k: int| 0 <= k < i ==> self@[k] != (recipient, channel@),
            decreases self.subscriptions.len() - i,
        {
            if self.subscriptions[i].discord_user_id == recipient && same_text(
                self.subscriptions[i].channel.as_str(),
                channel,
            ) {
                proof {
                    assert(self@[i as int] == (recipient, channel@));
                }
                return true;
            }
            i += 1;
        }
        false
    }

    /// The channels that have a subscriber, each once, in the order in which
    /// their first subscribers came.
    pub fn channels(&self) -> (channels: Vec<String>)
        ensures
            names(channels@) == distinct(channel_names(self@)),
    {
        let mut channels: Vec<String> = Vec::new();
        let mut i: usize = 0;
        proof {
            assert(names(channels@) =~= distinct(
                channel_names(self@).take(0),
            ));
        }
        while i < self.subscriptions.len()
            invariant
                i <= self.subscriptions.len(),
                names(channels@) == distinct(
                    channel_names(self@).take(i as int),
                ),
            decreases self.subscriptions.len() - i,
        {
            proof {
                assert(channel_names(self@).take(i + 1).drop_last() =~= channel_names(self@).take(
                    i as int,
                ));
            }
            add_name(&mut channels, self.subscriptions[i].channel.as_str());
            i += 1;
        }
        proof {
            assert(channel_names(self@).take(self@.len() as int) =~= channel_names(self@));
        }
        channels
    }

    /// Takes a change of the registrations in and says what it asks of the chat
    /// connection.
    pub fn apply(&mut self, change: &RegistrationChange) -> (event: Option<IrcMessageEvent>)
        ensures
            final(self)@ == changed(old(self)@, *change),
            carries(event, intent(old(self)@, *change)),
    {
        match change {
            RegistrationChange::Added { recipient, channel } => {
                let known = self.any_subscriber(channel.as_str());
                if !self.is_subscribed(*recipient, channel.as_str()) {
                    self.subscriptions.push(
                        ChannelSubscription { discord_user_id: *recipient, channel: channel.clone() },
                    );
                    proof {
                        assert(self@ =~= old(self)@.push((*recipient, channel@)));
                    }
                }
                if known {
                    None
                } else {
                    Some(make_join_msg(channel.clone()))
                }
            },
            RegistrationChange::Removed { recipient, channel } => {
                let was = self.is_subscribed(*recipient, channel.as_str());
                self.remove(*recipient, channel.as_str());
                if was && !self.any_subscriber(channel.as_str()) {
                    Some(make_part_msg(channel.clone()))
                } else {
                    None
                }
            },
        }
    }

    fn remove(&mut self, recipient: i64, channel: &str)
        ensures
            final(self)@ == without(old(self)@, (recipient, channel@)),
    {
        let ghost gone: Pair = (recipient, channel@);
        let ghost keep = other_than(gone);
        let mut kept: Vec<ChannelSubscription> = Vec::new();
        let mut i: usize = 0;
        proof {
            reveal(Seq::filter);
            assert(pairs(kept@) =~= self@.take(0).filter(keep));
        }
        while i < self.subscriptions.len()
            invariant
                i <= self.subscriptions.len(),
                *self == *old(self),
                gone == (recipient, channel@),
                keep == other_than(gone),
                pairs(kept@) == self@.take(i as int).filter(keep),
            decreases self.subscriptions.len() - i,
        {
            proof {
                reveal(Seq::filter);
                assert(self@.take(i + 1).drop_last() =~= self@.take(i as int));
                assert(self@.take(i + 1).last() == self@[i as int]);
            }
            let entry = &self.subscriptions[i];
            if !(entry.discord_user_id == recipient && same_text(entry.channel.as_str(), channel)) {
                let ghost before = kept@;
                kept.push(
                    ChannelSubscription {
                        discord_user_id: entry.discord_user_id,
                        channel: entry.channel.clone(),
                    },
                );
                proof {
                    let target = pairs(before).push(self@[i as int]);
                    assert(pairs(before).len() == before.len());
                    assert forall|k: int| 0 <= k < kept@.len() implies pairs(kept@)[k]
                        == target[k] by {
                        if k < before.len() {
                            assert(kept@[k] == before[k]);
                            assert(pairs(before)[k] == (
                                before[k].discord_user_id,
                                before[k].channel@,
                            ));
                        }
                    }
                    assert(pairs(kept@) =~= target);
                }
            }
            i += 1;
        }
        proof {
            assert(self@.take(self@.len() as int) =~= self@);
        }
        self.subscriptions = kept;
    }
}

/// The channels of the subscriptions, in their order.
pub open spec fn channel_names(list: Seq<Pair>) -> Seq<Seq<char>> {
    Seq::new(list.len(), |i: int| list[i].1)
}

proof fn lemma_filter_push<A>(list: Seq<A>, last: A, keep: spec_fn(A) -> bool)
    ensures
        list.push(last).filter(keep) == if keep(last) {
            list.filter(keep).push(last)
        } else {
            list.filter(keep)
        },
{
    reveal(Seq::filter);
    assert(list.push(last).drop_last() =~= list);
}

proof fn lemma_subscribers(list: Seq<Pair>, channel: Seq<char>)
    ensures
        any_subscriber(list, channel) <==> subscribers(list, channel).len() > 0,
    decreases list.len(),
{
    reveal(Seq::filter);
    if list.len() > 0 {
        let before = list.drop_last();
        lemma_subscribers(before, channel);
        if any_subscriber(list, channel) {
            let i = choose|i: int| 0 <= i < list.len() && (#[trigger] list[i]).1 == channel;
            if i < before.len() {
                assert(before[i].1 == channel);
            }
        }
        if any_subscriber(before, channel) {
            let i = choose|i: int| 0 <= i < before.len() && (#[trigger] before[i]).1 == channel;
            assert(list[i].1 == channel);
        }
        if list.last().1 == channel {
            assert(list[list.len() - 1].1 == channel);
        }
    }
}

proof fn lemma_removed(list: Seq<Pair>, gone: Pair)
    requires
        list.no_duplicates(),
    ensures
        without(list, gone).no_duplicates(),
        forall|pair: Pair| #[trigger]
            without(list, gone).contains(pair) <==> list.contains(pair) && pair != gone,
        subscribers(without(list, gone), gone.1).len() == subscribers(list, gone.1).len() - (
        if list.contains(gone) {
            1int
        } else {
            0int
        }),
    decreases list.len(),
{
    let keep = other_than(gone);
    let same = on_channel(gone.1);
    let rest = list.filter(keep);
    reveal(Seq::filter);
    if list.len() > 0 {
        let before = list.drop_last();
        let last = list.last();
        let kept = before.filter(keep);
        assert(list =~= before.push(last));
        assert forall|i: int, j: int|
            0 <= i < before.len() && 0 <= j < before.len() && i != j implies before[i]
            != before[j] by {
            assert(before[i] == list[i] && before[j] == list[j]);
        }
        lemma_removed(before, gone);
        lemma_filter_push(before, last, keep);
        lemma_filter_push(before, last, same);
        assert(!before.contains(last)) by {
            if before.contains(last) {
                let i = choose|i: int| 0 <= i < before.len() && before[i] == last;
                assert(list[i] == list[list.len() - 1]);
            }
        }
        assert(list.contains(gone) <==> before.contains(gone) || last == gone) by {
            if before.contains(gone) {
                let i = choose|i: int| 0 <= i < before.len() && before[i] == gone;
                assert(list[i] == gone);
            }
            if list.contains(gone) {
                let i = choose|i: int| 0 <= i < list.len() && list[i] == gone;
                if i < before.len() {
                    assert(before[i] == gone);
                }
            }
            if last == gone {
                assert(list[list.len() - 1] == gone);
            }
        }
        if last != gone {
            assert(rest == kept.push(last));
            lemma_filter_push(kept, last, same);
            assert(!kept.contains(last));
            assert forall|i: int, j: int|
                0 <= i < rest.len() && 0 <= j < rest.len() && i != j implies rest[i]
                != rest[j] by {
                if i < kept.len() && j < kept.len() {
                    assert(rest[i] == kept[i] && rest[j] == kept[j]);
                } else {
                    let k = if i < kept.len() { i } else { j };
                    assert(rest[k] == kept[k]);
                    assert(kept.contains(kept[k]));
                }
            }
        }
        assert forall|pair: Pair| #[trigger]
            rest.contains(pair) <==> list.contains(pair) && pair != gone by {
            if rest.contains(pair) {
                let i = choose|i: int| 0 <= i < rest.len() && rest[i] == pair;
                if i < kept.len() {
                    assert(kept[i] == pair);
                    assert(kept.contains(pair));
                    let j = choose|j: int| 0 <= j < before.len() && before[j] == pair;
                    assert(list[j] == pair);
                } else {
                    assert(list[list.len() - 1] == pair);
                }
            }
            if list.contains(pair) && pair != gone {
                let j = choose|j: int| 0 <= j < list.len() && list[j] == pair;
                if j < before.len() {
                    assert(before[j] == pair);
                    assert(before.contains(pair));
                    assert(kept.contains(pair));
                    let i = choose|i: int| 0 <= i < kept.len() && kept[i] == pair;
                    assert(rest[i] == pair);
                } else {
                    assert(rest[rest.len() - 1] == pair);
                }
            }
        }
    }
}

/// The subscriptions stay without repetitions under every change.
pub proof fn law_changed_keeps_unique(list: Seq<Pair>, change: RegistrationChange)
    requires
        list.no_duplicates(),
    ensures
        changed(list, change).no_duplicates(),
{
    match change {
        RegistrationChange::Added { recipient, channel } => {
            let pair: Pair = (recipient, channel@);
            if !list.contains(pair) {
                let longer = list.push(pair);
                assert forall|i: int, j: int|
                    0 <= i < longer.len() && 0 <= j < longer.len() && i != j implies longer[i]
                    != longer[j] by {
                    let k = if i < list.len() { i } else { j };
                    if i < list.len() && j < list.len() {
                        assert(longer[i] == list[i] && longer[j] == list[j]);
                    } else {
                        assert(longer[k] == list[k]);
                        assert(list.contains(list[k]));
                    }
                }
            }
        },
        RegistrationChange::Removed { recipient, channel } => {
            lemma_removed(list, (recipient, channel@));
        },
    }
}

/// A change asks to join a channel exactly when it takes the number of
/// subscribers of its channel from none to one.
pub proof fn law_join_on_first_subscriber(list: Seq<Pair>, change: RegistrationChange)
    requires
        list.no_duplicates(),
        change is Added,
    ensures
        intent(list, change) is Some <==> subscribers(list, change->Added_channel@).len() == 0
            && subscribers(changed(list, change), change->Added_channel@).len() == 1,
        intent(list, change) is Some ==> intent(list, change) == Some(
            CommandView::Join(wire_name(change->Added_channel@)),
        ),
{
    let channel = change->Added_channel@;
    let pair: Pair = (change->Added_recipient, channel);
    lemma_subscribers(list, channel);
    lemma_filter_push(list, pair, on_channel(channel));
    if list.contains(pair) {
        let i = choose|i: int| 0 <= i < list.len() && list[i] == pair;
        assert(list[i].1 == channel);
    }
}

/// A change asks to leave a channel exactly when it takes the number of
/// subscribers of its channel from one to none.
pub proof fn law_part_on_last_subscriber(list: Seq<Pair>, change: RegistrationChange)
    requires
        list.no_duplicates(),
        change is Removed,
    ensures
        intent(list, change) is Some <==> subscribers(list, change->Removed_channel@).len() == 1
            && subscribers(changed(list, change), change->Removed_channel@).len() == 0,
        intent(list, change) is Some ==> intent(list, change) == Some(
            CommandView::Part(wire_name(change->Removed_channel@)),
        ),
{
    let channel = change->Removed_channel@;
    let pair: Pair = (change->Removed_recipient, channel);
    lemma_removed(list, pair);
    lemma_subscribers(changed(list, change), channel);
    lemma_subscribers(list, channel);
}

} // verus!
