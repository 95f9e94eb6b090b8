//! Joins and parts for a batch of registration changes whose outcome the store
//! has told: which channels had a subscriber, which changes were stored, and
//! which subscriptions were there to be removed.

use vstd::prelude::*;
use ahash::AHashSet;
use crate::connection::{
    CommandView, IrcMessageEvent, bare_name, make_join_msg, make_part_msg, wire_name,
};
use crate::sync::{Pair, RegistrationChange, any_subscriber, changed, intent};

verus! {

/// The hash set of the crate `ahash`.
#[verifier::external_type_specification]
#[verifier::external_body]
#[verifier::reject_recursive_types(T)]
#[verifier::reject_recursive_types(S)]
pub struct ExAHashSet<T, S>(AHashSet<T, S>);

/// The names that a set of strings holds.
pub uninterp spec fn name_set(set: AHashSet<String>) -> Set<Seq<char>>;

/// `AHashSet::new` of the crate `ahash`: a set that holds nothing.
#[verifier::external_body]
fn name_set_new() -> (set: AHashSet<String>)
    ensures
        name_set(set) =~= Set::empty(),
{
    AHashSet::new()
}

/// `HashSet::insert`, reached through `AHashSet` of the crate `ahash`: the set
/// then holds the name, and holds what it held before.
#[verifier::external_body]
fn name_set_insert(set: &mut AHashSet<String>, name: String)
    ensures
        name_set(*final(set)) == name_set(*old(set)).insert(name@),
{
    set.insert(name);
}

/// `HashSet::remove`, reached through `AHashSet` of the crate `ahash`: the set
/// then holds the name no more, and holds what else it held before.
#[verifier::external_body]
fn name_set_remove(set: &mut AHashSet<String>, name: &str)
    ensures
        name_set(*final(set)) == name_set(*old(set)).remove(name@),
{
    set.remove(name);
}

/// `AHashSet::into_iter` of the crate `ahash`: hands out each name of the set
/// once. The order is that of the hash table and is left open.
#[verifier::external_body]
fn name_set_items(set: AHashSet<String>) -> (items: Vec<String>)
    ensures
        forall|i: int| 0 <= i < items.len() ==> name_set(set).contains((#[trigger] items[i])@),
        forall|name: Seq<char>| #[trigger]
            name_set(set).contains(name) ==> exists|i: int|
                0 <= i < items.len() && (#[trigger] items[i])@ == name,
        forall|i: int, j: int|
            0 <= i < j < items.len() ==> (#[trigger] items[i])@ != (#[trigger] items[j])@,
{
    set.into_iter().collect()
}

/// What the store told of one channel that a recipient asked to add.
#[derive(Debug, Clone, PartialEq, Eq)]
pub struct ChannelAdded {
    /// The channel's name in lower case, without the leading `#`.
    pub channel: String,
    /// Whether the channel had a subscriber before the change.
    pub had_subscriber: bool,
    /// Whether the store took the subscription.
    pub stored: bool,
}

/// What the store told of one channel that a recipient asked to remove.
#[derive(Debug, Clone, PartialEq, Eq)]
pub struct ChannelRemoved {
    /// The channel's name in lower case, without the leading `#`.
    pub channel: String,
    /// Whether the recipient subscribed to the channel, so that the store had a
    /// subscription to remove.
    pub removed: bool,
    /// Whether the channel has a subscriber after the change.
    pub still_subscribed: bool,
}

/// The channels of the batch that had no subscriber.
pub open spec fn newly_wanted(batch: Seq<ChannelAdded>) -> Set<Seq<char>> {
    Set::new(
        |channel: Seq<char>|
            exists|i: int|
                0 <= i < batch.len() && (#[trigger] batch[i]).channel@ == channel
                    && !batch[i].had_subscriber,
    )
}

/// The channels of the batch for which the store refused a subscription.
pub open spec fn refused(batch: Seq<ChannelAdded>) -> Set<Seq<char>> {
    Set::new(
        |channel: Seq<char>|
            exists|i: int|
                0 <= i < batch.len() && (#[trigger] batch[i]).channel@ == channel
                    && !batch[i].stored,
    )
}

/// The channels to join after a batch of additions: those that had no
/// subscriber, but for those for which the store refused a subscription.
pub open spec fn to_join(batch: Seq<ChannelAdded>) -> Set<Seq<char>> {
    newly_wanted(batch).difference(refused(batch))
}

/// The channels to leave after a batch of removals: those of which a
/// subscription was removed and which have no subscriber left. A channel to
/// which nobody subscribed is not left.
pub open spec fn to_part(batch: Seq<ChannelRemoved>) -> Set<Seq<char>> {
    Set::new(
        |channel: Seq<char>|
            exists|i: int|
                0 <= i < batch.len() && (#[trigger] batch[i]).channel@ == channel
                    && batch[i].removed && !batch[i].still_subscribed,
    )
}

/// The command that joins or leaves the channel.
pub open spec fn command_for(channel: Seq<char>, join: bool) -> CommandView {
    if join {
        CommandView::Join(wire_name(channel))
    } else {
        CommandView::Part(wire_name(channel))
    }
}

/// The event asks to join, or to leave, the channel.
pub open spec fn asks(event: IrcMessageEvent, channel: Seq<char>, join: bool) -> bool {
    event matches IrcMessageEvent::Outgoing(command) && command@ == command_for(channel, join)
}

/// The channel that an event asks to join or to leave; no channel where the
/// event asks for neither.
pub open spec fn channel_of(event: IrcMessageEvent) -> Seq<char> {
    match event {
        IrcMessageEvent::Outgoing(command) => match command@ {
            CommandView::Join(name) => bare_name(name),
            CommandView::Part(name) => bare_name(name),
            CommandView::Raw(_) => Seq::empty(),
        },
        IrcMessageEvent::Incoming(_) => Seq::empty(),
    }
}

/// `events` holds one event for each channel of the set and no other event:
/// every event asks to join, or to leave, a channel of the set, every channel
/// of the set is asked for, and no two events ask for the same channel.
pub open spec fn one_for_each(
    events: Seq<IrcMessageEvent>,
    channels: Set<Seq<char>>,
    join: bool,
) -> bool {
    &&& forall|i: int|
        0 <= i < events.len() ==> channels.contains(channel_of(#[trigger] events[i])) && asks(
            events[i],
            channel_of(events[i]),
            join,
        )
    &&& forall|channel: Seq<char>| #[trigger]
        channels.contains(channel) ==> exists|i: int|
            0 <= i < events.len() && channel_of(#[trigger] events[i]) == channel
    &&& forall|i: int, j: int|
        0 <= i < j < events.len() ==> channel_of(#[trigger] events[i]) != channel_of(
            #[trigger] events[j],
        )
}

fn events_for(set: AHashSet<String>, join: bool) -> (events: Vec<IrcMessageEvent>)
    ensures
        one_for_each(events@, name_set(set), join),
{
    let items = name_set_items(set);
    let mut events: Vec<IrcMessageEvent> = Vec::new();
    let mut i: usize = 0;
    while i < items.len()
        invariant
            i <= items.len(),
            events@.len() == i,
            forall|k: int|
                0 <= k < i ==> asks(#[trigger] events@[k], items@[k]@, join) && channel_of(
                    events@[k],
                ) == items@[k]@,
        decreases items.len() - i,
    {
        let event = if join {
            make_join_msg(items[i].clone())
        } else {
            make_part_msg(items[i].clone())
        };
        proof {
            lemma_bare_wire_name(items@[i as int]@);
        }
        events.push(event);
        i += 1;
    }
    proof {
        assert forall|channel: Seq<char>| #[trigger] name_set(set).contains(channel) implies exists|
            k: int,
        | 0 <= k < events@.len() && channel_of(#[trigger] events@[k]) == channel by {
            let k = choose|k: int| 0 <= k < items.len() && (#[trigger] items[k])@ == channel;
            assert(channel_of(events@[k]) == channel);
        }
    }
    events
}

/// The name of a channel on the wire, without its leading `#`, is the name of
/// the channel.
proof fn lemma_bare_wire_name(channel: Seq<char>)
    ensures
        bare_name(wire_name(channel)) == channel,
{
    assert(wire_name(channel).subrange(1, wire_name(channel).len() as int) =~= channel);
}

/// The joins that a batch of additions asks for: one for each channel that had
/// no subscriber and whose subscriptions the store took, none for any other
/// channel.
pub fn channels_to_join(batch: &Vec<ChannelAdded>) -> (events: Vec<IrcMessageEvent>)
    ensures
        one_for_each(events@, to_join(batch@), true),
        to_join(batch@).finite(),
        events@.len() == to_join(batch@).len(),
{
    let mut wanted = name_set_new();
    let mut i: usize = 0;
    while i < batch.len()
        invariant
            i <= batch.len(),
            name_set(wanted) =~= newly_wanted(batch@.take(i as int)),
        decreases batch.len() - i,
    {
        let ghost before = batch@.take(i as int);
        let ghost upto = batch@.take(i + 1);
        let ghost held = name_set(wanted);
        if !batch[i].had_subscriber {
            name_set_insert(&mut wanted, batch[i].channel.clone());
        }
        proof {
            assert forall|channel: Seq<char>|
                name_set(wanted).contains(channel) <==> newly_wanted(upto).contains(channel) by {
                if newly_wanted(upto).contains(channel) {
                    let k = choose|k: int|
                        0 <= k < upto.len() && (#[trigger] upto[k]).channel@ == channel
                            && !upto[k].had_subscriber;
                    if k < i {
                        assert(before[k] == upto[k]);
                        assert(newly_wanted(before).contains(channel));
                    }
                }
                if held.contains(channel) {
                    let k = choose|k: int|
                        0 <= k < before.len() && (#[trigger] before[k]).channel@ == channel
                            && !before[k].had_subscriber;
                    assert(upto[k] == before[k]);
                }
                if !batch[i as int].had_subscriber && channel == batch[i as int].channel@ {
                    assert(upto[i as int] == batch[i as int]);
                }
            }
        }
        i += 1;
    }
    proof {
        assert(batch@.take(batch@.len() as int) =~= batch@);
    }
    let mut j: usize = 0;
    while j < batch.len()
        invariant
            j <= batch.len(),
            name_set(wanted) =~= newly_wanted(batch@).difference(refused(batch@.take(j as int))),
        decreases batch.len() - j,
    {
        let ghost before = batch@.take(j as int);
        let ghost upto = batch@.take(j + 1);
        if !batch[j].stored {
            name_set_remove(&mut wanted, batch[j].channel.as_str());
        }
        proof {
            assert forall|channel: Seq<char>|
                refused(upto).contains(channel) <==> refused(before).contains(channel) || (
                !batch[j as int].stored && channel == batch[j as int].channel@) by {
                if refused(upto).contains(channel) {
                    let k = choose|k: int|
                        0 <= k < upto.len() && (#[trigger] upto[k]).channel@ == channel
                            && !upto[k].stored;
                    if k < j {
                        assert(before[k] == upto[k]);
                    }
                }
                if refused(before).contains(channel) {
                    let k = choose|k: int|
                        0 <= k < before.len() && (#[trigger] before[k]).channel@ == channel
                            && !before[k].stored;
                    assert(upto[k] == before[k]);
                }
                if !batch[j as int].stored && channel == batch[j as int].channel@ {
                    assert(upto[j as int] == batch[j as int]);
                }
            }
        }
        j += 1;
    }
    proof {
        assert(batch@.take(batch@.len() as int) =~= batch@);
    }
    let events = events_for(wanted, true);
    proof {
        law_one_for_each_counts(events@, to_join(batch@), true);
    }
    events
}

/// The parts that a batch of removals asks for: one for each channel of which a
/// subscription was removed and which has no subscriber left, none for any
/// other channel.
pub fn channels_to_part(batch: &Vec<ChannelRemoved>) -> (events: Vec<IrcMessageEvent>)
    ensures
        one_for_each(events@, to_part(batch@), false),
        to_part(batch@).finite(),
        events@.len() == to_part(batch@).len(),
{
    let mut deserted = name_set_new();
    let mut i: usize = 0;
    while i < batch.len()
        invariant
            i <= batch.len(),
            name_set(deserted) =~= to_part(batch@.take(i as int)),
        decreases batch.len() - i,
    {
        let ghost before = batch@.take(i as int);
        let ghost upto = batch@.take(i + 1);
        let ghost held = name_set(deserted);
        if batch[i].removed && !batch[i].still_subscribed {
            name_set_insert(&mut deserted, batch[i].channel.clone());
        }
        proof {
            assert forall|channel: Seq<char>|
                name_set(deserted).contains(channel) <==> to_part(upto).contains(channel) by {
                if to_part(upto).contains(channel) {
                    let k = choose|k: int|
                        0 <= k < upto.len() && (#[trigger] upto[k]).channel@ == channel
                            && upto[k].removed && !upto[k].still_subscribed;
                    if k < i {
                        assert(before[k] == upto[k]);
                        assert(to_part(before).contains(channel));
                    }
                }
                if held.contains(channel) {
                    let k = choose|k: int|
                        0 <= k < before.len() && (#[trigger] before[k]).channel@ == channel
                            && before[k].removed && !before[k].still_subscribed;
                    assert(upto[k] == before[k]);
                }
                if batch[i as int].removed && !batch[i as int].still_subscribed && channel
                    == batch[i as int].channel@ {
                    assert(upto[i as int] == batch[i as int]);
                }
            }
        }
        i += 1;
    }
    proof {
        assert(batch@.take(batch@.len() as int) =~= batch@);
    }
    let events = events_for(deserted, false);
    proof {
        law_one_for_each_counts(events@, to_part(batch@), false);
    }
    events
}

/// Where there is one event for each channel of a set, there are as many
/// events as the set has channels: none for no channel, and exactly one for a
/// single channel.
pub proof fn law_one_for_each_counts(
    events: Seq<IrcMessageEvent>,
    channels: Set<Seq<char>>,
    join: bool,
)
    requires
        one_for_each(events, channels, join),
    ensures
        channels.finite(),
        channels.len() == events.len(),
    decreases events.len(),
{
    if events.len() == 0 {
        assert(channels =~= Set::empty());
    } else {
        let rest = events.drop_last();
        let asked = channel_of(events[events.len() - 1]);
        let others = channels.remove(asked);
        assert forall|i: int| 0 <= i < rest.len() implies others.contains(
            channel_of(#[trigger] rest[i]),
        ) && asks(rest[i], channel_of(rest[i]), join) by {
            assert(rest[i] == events[i]);
        }
        assert forall|channel: Seq<char>| #[trigger] others.contains(channel) implies exists|i: int|
            0 <= i < rest.len() && channel_of(#[trigger] rest[i]) == channel by {
            let i = choose|i: int| 0 <= i < events.len() && channel_of(#[trigger] events[i]) == channel;
            assert(rest[i] == events[i]);
        }
        assert forall|i: int, j: int| 0 <= i < j < rest.len() implies channel_of(#[trigger] rest[i])
            != channel_of(#[trigger] rest[j]) by {
            assert(rest[i] == events[i] && rest[j] == events[j]);
        }
        law_one_for_each_counts(rest, others, join);
        assert(channels =~= others.insert(asked));
    }
}

/// A batch of one addition that the store took asks for a join exactly where
/// the synchronizer asks for one: where the channel had no subscriber.
pub proof fn law_batch_joins_as_synchronizer(
    list: Seq<Pair>,
    change: RegistrationChange,
    entry: ChannelAdded,
)
    requires
        change is Added,
        entry.channel@ == change->Added_channel@,
        entry.had_subscriber == any_subscriber(list, entry.channel@),
        entry.stored,
    ensures
        to_join(seq![entry]).contains(entry.channel@) <==> intent(list, change) is Some,
        forall|channel: Seq<char>| #[trigger]
            to_join(seq![entry]).contains(channel) ==> channel == entry.channel@,
{
    let batch = seq![entry];
    assert(batch[0] == entry);
}

/// A batch of one removal asks for a part exactly where the synchronizer asks
/// for one: where the subscription was there and was the channel's last.
pub proof fn law_batch_parts_as_synchronizer(
    list: Seq<Pair>,
    change: RegistrationChange,
    entry: ChannelRemoved,
)
    requires
        change is Removed,
        entry.channel@ == change->Removed_channel@,
        entry.removed == list.contains((change->Removed_recipient, entry.channel@)),
        entry.still_subscribed == any_subscriber(changed(list, change), entry.channel@),
    ensures
        to_part(seq![entry]).contains(entry.channel@) <==> intent(list, change) is Some,
        forall|channel: Seq<char>| #[trigger]
            to_part(seq![entry]).contains(channel) ==> channel == entry.channel@,
{
    let batch = seq![entry];
    assert(batch[0] == entry);
}

} // verus!
