//! From the matches of one message to the notifications that go out: one per
//! recipient, handed to a bounded queue that never makes the sender wait.

use std::collections::VecDeque;
use vstd::prelude::*;
use crate::connection::{IrcThreadError, StoreQueryError};
use crate::engine::{
    Evaluation, RecipientSpans, all_within, evaluate, failures_of, law_ignoring_recipient,
    matches_of,
};
use crate::message::{TwitchMessageSimple, law_merged_within, within};
use crate::pattern::PatternCompileError;
use crate::records::{IgnoreEntry, TriggerRecordNoId, ignores};
use crate::span::{merge, merged};
use crate::span_laws::law_merged_some;

verus! {

/// A notification: a message with its merged spans, for one recipient.
#[derive(Debug, Clone, PartialEq, Eq)]
pub struct TriggerEvent {
    /// The recipient.
    pub receiver: u64,
    /// The message and the spans to highlight.
    pub message: TwitchMessageSimple,
    /// When the message arrived, in milliseconds since the Unix epoch.
    pub timestamp: i64,
}

impl TriggerEvent {
    /// A notification for `receiver`.
    pub fn new(receiver: u64, message: TwitchMessageSimple, timestamp: i64) -> (event: Self)
        ensures
            event.receiver == receiver,
            event.message == message,
            event.timestamp == timestamp,
    {
        Self { receiver, message, timestamp }
    }
}

/// `Utc::now` of the crate `chrono`, in milliseconds since the Unix epoch. The
/// result is the reading of the system clock, so nothing is claimed of it.
#[verifier::external_body]
fn now_millis() -> i64 {
    chrono::Utc::now().timestamp_millis()
}

/// The recipient as the delivery side names it: the same 64 bits, read as an
/// unsigned number.
pub open spec fn receiver_of(recipient: i64) -> u64 {
    #[verifier::truncate]
    (recipient as u64)
}

/// Different recipients have different names on the delivery side.
pub proof fn lemma_receiver_of(a: i64, b: i64)
    ensures
        receiver_of(a) == receiver_of(b) ==> a == b,
{
    assert((#[verifier::truncate] (a as u64)) == (#[verifier::truncate] (b as u64)) ==> a == b)
        by (bit_vector);
}

/// The notification is the one that `entry` calls for: it goes to the entry's
/// recipient, carries the message with the entry's spans merged, and bears the
/// time `now`.
pub open spec fn notifies(
    notification: TriggerEvent,
    event: TwitchMessageSimple,
    entry: RecipientSpans,
    now: i64,
) -> bool {
    &&& notification.receiver == receiver_of(entry.recipient)
    &&& notification.message.channel@ == event.channel@
    &&& notification.message.author@ == event.author@
    &&& notification.message.message@ == event.message@
    &&& notification.message.triggers@ == merged(entry.spans@)
    &&& notification.timestamp == now
}

/// The entries that call for a notification: those with at least one span.
pub open spec fn deliverable(matches: Seq<RecipientSpans>) -> Seq<RecipientSpans> {
    matches.filter(|entry: RecipientSpans| entry.spans@.len() > 0)
}

/// `notifications` holds one notification for each deliverable entry, in the
/// order of the entries, and nothing else.
pub open spec fn routed(
    notifications: Seq<TriggerEvent>,
    event: TwitchMessageSimple,
    matches: Seq<RecipientSpans>,
    now: i64,
) -> bool {
    &&& notifications.len() == deliverable(matches).len()
    &&& forall|k: int|
        0 <= k < notifications.len() ==> notifies(
            #[trigger] notifications[k],
            event,
            deliverable(matches)[k],
            now,
        )
}

/// Every notification carries a message that is fit to be shown: it has at
/// least one span, its spans are ordered and pairwise disjoint, and each of
/// them holds at least one byte and lies within the text.
pub open spec fn all_presentable(notifications: Seq<TriggerEvent>) -> bool {
    forall|k: int|
        0 <= k < notifications.len() ==> (#[trigger] notifications[k]).message.presentable()
}

/// Builds the notifications for one message: one for each recipient with at
/// least one span, none for the others.
pub fn route(event: &TwitchMessageSimple, matches: &Vec<RecipientSpans>, now: i64) -> (notifications:
    Vec<TriggerEvent>)
    ensures
        routed(notifications@, *event, matches@, now),
        all_within(event.message@, matches@) ==> all_presentable(notifications@),
{
    let mut notifications: Vec<TriggerEvent> = Vec::new();
    let mut i: usize = 0;
    while i < matches.len()
        invariant
            i <= matches.len(),
            routed(notifications@, *event, matches@.take(i as int), now),
            all_within(event.message@, matches@) ==> all_presentable(notifications@),
        decreases matches.len() - i,
    {
        let entry = &matches[i];
        proof {
            reveal(Seq::filter);
            assert(matches@.take(i + 1).drop_last() =~= matches@.take(i as int));
            if all_within(event.message@, matches@) && entry.spans@.len() > 0 {
                assert(within(event.message@, matches@[i as int].spans@));
                law_merged_within(event.message@, entry.spans@);
                law_merged_some(entry.spans@);
            }
        }
        if entry.spans.len() > 0 {
            let mut message = event.duplicate();
            message.triggers = merge(&entry.spans);
            let receiver: u64 = #[verifier::truncate]
            (entry.recipient as u64);
            notifications.push(TriggerEvent::new(receiver, message, now));
        }
        i += 1;
    }
    proof {
        assert(matches@.take(matches@.len() as int) =~= matches@);
    }
    notifications
}

/// What one message gives rise to.
#[derive(Debug, Clone, PartialEq, Eq)]
pub struct Processed {
    /// The notifications, one for each recipient whose triggers matched.
    pub notifications: Vec<TriggerEvent>,
    /// The triggers that were passed over because their pattern does not
    /// compile.
    pub failures: Vec<PatternCompileError>,
}

/// `notifications` is what the message gives rise to at the time `now`: for
/// some order of the recipients whose triggers matched, one notification each.
pub open spec fn processed(
    notifications: Seq<TriggerEvent>,
    event: TwitchMessageSimple,
    triggers: Seq<TriggerRecordNoId>,
    ignored: Seq<IgnoreEntry>,
    now: i64,
) -> bool {
    exists|matches: Seq<RecipientSpans>|
        matches_of(matches, triggers, ignored, event.author@, event.message@) && #[trigger] routed(
            notifications,
            event,
            matches,
            now,
        )
}

/// `notifications` is what the message gives rise to at some time.
pub open spec fn stamped(
    notifications: Seq<TriggerEvent>,
    event: TwitchMessageSimple,
    triggers: Seq<TriggerRecordNoId>,
    ignored: Seq<IgnoreEntry>,
) -> bool {
    exists|now: i64| #[trigger] processed(notifications, event, triggers, ignored, now)
}

/// Matches, merges and routes one message that arrived at the time `now`.
pub fn process_at(
    event: &TwitchMessageSimple,
    triggers: &Vec<TriggerRecordNoId>,
    ignored: &Vec<IgnoreEntry>,
    now: i64,
) -> (outcome: Processed)
    ensures
        processed(outcome.notifications@, *event, triggers@, ignored@, now),
        failures_of(outcome.failures@, triggers@, ignored@, event.author@, event.message@),
        all_presentable(outcome.notifications@),
{
    let Evaluation { matches, failures } = evaluate(event, triggers, ignored);
    let notifications = route(event, &matches, now);
    Processed { notifications, failures }
}

/// Handles one message with what the store answered, and stamps the
/// notifications with the time of the system clock. Where a lookup failed the
/// message is given up as a whole: nobody is notified of it.
pub fn process(
    event: &TwitchMessageSimple,
    triggers: Result<Vec<TriggerRecordNoId>, StoreQueryError>,
    ignored: Result<Vec<IgnoreEntry>, StoreQueryError>,
) -> (outcome: Result<Processed, IrcThreadError>)
    ensures
        match (triggers, ignored) {
            (Ok(found), Ok(lists)) => outcome matches Ok(done) && stamped(
                done.notifications@,
                *event,
                found@,
                lists@,
            ) && failures_of(done.failures@, found@, lists@, event.author@, event.message@)
                && all_presentable(done.notifications@),
            _ => outcome == Err::<Processed, IrcThreadError>(
                IrcThreadError::SqlxError(StoreQueryError),
            ),
        },
{
    match (triggers, ignored) {
        (Ok(found), Ok(lists)) => {
            let now = now_millis();
            let done = process_at(event, &found, &lists, now);
            proof {
                assert(processed(done.notifications@, *event, found@, lists@, now));
            }
            Ok(done)
        },
        _ => Err(IrcThreadError::SqlxError(StoreQueryError)),
    }
}

proof fn lemma_deliverable_member(matches: Seq<RecipientSpans>, k: int)
    requires
        0 <= k < deliverable(matches).len(),
    ensures
        exists|i: int| 0 <= i < matches.len() && #[trigger] matches[i] == deliverable(matches)[k],
    decreases matches.len(),
{
    reveal(Seq::filter);
    if matches.len() > 0 {
        let before = matches.drop_last();
        if k < deliverable(before).len() {
            lemma_deliverable_member(before, k);
            let i = choose|i: int| 0 <= i < before.len() && #[trigger] before[i] == deliverable(before)[k];
            assert(matches[i] == before[i]);
        } else {
            assert(matches[matches.len() - 1] == deliverable(matches)[k]);
        }
    }
}

/// A recipient who ignores the author of a message gets no notification of it,
/// whatever the recipient's triggers are.
pub proof fn law_ignored_author_is_silent(
    notifications: Seq<TriggerEvent>,
    event: TwitchMessageSimple,
    triggers: Seq<TriggerRecordNoId>,
    ignored: Seq<IgnoreEntry>,
    now: i64,
    recipient: i64,
)
    requires
        processed(notifications, event, triggers, ignored, now),
        ignores(ignored, recipient, event.author@),
    ensures
        forall|k: int|
            0 <= k < notifications.len() ==> (#[trigger] notifications[k]).receiver != receiver_of(
                recipient,
            ),
{
    let matches = choose|matches: Seq<RecipientSpans>|
        matches_of(matches, triggers, ignored, event.author@, event.message@) && #[trigger] routed(
            notifications,
            event,
            matches,
            now,
        );
    law_ignoring_recipient(triggers, ignored, recipient, event.author@, event.message@);
    assert forall|k: int| 0 <= k < notifications.len() implies (#[trigger] notifications[k]).receiver
        != receiver_of(recipient) by {
        lemma_deliverable_member(matches, k);
        let i = choose|i: int| 0 <= i < matches.len() && #[trigger] matches[i] == deliverable(matches)[k];
        assert(notifies(notifications[k], event, deliverable(matches)[k], now));
        assert(matches[i].spans@.len() > 0);
        assert(matches[i].recipient != recipient);
        lemma_receiver_of(matches[i].recipient, recipient);
    }
}

/// How many of `offered` notifications a queue takes that holds `held` and can
/// hold `bound`.
pub open spec fn taken(held: nat, bound: nat, offered: nat) -> nat {
    if held >= bound {
        0
    } else if offered <= bound - held {
        offered
    } else {
        (bound - held) as nat
    }
}

/// The count of dropped notifications after `more` were dropped: the sum, or
/// the largest number that the count can hold.
pub open spec fn counted(lost: nat, more: nat) -> nat {
    if lost + more <= u64::MAX {
        lost + more
    } else {
        u64::MAX as nat
    }
}

/// A notification that found the queue full and was dropped.
#[derive(Debug, Clone, PartialEq, Eq)]
pub struct QueueFullError {
    /// The recipient whose notification was dropped.
    pub receiver: u64,
}

/// The bounded queue between the matching of messages and their delivery.
///
/// Notifications leave in the order in which they came. A notification that
/// finds the queue full is dropped and counted; the sender never waits.
pub struct NotificationQueue {
    waiting: VecDeque<TriggerEvent>,
    capacity: usize,
    dropped: u64,
}

impl View for NotificationQueue {
    type V = Seq<TriggerEvent>;

    closed spec fn view(&self) -> Seq<TriggerEvent> {
        self.waiting@
    }
}

impl NotificationQueue {
    /// The queue holds no more notifications than it can hold.
    pub closed spec fn well_formed(&self) -> bool {
        self.waiting@.len() <= self.capacity
    }

    /// How many notifications the queue can hold.
    pub closed spec fn bound(&self) -> nat {
        self.capacity as nat
    }

    /// How many notifications were dropped so far. The count stops at the
    /// largest number that it can hold.
    pub closed spec fn lost(&self) -> nat {
        self.dropped as nat
    }

    /// An empty queue that holds up to `capacity` notifications.
    pub fn new(capacity: usize) -> (queue: Self)
        ensures
            queue.well_formed(),
            queue@ == Seq::<TriggerEvent>::empty(),
            queue.bound() == capacity,
            queue.lost() == 0,
    {
        Self { waiting: VecDeque::new(), capacity, dropped: 0 }
    }

    /// How many notifications wait in the queue.
    pub fn len(&self) -> (n: usize)
        ensures
            n == self@.len(),
            self.well_formed() ==> n <= self.bound(),
    {
        self.waiting.len()
    }

    /// How many notifications the queue can hold.
    pub fn capacity(&self) -> (n: usize)
        ensures
            n == self.bound(),
    {
        self.capacity
    }

    /// How many notifications were dropped so far.
    pub fn failures(&self) -> (n: u64)
        ensures
            n == self.lost(),
    {
        self.dropped
    }

    /// Puts a notification at the end of the queue, or drops it and counts it
    /// where the queue is full.
    pub fn offer(&mut self, notification: TriggerEvent) -> (outcome: Result<(), QueueFullError>)
        ensures
            old(self).well_formed() ==> final(self).well_formed(),
            final(self).bound() == old(self).bound(),
            old(self)@.len() < old(self).bound() ==> outcome is Ok && final(self)@ == old(self)@.push(
                notification,
            ) && final(self).lost() == old(self).lost(),
            old(self)@.len() >= old(self).bound() ==> outcome is Err && outcome->Err_0.receiver
                == notification.receiver && final(self)@ == old(self)@ && final(self).lost() == (
            if old(self).lost() < u64::MAX {
                old(self).lost() + 1
            } else {
                old(self).lost()
            }),
    {
        if self.waiting.len() < self.capacity {
            self.waiting.push_back(notification);
            Ok(())
        } else {
            if self.dropped < u64::MAX {
                self.dropped = self.dropped + 1;
            }
            Err(QueueFullError { receiver: notification.receiver })
        }
    }

    /// Hands the notifications to the queue in their order. Those for which
    /// there is room are put at the end of the queue; the others are dropped
    /// and counted, and the result names the recipient of each of them.
    pub fn offer_all(&mut self, notifications: Vec<TriggerEvent>) -> (refused: Vec<QueueFullError>)
        ensures
            old(self).well_formed() ==> final(self).well_formed(),
            final(self).bound() == old(self).bound(),
            final(self)@ == old(self)@ + notifications@.take(
                taken(old(self)@.len(), old(self).bound(), notifications@.len()) as int,
            ),
            refused@.len() + taken(old(self)@.len(), old(self).bound(), notifications@.len())
                == notifications@.len(),
            forall|k: int|
                0 <= k < refused@.len() ==> (#[trigger] refused@[k]).receiver == notifications@[taken(
                    old(self)@.len(),
                    old(self).bound(),
                    notifications@.len(),
                ) + k].receiver,
            final(self).lost() == counted(old(self).lost(), refused@.len()),
    {
        let ghost all = notifications@;
        let ghost room = taken(self@.len(), self.bound(), all.len());
        let mut refused: Vec<QueueFullError> = Vec::new();
        proof {
            assert(self@ =~= old(self)@ + all.take(0));
        }
        for notification in it: notifications.into_iter()
            invariant
                it.seq() == all,
                room == taken(old(self)@.len(), old(self).bound(), all.len()),
                old(self).well_formed() ==> self.well_formed(),
                self.bound() == old(self).bound(),
                self@ == old(self)@ + all.take(taken(old(self)@.len(), old(self).bound(), it.index() as nat) as int),
                refused@.len() + taken(old(self)@.len(), old(self).bound(), it.index() as nat)
                    == it.index(),
                forall|k: int|
                    0 <= k < refused@.len() ==> (#[trigger] refused@[k]).receiver == all[room
                        + k].receiver,
                self.lost() == counted(old(self).lost(), refused@.len()),
        {
            let ghost index = it.index() as nat;
            match self.offer(notification) {
                Ok(()) => {
                    proof {
                        assert(all.take(index as int).push(all[index as int]) =~= all.take(
                            index as int + 1,
                        ));
                        assert(self@ =~= old(self)@ + all.take(index as int + 1));
                    }
                },
                Err(full) => {
                    refused.push(full);
                },
            }
        }
        refused
    }

    /// Takes the notification that waited longest out of the queue.
    pub fn take(&mut self) -> (next: Option<TriggerEvent>)
        ensures
            old(self).well_formed() ==> final(self).well_formed(),
            final(self).bound() == old(self).bound(),
            final(self).lost() == old(self).lost(),
            old(self)@.len() == 0 ==> next is None && final(self)@ == old(self)@,
            old(self)@.len() > 0 ==> next == Some(old(self)@[0]) && final(self)@ == old(self)@.drop_first(),
    {
        let next = self.waiting.pop_front();
        proof {
            if old(self)@.len() > 0 {
                assert(self.waiting@ =~= old(self)@.drop_first());
            }
        }
        next
    }
}

} // verus!
