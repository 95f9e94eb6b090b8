//! The match engine: which recipients a message concerns, and where in the
//! text each recipient's triggers match.

use vstd::prelude::*;
use ahash::AHashMap;
use crate::message::TwitchMessageSimple;
use crate::message::within;
use crate::pattern::{
    PatternCompileError, find_trigger, law_trigger_spans_read, reads, trigger_spans,
};
use crate::records::{IgnoreEntry, TriggerRecordNoId, ignores, is_ignored};
use crate::span::MatchSpan;
use crate::text::{bytes_of, sliceable};

verus! {

/// The hash map of the crate `ahash`.
#[verifier::external_type_specification]
#[verifier::external_body]
#[verifier::reject_recursive_types(K)]
#[verifier::reject_recursive_types(V)]
#[verifier::reject_recursive_types(S)]
pub struct ExAHashMap<K, V, S>(AHashMap<K, V, S>);

/// The hasher state of the crate `ahash`.
#[verifier::external_type_specification]
#[verifier::external_body]
pub struct ExRandomState(ahash::RandomState);

/// The raw spans of one recipient, in the order in which they were found.
#[derive(Debug, Clone, PartialEq, Eq)]
pub struct RecipientSpans {
    /// The recipient.
    pub recipient: i64,
    /// The spans that the recipient's triggers matched.
    pub spans: Vec<MatchSpan>,
}

/// What a map from recipients to span lists holds.
pub uninterp spec fn span_lists(map: AHashMap<i64, Vec<MatchSpan>>) -> Map<i64, Seq<MatchSpan>>;

/// `AHashMap::new` of the crate `ahash`: a map that holds nothing.
#[verifier::external_body]
fn span_lists_new() -> (map: AHashMap<i64, Vec<MatchSpan>>)
    ensures
        span_lists(map) =~= Map::empty(),
{
    AHashMap::new()
}

/// `AHashMap::remove` of the crate `ahash`: takes the list of `recipient` out of
/// the map and returns it, or returns `None` where the map holds none.
#[verifier::external_body]
fn span_lists_take(map: &mut AHashMap<i64, Vec<MatchSpan>>, recipient: i64) -> (taken: Option<
    Vec<MatchSpan>,
>)
    ensures
        span_lists(*final(map)) == span_lists(*old(map)).remove(recipient),
        match taken {
            Some(spans) => span_lists(*old(map)).contains_key(recipient) && span_lists(
                *old(map),
            )[recipient] == spans@,
            None => !span_lists(*old(map)).contains_key(recipient),
        },
{
    map.remove(&recipient)
}

/// `AHashMap::insert` of the crate `ahash`: the map then holds `spans` for
/// `recipient`, in place of what it held for that recipient before.
#[verifier::external_body]
fn span_lists_put(map: &mut AHashMap<i64, Vec<MatchSpan>>, recipient: i64, spans: Vec<MatchSpan>)
    ensures
        span_lists(*final(map)) == span_lists(*old(map)).insert(recipient, spans@),
{
    map.insert(recipient, spans);
}

/// `AHashMap::into_iter` of the crate `ahash`: hands out each recipient of the
/// map once, with its list. The order is that of the hash table and is left
/// open.
#[verifier::external_body]
fn span_lists_entries(map: AHashMap<i64, Vec<MatchSpan>>) -> (entries: Vec<(i64, Vec<MatchSpan>)>)
    ensures
        forall|i: int|
            0 <= i < entries.len() ==> span_lists(map).contains_key((#[trigger] entries[i]).0)
                && span_lists(map)[entries[i].0] == entries[i].1@,
        forall|recipient: i64| #[trigger]
            span_lists(map).contains_key(recipient) ==> exists|i: int|
                0 <= i < entries.len() && (#[trigger] entries[i]).0 == recipient,
        forall|i: int, j: int|
            0 <= i < j < entries.len() ==> (#[trigger] entries[i]).0 != (#[trigger] entries[j]).0,
{
    map.into_iter().collect()
}

/// The spans that one trigger adds for its owner: none where the owner ignores
/// the author or the trigger's pattern does not compile.
pub open spec fn yield_of(
    trigger: TriggerRecordNoId,
    ignored: Seq<IgnoreEntry>,
    author: Seq<char>,
    text: Seq<char>,
) -> Seq<MatchSpan> {
    if ignores(ignored, trigger.discord_user_id, author) {
        Seq::empty()
    } else {
        match trigger_spans(trigger, text) {
            Some(spans) => spans,
            None => Seq::empty(),
        }
    }
}

/// The raw spans of one recipient: what each of the recipient's triggers adds,
/// in the order of the triggers.
pub open spec fn raw_spans(
    triggers: Seq<TriggerRecordNoId>,
    ignored: Seq<IgnoreEntry>,
    recipient: i64,
    author: Seq<char>,
    text: Seq<char>,
) -> Seq<MatchSpan>
    decreases triggers.len(),
{
    if triggers.len() == 0 {
        Seq::empty()
    } else {
        let before = raw_spans(triggers.drop_last(), ignored, recipient, author, text);
        if triggers.last().discord_user_id == recipient {
            before + yield_of(triggers.last(), ignored, author, text)
        } else {
            before
        }
    }
}

/// The trigger is tried and its pattern does not compile.
pub open spec fn fails(
    trigger: TriggerRecordNoId,
    ignored: Seq<IgnoreEntry>,
    author: Seq<char>,
    text: Seq<char>,
) -> bool {
    !ignores(ignored, trigger.discord_user_id, author) && trigger_spans(trigger, text) is None
}

/// The triggers that fail, in their order.
pub open spec fn failing(
    triggers: Seq<TriggerRecordNoId>,
    ignored: Seq<IgnoreEntry>,
    author: Seq<char>,
    text: Seq<char>,
) -> Seq<TriggerRecordNoId> {
    triggers.filter(|trigger: TriggerRecordNoId| fails(trigger, ignored, author, text))
}

/// The spans of every entry lie within the text.
pub open spec fn all_within(text: Seq<char>, matches: Seq<RecipientSpans>) -> bool {
    forall|i: int| 0 <= i < matches.len() ==> within(text, (#[trigger] matches[i]).spans@)
}

/// The outcome of matching one message.
#[derive(Debug, Clone, PartialEq, Eq)]
pub struct Evaluation {
    /// For each recipient whose triggers matched, the raw spans.
    pub matches: Vec<RecipientSpans>,
    /// The triggers that were passed over because their pattern does not
    /// compile.
    pub failures: Vec<PatternCompileError>,
}

/// `matches` holds, for one message, exactly the recipients with at least one
/// raw span, each once and with all of its raw spans.
pub open spec fn matches_of(
    matches: Seq<RecipientSpans>,
    triggers: Seq<TriggerRecordNoId>,
    ignored: Seq<IgnoreEntry>,
    author: Seq<char>,
    text: Seq<char>,
) -> bool {
    &&& forall|i: int|
        0 <= i < matches.len() ==> (#[trigger] matches[i]).spans@ == raw_spans(
            triggers,
            ignored,
            matches[i].recipient,
            author,
            text,
        ) && matches[i].spans@.len() > 0
    &&& forall|recipient: i64|
        (#[trigger] raw_spans(triggers, ignored, recipient, author, text)).len() > 0 ==> exists|
            i: int,
        |
            0 <= i < matches.len() && (#[trigger] matches[i]).recipient == recipient
    &&& forall|i: int, j: int|
        0 <= i < j < matches.len() ==> (#[trigger] matches[i]).recipient != (
        #[trigger] matches[j]).recipient
}

/// `failures` names the failing triggers, in their order.
pub open spec fn failures_of(
    failures: Seq<PatternCompileError>,
    triggers: Seq<TriggerRecordNoId>,
    ignored: Seq<IgnoreEntry>,
    author: Seq<char>,
    text: Seq<char>,
) -> bool {
    let failed = failing(triggers, ignored, author, text);
    &&& failures.len() == failed.len()
    &&& forall|k: int|
        0 <= k < failures.len() ==> (#[trigger] failures[k]).recipient == failed[k].discord_user_id
            && failures[k].pattern@ == failed[k].trigger@
}

fn append_spans(list: &mut Vec<MatchSpan>, more: &Vec<MatchSpan>)
    ensures
        final(list)@ == old(list)@ + more@,
{
    let mut i: usize = 0;
    while i < more.len()
        invariant
            i <= more.len(),
            list@ == old(list)@ + more@.take(i as int),
        decreases more.len() - i,
    {
        list.push(more[i]);
        proof {
            assert(more@.take(i as int).push(more@[i as int]) =~= more@.take(i + 1));
            assert(list@ =~= old(list)@ + more@.take(i + 1));
        }
        i += 1;
    }
    proof {
        assert(more@.take(more@.len() as int) =~= more@);
    }
}

/// Matches the triggers of a channel against one message of that channel.
///
/// `triggers` are the triggers of the recipients who subscribe to the message's
/// channel, `ignored` the ignore lists of those recipients. A recipient who
/// ignores the author gets nothing. A trigger whose pattern does not compile is
/// passed over and reported; the recipient's other triggers still count.
pub fn evaluate(
    event: &TwitchMessageSimple,
    triggers: &Vec<TriggerRecordNoId>,
    ignored: &Vec<IgnoreEntry>,
) -> (outcome: Evaluation)
    ensures
        matches_of(outcome.matches@, triggers@, ignored@, event.author@, event.message@),
        failures_of(outcome.failures@, triggers@, ignored@, event.author@, event.message@),
        forall|i: int|
            0 <= i < outcome.matches.len() ==> !ignores(
                ignored@,
                (#[trigger] outcome.matches[i]).recipient,
                event.author@,
            ),
        all_within(event.message@, outcome.matches@),
{
    let author = event.author.as_str();
    let text = event.message.as_str();
    let mut lists = span_lists_new();
    let mut failures: Vec<PatternCompileError> = Vec::new();
    let mut i: usize = 0;
    while i < triggers.len()
        invariant
            i <= triggers.len(),
            author@ == event.author@,
            text@ == event.message@,
            forall|recipient: i64| #[trigger]
                span_lists(lists).contains_key(recipient) <==> raw_spans(
                    triggers@.take(i as int),
                    ignored@,
                    recipient,
                    author@,
                    text@,
                ).len() > 0,
            forall|recipient: i64| #[trigger]
                span_lists(lists).contains_key(recipient) ==> span_lists(lists)[recipient]
                    == raw_spans(triggers@.take(i as int), ignored@, recipient, author@, text@),
            failures_of(failures@, triggers@.take(i as int), ignored@, author@, text@),
        decreases triggers.len() - i,
    {
        let trigger = &triggers[i];
        let owner = trigger.discord_user_id;
        let ghost before = triggers@.take(i as int);
        let ghost upto = triggers@.take(i + 1);
        let ghost held = span_lists(lists);
        proof {
            assert(upto.drop_last() =~= before);
            assert(upto.last() == *trigger);
            assert(upto =~= before.push(*trigger));
            lemma_failing_push(before, *trigger, ignored@, author@, text@);
        }
        if !is_ignored(ignored, owner, author) {
            match find_trigger(trigger, text) {
                Ok(found) => {
                    if found.len() > 0 {
                        let mut list = match span_lists_take(&mut lists, owner) {
                            Some(list) => list,
                            None => Vec::new(),
                        };
                        append_spans(&mut list, &found);
                        span_lists_put(&mut lists, owner, list);
                        proof {
                            assert(span_lists(lists) =~= held.insert(
                                owner,
                                raw_spans(upto, ignored@, owner, author@, text@),
                            ));
                        }
                    } else {
                        proof {
                            assert(raw_spans(before, ignored@, owner, author@, text@) + found@
                                =~= raw_spans(before, ignored@, owner, author@, text@));
                        }
                    }
                },
                Err(error) => {
                    failures.push(error);
                    proof {
                        assert(raw_spans(before, ignored@, owner, author@, text@)
                            + Seq::<MatchSpan>::empty() =~= raw_spans(
                            before,
                            ignored@,
                            owner,
                            author@,
                            text@,
                        ));
                    }
                },
            }
        } else {
            proof {
                assert(raw_spans(before, ignored@, owner, author@, text@)
                    + Seq::<MatchSpan>::empty() =~= raw_spans(
                    before,
                    ignored@,
                    owner,
                    author@,
                    text@,
                ));
            }
        }
        i += 1;
    }
    proof {
        assert(triggers@.take(triggers@.len() as int) =~= triggers@);
    }
    let entries = span_lists_entries(lists);
    let mut matches: Vec<RecipientSpans> = Vec::new();
    for entry in it: entries.into_iter()
        invariant
            it.seq() == entries@,
            matches@.len() == it.index(),
            forall|k: int|
                0 <= k < it.index() ==> (#[trigger] matches@[k]).recipient == entries@[k].0
                    && matches@[k].spans@ == entries@[k].1@,
    {
        let (recipient, spans) = entry;
        matches.push(RecipientSpans { recipient, spans });
    }
    proof {
        assert forall|k: int| 0 <= k < matches.len() implies (#[trigger] matches[k]).spans@
            == raw_spans(
            triggers@,
            ignored@,
            matches[k].recipient,
            event.author@,
            event.message@,
        ) && matches[k].spans@.len() > 0 by {
            assert(span_lists(lists).contains_key(entries@[k].0));
        }
        assert forall|a: int, b: int| 0 <= a < b < matches.len() implies (#[trigger] matches[a]).recipient
            != (#[trigger] matches[b]).recipient by {
            assert(entries@[a].0 != entries@[b].0);
        }
        assert forall|recipient: i64|
            (#[trigger] raw_spans(
                triggers@,
                ignored@,
                recipient,
                event.author@,
                event.message@,
            )).len() > 0 implies exists|k: int|
            0 <= k < matches.len() && (#[trigger] matches[k]).recipient == recipient by {
            assert(span_lists(lists).contains_key(recipient));
            let k = choose|k: int| 0 <= k < entries.len() && (#[trigger] entries[k]).0 == recipient;
            assert(matches[k].recipient == recipient);
        }
        assert forall|k: int| 0 <= k < matches.len() implies !ignores(
            ignored@,
            (#[trigger] matches[k]).recipient,
            event.author@,
        ) by {
            if ignores(ignored@, matches[k].recipient, event.author@) {
                law_ignoring_recipient(
                    triggers@,
                    ignored@,
                    matches[k].recipient,
                    event.author@,
                    event.message@,
                );
            }
        }
    }
    proof {
        assert forall|k: int| 0 <= k < matches.len() implies within(
            event.message@,
            (#[trigger] matches[k]).spans@,
        ) by {
            law_raw_spans_within(
                triggers@,
                ignored@,
                matches[k].recipient,
                event.author@,
                event.message@,
            );
        }
    }
    Evaluation { matches, failures }
}

proof fn lemma_failing_push(
    triggers: Seq<TriggerRecordNoId>,
    trigger: TriggerRecordNoId,
    ignored: Seq<IgnoreEntry>,
    author: Seq<char>,
    text: Seq<char>,
)
    ensures
        failing(triggers.push(trigger), ignored, author, text) == if fails(
            trigger,
            ignored,
            author,
            text,
        ) {
            failing(triggers, ignored, author, text).push(trigger)
        } else {
            failing(triggers, ignored, author, text)
        },
{
    reveal(Seq::filter);
    assert(triggers.push(trigger).drop_last() =~= triggers);
}

/// A recipient who ignores the author of a message has no raw span in it,
/// whatever the recipient's triggers are.
pub proof fn law_ignoring_recipient(
    triggers: Seq<TriggerRecordNoId>,
    ignored: Seq<IgnoreEntry>,
    recipient: i64,
    author: Seq<char>,
    text: Seq<char>,
)
    requires
        ignores(ignored, recipient, author),
    ensures
        raw_spans(triggers, ignored, recipient, author, text) == Seq::<MatchSpan>::empty(),
    decreases triggers.len(),
{
    if triggers.len() > 0 {
        law_ignoring_recipient(triggers.drop_last(), ignored, recipient, author, text);
        assert(Seq::<MatchSpan>::empty() + Seq::<MatchSpan>::empty() =~= Seq::<MatchSpan>::empty());
    }
}

/// Every raw span of a recipient holds at least one byte and can be cut out of
/// the text of the message.
pub proof fn law_raw_spans_within(
    triggers: Seq<TriggerRecordNoId>,
    ignored: Seq<IgnoreEntry>,
    recipient: i64,
    author: Seq<char>,
    text: Seq<char>,
)
    ensures
        within(text, raw_spans(triggers, ignored, recipient, author, text)),
    decreases triggers.len(),
{
    if triggers.len() > 0 {
        let before = raw_spans(triggers.drop_last(), ignored, recipient, author, text);
        let more = yield_of(triggers.last(), ignored, author, text);
        law_raw_spans_within(triggers.drop_last(), ignored, recipient, author, text);
        law_trigger_spans_read(triggers.last(), text);
        let all = raw_spans(triggers, ignored, recipient, author, text);
        assert forall|k: int| 0 <= k < all.len() implies (#[trigger] all[k]).0 < all[k].1
            && sliceable(bytes_of(text), all[k].0 as int, all[k].1 as int) by {
            if k < before.len() {
                assert(all[k] == before[k]);
            } else {
                assert(all[k] == more[k - before.len()]);
                assert(reads(text, triggers.last(), more[k - before.len()]));
            }
        }
    }
}

} // verus!
