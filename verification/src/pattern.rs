//! What one trigger finds in a text: a plain pattern by scanning the bytes, a
//! regular expression by the regular expression engine.

use vstd::prelude::*;
use vstd::string::StringExecFns;
use vstd::utf8::{decode_utf8, encode_utf8_decode_utf8, encode_utf8_valid_utf8};
use crate::fold::{text_spans, to_text_spans};
use crate::records::TriggerRecordNoId;
use crate::search::{find_occurrences, law_occurrence_can_be_cut, law_occurrences, occurrences};
use crate::span::MatchSpan;
use crate::text::{boundary, bytes_of, lowercase_of, same_text, slice, sliceable};

verus! {

/// The error of the crate `regex` for a pattern that does not compile.
#[verifier::external_type_specification]
#[verifier::external_body]
pub struct ExRegexError(regex::Error);

/// What the regular expression engine finds: `None` where the pattern does not
/// compile, else the start and end of each match in the text, in the order in
/// which the engine reports them.
pub uninterp spec fn regex_spans(pattern: Seq<char>, text: Seq<char>) -> Option<Seq<(usize, usize)>>;

/// The matches lie in the text as the regular expression engine promises:
/// each starts no later than it ends, starts and ends between characters of
/// the text, and ends no later than the next one starts.
pub open spec fn placed(text: Seq<u8>, found: Seq<(usize, usize)>) -> bool {
    &&& forall|i: int|
        0 <= i < found.len() ==> (#[trigger] found[i]).0 <= found[i].1 && boundary(
            text,
            found[i].0 as int,
        ) && boundary(text, found[i].1 as int)
    &&& forall|i: int, j: int|
        0 <= i < j < found.len() ==> (#[trigger] found[i]).1 <= (#[trigger] found[j]).0
}

/// `Regex::new` and `Regex::find_iter` of the crate `regex`: compiles the
/// pattern and collects the byte offsets of the successive matches in the text.
/// The outcome is a function of the pattern and the text alone; the contract
/// gives it the name `regex_spans`. Of the matches it says what the crate's
/// documentation of `Match::start`, `Match::end` and `find_iter` says: the
/// offsets are in order, fall on character boundaries of the text, and
/// successive matches do not overlap.
#[verifier::external_body]
fn regex_find_all(pattern: &str, text: &str) -> (found: Result<Vec<(usize, usize)>, regex::Error>)
    ensures
        match found {
            Ok(spans) => regex_spans(pattern@, text@) == Some(spans@) && placed(
                bytes_of(text@),
                spans@,
            ),
            Err(_) => regex_spans(pattern@, text@) is None,
        },
{
    let compiled = regex::Regex::new(pattern)?;
    Ok(compiled.find_iter(text).map(|m| (m.start(), m.end())).collect())
}

/// A trigger whose pattern is no regular expression.
#[derive(Debug, Clone, PartialEq, Eq)]
pub struct PatternCompileError {
    /// The recipient who owns the trigger.
    pub recipient: i64,
    /// The pattern that did not compile.
    pub pattern: String,
}

/// The spans that fit the message model: those that hold at least one byte and
/// end within the first 65535 bytes, in their order.
pub open spec fn representable(found: Seq<(usize, usize)>) -> Seq<MatchSpan>
    decreases found.len(),
{
    if found.len() == 0 {
        Seq::empty()
    } else {
        let before = representable(found.drop_last());
        let last = found.last();
        if last.0 < last.1 && last.1 <= u16::MAX {
            before.push((last.0 as u16, last.1 as u16))
        } else {
            before
        }
    }
}

/// Keeps the found spans that fit the message model.
pub fn to_spans(found: &Vec<(usize, usize)>) -> (spans: Vec<MatchSpan>)
    ensures
        spans@ == representable(found@),
{
    let mut spans: Vec<MatchSpan> = Vec::new();
    let mut i: usize = 0;
    while i < found.len()
        invariant
            i <= found.len(),
            spans@ == representable(found@.take(i as int)),
        decreases found.len() - i,
    {
        proof {
            assert(found@.take(i + 1).drop_last() =~= found@.take(i as int));
        }
        let (start, end) = found[i];
        if start < end && end <= 0xffff {
            spans.push((start as u16, end as u16));
        }
        i += 1;
    }
    proof {
        assert(found@.take(found@.len() as int) =~= found@);
    }
    spans
}

/// The regular expression that a trigger stands for: the pattern as it is, or
/// the pattern inside a group that ignores case.
pub open spec fn regex_source(pattern: Seq<char>, case_sensitive: bool) -> Seq<char> {
    if case_sensitive {
        pattern
    } else {
        "(?i:"@ + pattern + ")"@
    }
}

/// The text that the bytes from `from` up to `to` of a text spell.
pub open spec fn cut_text(text: Seq<char>, from: int, to: int) -> Seq<char> {
    decode_utf8(bytes_of(text).subrange(from, to))
}

/// The span is a piece of the text that the trigger means: it holds at least
/// one byte and can be cut out of the text, and for a plain pattern the piece
/// is the pattern, in lower case where case does not count.
pub open spec fn reads(text: Seq<char>, trigger: TriggerRecordNoId, span: MatchSpan) -> bool {
    &&& span.0 < span.1
    &&& sliceable(bytes_of(text), span.0 as int, span.1 as int)
    &&& !trigger.regex && trigger.case_sensitive ==> cut_text(text, span.0 as int, span.1 as int)
        == trigger.trigger@
    &&& !trigger.regex && !trigger.case_sensitive ==> lowercase_of(
        cut_text(text, span.0 as int, span.1 as int),
    ) == lowercase_of(trigger.trigger@)
}

/// The test for a span that is a piece of the text that the trigger means.
pub open spec fn reading(text: Seq<char>, trigger: TriggerRecordNoId) -> spec_fn(MatchSpan) -> bool {
    |span: MatchSpan| reads(text, trigger, span)
}

/// Where in the text a trigger is looked for; `None` where the trigger is a
/// regular expression that does not compile.
///
/// A regular expression is left to the engine. A plain pattern is looked for
/// in the bytes of the text. Where case does not count, the lowercase form of
/// the pattern is looked for in the lowercase form of the text, and what is
/// found is brought back to offsets into the text.
pub open spec fn candidates(trigger: TriggerRecordNoId, text: Seq<char>) -> Option<Seq<MatchSpan>> {
    if trigger.regex {
        match regex_spans(regex_source(trigger.trigger@, trigger.case_sensitive), text) {
            Some(found) => Some(representable(found)),
            None => None,
        }
    } else if trigger.case_sensitive {
        Some(representable(occurrences(bytes_of(text), bytes_of(trigger.trigger@), 0)))
    } else {
        Some(
            representable(
                text_spans(
                    text,
                    bytes_of(lowercase_of(text)).len(),
                    occurrences(
                        bytes_of(lowercase_of(text)),
                        bytes_of(lowercase_of(trigger.trigger@)),
                        0,
                    ),
                ),
            ),
        )
    }
}

/// What a trigger finds in a text; `None` where the trigger is a regular
/// expression that does not compile. Of the places where the trigger is looked
/// for, those count that are pieces of the text that the trigger means.
pub open spec fn trigger_spans(trigger: TriggerRecordNoId, text: Seq<char>) -> Option<Seq<MatchSpan>> {
    match candidates(trigger, text) {
        Some(spans) => Some(spans.filter(reading(text, trigger))),
        None => None,
    }
}

/// Builds the regular expression that a trigger stands for.
pub fn regex_source_of(pattern: &str, case_sensitive: bool) -> (source: String)
    ensures
        source@ == regex_source(pattern@, case_sensitive),
{
    if case_sensitive {
        String::from_str(pattern)
    } else {
        let mut source = String::from_str("(?i:");
        source.append(pattern);
        source.append(")");
        source
    }
}

/// Keeps the spans whose piece of the text, brought to lower case, is the
/// pattern in lower case.
fn keep_folded(trigger: &TriggerRecordNoId, folded: &str, text: &str, spans: &Vec<MatchSpan>) -> (kept:
    Vec<MatchSpan>)
    requires
        !trigger.regex,
        !trigger.case_sensitive,
        folded@ == lowercase_of(trigger.trigger@),
    ensures
        kept@ == spans@.filter(reading(text@, *trigger)),
{
    let mut kept: Vec<MatchSpan> = Vec::new();
    let mut i: usize = 0;
    while i < spans.len()
        invariant
            i <= spans.len(),
            !trigger.regex,
            !trigger.case_sensitive,
            folded@ == lowercase_of(trigger.trigger@),
            kept@ == spans@.take(i as int).filter(reading(text@, *trigger)),
        decreases spans.len() - i,
    {
        proof {
            reveal(Seq::filter);
            assert(spans@.take(i + 1).drop_last() =~= spans@.take(i as int));
        }
        let span = spans[i];
        if span.0 < span.1 {
            match slice(text, span.0 as usize, span.1 as usize) {
                Some(piece) => {
                    proof {
                        encode_utf8_decode_utf8(piece@);
                    }
                    let lower = piece.to_lowercase();
                    if same_text(lower.as_str(), folded) {
                        kept.push(span);
                    }
                },
                None => {},
            }
        }
        i += 1;
    }
    proof {
        assert(spans@.take(spans@.len() as int) =~= spans@);
    }
    kept
}

proof fn lemma_filter_all<A>(list: Seq<A>, keep: spec_fn(A) -> bool)
    requires
        forall|i: int| 0 <= i < list.len() ==> keep(#[trigger] list[i]),
    ensures
        list.filter(keep) == list,
    decreases list.len(),
{
    reveal(Seq::filter);
    if list.len() > 0 {
        let before = list.drop_last();
        assert forall|i: int| 0 <= i < before.len() implies keep(#[trigger] before[i]) by {
            assert(before[i] == list[i]);
        }
        lemma_filter_all(before, keep);
        assert(keep(list[list.len() - 1]));
        assert(before.push(list.last()) =~= list);
    }
}

/// Every place at which a pattern stands in the bytes of a text is a piece of
/// the text that spells the pattern.
proof fn lemma_occurrences_read(trigger: TriggerRecordNoId, text: Seq<char>)
    requires
        !trigger.regex,
        trigger.case_sensitive,
        bytes_of(text).len() <= usize::MAX,
    ensures
        trigger_spans(trigger, text) == candidates(trigger, text),
{
    let hay = bytes_of(text);
    let needle = bytes_of(trigger.trigger@);
    let found = occurrences(hay, needle, 0);
    let spans = representable(found);
    assert forall|k: int| 0 <= k < spans.len() implies reading(text, trigger)(
        #[trigger] spans[k],
    ) by {
        lemma_representable(found, k);
        let i = choose|i: int|
            0 <= i < found.len() && (#[trigger] found[i]).0 < found[i].1 && found[i].1 <= u16::MAX
                && representable(found)[k] == (found[i].0 as u16, found[i].1 as u16);
        law_occurrences(hay, needle, 0);
        encode_utf8_valid_utf8(text);
        encode_utf8_valid_utf8(trigger.trigger@);
        law_occurrence_can_be_cut(hay, needle, found[i].0 as int);
        encode_utf8_decode_utf8(trigger.trigger@);
    }
    lemma_filter_all(spans, reading(text, trigger));
}

/// Every match that the engine reports and that holds a byte is a piece of the
/// text.
proof fn lemma_matches_read(trigger: TriggerRecordNoId, text: Seq<char>, found: Seq<(usize, usize)>)
    requires
        trigger.regex,
        placed(bytes_of(text), found),
    ensures
        representable(found).filter(reading(text, trigger)) == representable(found),
{
    let spans = representable(found);
    assert forall|k: int| 0 <= k < spans.len() implies reading(text, trigger)(
        #[trigger] spans[k],
    ) by {
        lemma_representable(found, k);
    }
    lemma_filter_all(spans, reading(text, trigger));
}

/// Looks for a trigger in a text.
///
/// Every span of the result holds at least one byte and can be cut out of the
/// text; for a plain pattern the piece of the text is the pattern, in lower
/// case where case does not count.
pub fn find_trigger(trigger: &TriggerRecordNoId, text: &str) -> (found: Result<
    Vec<MatchSpan>,
    PatternCompileError,
>)
    ensures
        match found {
            Ok(spans) => trigger_spans(*trigger, text@) == Some(spans@),
            Err(error) => trigger_spans(*trigger, text@) is None
                && error.recipient == trigger.discord_user_id
                && error.pattern@ == trigger.trigger@,
        },
        found matches Ok(spans) ==> forall|k: int|
            0 <= k < spans@.len() ==> reads(text@, *trigger, #[trigger] spans@[k]),
{
    proof {
        law_trigger_spans_read(*trigger, text@);
    }
    if trigger.regex {
        let source = regex_source_of(trigger.trigger.as_str(), trigger.case_sensitive);
        match regex_find_all(source.as_str(), text) {
            Ok(found) => {
                proof {
                    lemma_matches_read(*trigger, text@, found@);
                }
                Ok(to_spans(&found))
            },
            Err(_) => Err(
                PatternCompileError {
                    recipient: trigger.discord_user_id,
                    pattern: trigger.trigger.clone(),
                },
            ),
        }
    } else if trigger.case_sensitive {
        let hay = text.as_bytes();
        let found = find_occurrences(hay, trigger.trigger.as_str().as_bytes());
        proof {
            lemma_occurrences_read(*trigger, text@);
        }
        Ok(to_spans(&found))
    } else {
        let hay = text.to_lowercase();
        let needle = trigger.trigger.as_str().to_lowercase();
        let folded = hay.as_str().as_bytes();
        let found = find_occurrences(folded, needle.as_str().as_bytes());
        let back = to_text_spans(text, folded.len(), &found);
        let spans = to_spans(&back);
        Ok(keep_folded(trigger, needle.as_str(), text, &spans))
    }
}

proof fn lemma_representable(found: Seq<(usize, usize)>, k: int)
    requires
        0 <= k < representable(found).len(),
    ensures
        exists|i: int|
            0 <= i < found.len() && (#[trigger] found[i]).0 < found[i].1 && found[i].1 <= u16::MAX
                && representable(found)[k] == (found[i].0 as u16, found[i].1 as u16),
    decreases found.len(),
{
    if found.len() > 0 {
        let before = found.drop_last();
        if k < representable(before).len() {
            lemma_representable(before, k);
            let i = choose|i: int|
                0 <= i < before.len() && (#[trigger] before[i]).0 < before[i].1 && before[i].1
                    <= u16::MAX && representable(before)[k] == (
                    before[i].0 as u16,
                    before[i].1 as u16,
                );
            assert(found[i] == before[i]);
        } else {
            assert(found[found.len() - 1] == found.last());
        }
    }
}

/// Every span that a trigger finds in a text holds at least one byte and can be
/// cut out of the text, and for a plain pattern the piece of the text is the
/// pattern, in lower case where case does not count.
pub proof fn law_trigger_spans_read(trigger: TriggerRecordNoId, text: Seq<char>)
    ensures
        trigger_spans(trigger, text) matches Some(spans) ==> forall|k: int|
            0 <= k < spans.len() ==> reads(text, trigger, #[trigger] spans[k]),
{
    if let Some(found) = candidates(trigger, text) {
        let spans = found.filter(reading(text, trigger));
        assert forall|k: int| 0 <= k < spans.len() implies reads(
            text,
            trigger,
            #[trigger] spans[k],
        ) by {
            found.lemma_filter_pred(reading(text, trigger), k);
        }
    }
}

} // verus!
