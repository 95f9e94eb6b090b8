//! Match spans and the rule that fuses overlapping spans.
//!
//! A span is a half-open byte interval of a message. Spans gathered for one
//! recipient may overlap; before a message is shown they are ordered by their
//! start and overlapping ones are fused, so that every byte is highlighted once.

use vstd::prelude::*;
use crate::span_laws::law_merged;

verus! {

/// A half-open byte interval `[start, end)` of a message's text.
pub type MatchSpan = (u16, u16);

/// A span is proper when it holds at least one byte.
pub open spec fn proper(span: MatchSpan) -> bool {
    span.0 < span.1
}

/// Every span of the list is proper.
pub open spec fn all_proper(spans: Seq<MatchSpan>) -> bool {
    forall|i: int| 0 <= i < spans.len() ==> proper(#[trigger] spans[i])
}

/// Whether the span reaches the position `p`.
///
/// With `inner` unset this asks whether byte `p` lies in the span. With `inner`
/// set it asks whether the span holds both byte `p - 1` and byte `p`, that is
/// whether `p` lies strictly inside it.
pub open spec fn reaches(span: MatchSpan, p: int, inner: bool) -> bool {
    if inner {
        span.0 < p < span.1
    } else {
        span.0 <= p < span.1
    }
}

/// Some span of the list reaches the position `p`.
pub open spec fn any_reaches(spans: Seq<MatchSpan>, p: int, inner: bool) -> bool {
    exists|i: int| 0 <= i < spans.len() && reaches(#[trigger] spans[i], p, inner)
}

/// Byte `p` lies in some span of the list.
pub open spec fn covered(spans: Seq<MatchSpan>, p: int) -> bool {
    any_reaches(spans, p, false)
}

/// Bytes `p - 1` and `p` lie together in some span of the list.
pub open spec fn linked(spans: Seq<MatchSpan>, p: int) -> bool {
    any_reaches(spans, p, true)
}

/// The starts of the list never decrease.
pub open spec fn ascending_starts(spans: Seq<MatchSpan>) -> bool {
    forall|i: int, j: int| 0 <= i < j < spans.len() ==> (#[trigger] spans[i]).0 <= (#[trigger] spans[j]).0
}

/// Every span is proper, and each one ends before the next one starts.
pub open spec fn disjoint_ascending(spans: Seq<MatchSpan>) -> bool {
    &&& all_proper(spans)
    &&& forall|i: int, j: int|
        0 <= i < j < spans.len() ==> (#[trigger] spans[i]).1 <= (#[trigger] spans[j]).0
}

/// The sum of the lengths of the spans.
pub open spec fn total_len(spans: Seq<MatchSpan>) -> int
    decreases spans.len(),
{
    if spans.len() == 0 {
        0
    } else {
        total_len(spans.drop_last()) + (spans.last().1 - spans.last().0)
    }
}

/// Where a new span goes in a list ordered by start: before the first span
/// that starts later, or at the end.
pub open spec fn slot(spans: Seq<MatchSpan>, span: MatchSpan) -> int
    decreases spans.len(),
{
    if spans.len() == 0 {
        0
    } else if span.0 < spans[0].0 {
        0
    } else {
        1 + slot(spans.drop_first(), span)
    }
}

/// The list with `span` put at its slot.
pub open spec fn inserted(spans: Seq<MatchSpan>, span: MatchSpan) -> Seq<MatchSpan> {
    spans.insert(slot(spans, span), span)
}

/// The raw spans ordered by start, spans with equal starts in their order of
/// arrival.
pub open spec fn sorted_by_start(raw: Seq<MatchSpan>) -> Seq<MatchSpan>
    decreases raw.len(),
{
    if raw.len() == 0 {
        Seq::empty()
    } else {
        inserted(sorted_by_start(raw.drop_last()), raw.last())
    }
}

/// One forward pass over a list ordered by start.
///
/// A span that starts at or after the end of the last kept span is kept as a
/// new entry. A span that starts before that end and ends after it stretches
/// the last kept span to its own end. Any other span lies inside the last kept
/// span and is dropped.
pub open spec fn normalized(spans: Seq<MatchSpan>) -> Seq<MatchSpan>
    decreases spans.len(),
{
    if spans.len() == 0 {
        Seq::empty()
    } else {
        let kept = normalized(spans.drop_last());
        let next = spans.last();
        let last_end: int = if kept.len() == 0 { 0 } else { kept.last().1 as int };
        if next.0 >= last_end {
            kept.push(next)
        } else if next.1 > last_end {
            kept.update(kept.len() - 1, (kept.last().0, next.1))
        } else {
            kept
        }
    }
}

/// What a list of kept spans becomes when one more span arrives.
pub open spec fn absorbed(spans: Seq<MatchSpan>, span: MatchSpan) -> Seq<MatchSpan> {
    normalized(inserted(spans, span))
}

/// The disjoint spans that stand for a list of raw spans.
pub open spec fn merged(raw: Seq<MatchSpan>) -> Seq<MatchSpan> {
    normalized(sorted_by_start(raw))
}

/// Puts `span` into a list ordered by start, after the spans that start at the
/// same byte.
pub fn insert_sorted(spans: &mut Vec<MatchSpan>, span: MatchSpan)
    ensures
        final(spans)@ == inserted(old(spans)@, span),
{
    let mut i: usize = 0;
    proof {
        assert(spans@.skip(0) =~= spans@);
    }
    while i < spans.len() && span.0 >= spans[i].0
        invariant
            i <= spans.len(),
            *spans == *old(spans),
            slot(spans@, span) == i + slot(spans@.skip(i as int), span),
        decreases spans.len() - i,
    {
        proof {
            assert(spans@.skip(i as int).drop_first() =~= spans@.skip(i as int + 1));
        }
        i += 1;
    }
    spans.insert(i, span);
}

/// Fuses the overlapping spans of a list ordered by start in one forward pass.
pub fn normalize(spans: &Vec<MatchSpan>) -> (kept: Vec<MatchSpan>)
    ensures
        kept@ == normalized(spans@),
{
    let mut kept: Vec<MatchSpan> = Vec::new();
    let mut last_end: u16 = 0;
    let mut i: usize = 0;
    while i < spans.len()
        invariant
            i <= spans.len(),
            kept@ == normalized(spans@.take(i as int)),
            last_end == (if kept@.len() == 0 { 0 } else { kept@.last().1 as int }),
        decreases spans.len() - i,
    {
        let (start, end) = spans[i];
        proof {
            assert(spans@.take(i as int + 1).drop_last() =~= spans@.take(i as int));
        }
        if start >= last_end {
            kept.push((start, end));
            last_end = end;
        } else if end > last_end {
            let at: usize = kept.len() - 1;
            let head: u16 = kept[at].0;
            kept.set(at, (head, end));
            last_end = end;
        }
        i += 1;
    }
    proof {
        assert(spans@.take(spans@.len() as int) =~= spans@);
    }
    kept
}

/// Orders the raw spans of one recipient by start and fuses those that overlap.
///
/// Where every raw span is proper, the result is ordered and pairwise
/// disjoint, covers the bytes that the raw spans cover and no others, and is
/// in all no longer than the raw spans are together.
pub fn merge(raw: &Vec<MatchSpan>) -> (spans: Vec<MatchSpan>)
    ensures
        spans@ == merged(raw@),
        all_proper(raw@) ==> disjoint_ascending(spans@) && ascending_starts(spans@) && total_len(
            spans@,
        ) <= total_len(raw@),
        all_proper(raw@) ==> forall|p: int|
            #![trigger covered(spans@, p)]
            covered(spans@, p) <==> covered(raw@, p),
{
    proof {
        if all_proper(raw@) {
            law_merged(raw@);
        }
    }
    let mut sorted: Vec<MatchSpan> = Vec::new();
    let mut i: usize = 0;
    while i < raw.len()
        invariant
            i <= raw.len(),
            sorted@ == sorted_by_start(raw@.take(i as int)),
        decreases raw.len() - i,
    {
        proof {
            assert(raw@.take(i as int + 1).drop_last() =~= raw@.take(i as int));
        }
        insert_sorted(&mut sorted, raw[i]);
        i += 1;
    }
    proof {
        assert(raw@.take(raw@.len() as int) =~= raw@);
    }
    normalize(&sorted)
}

} // verus!
