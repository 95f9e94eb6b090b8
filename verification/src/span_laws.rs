//! What holds of merged spans: they are disjoint, they cover exactly the bytes of
//! the raw spans, and they do not depend on the order in which the raw spans
//! arrived.

use vstd::prelude::*;
use crate::span::{
    MatchSpan, absorbed, all_proper, any_reaches, ascending_starts, covered, disjoint_ascending,
    inserted, linked, merged, normalized, proper, reaches, slot, sorted_by_start, total_len,
};

verus! {

proof fn lemma_reaches_push(spans: Seq<MatchSpan>, span: MatchSpan, p: int, inner: bool)
    ensures
        any_reaches(spans.push(span), p, inner) <==> any_reaches(spans, p, inner) || reaches(
            span,
            p,
            inner,
        ),
{
    let longer = spans.push(span);
    if any_reaches(longer, p, inner) {
        let i = choose|i: int| 0 <= i < longer.len() && reaches(#[trigger] longer[i], p, inner);
        if i < spans.len() {
            assert(reaches(spans[i], p, inner));
        }
    }
    if any_reaches(spans, p, inner) {
        let i = choose|i: int| 0 <= i < spans.len() && reaches(#[trigger] spans[i], p, inner);
        assert(reaches(longer[i], p, inner));
    }
    if reaches(span, p, inner) {
        assert(reaches(longer[spans.len() as int], p, inner));
    }
}

proof fn lemma_reaches_insert(spans: Seq<MatchSpan>, at: int, span: MatchSpan, p: int, inner: bool)
    requires
        0 <= at <= spans.len(),
    ensures
        any_reaches(spans.insert(at, span), p, inner) <==> any_reaches(spans, p, inner) || reaches(
            span,
            p,
            inner,
        ),
{
    let longer = spans.insert(at, span);
    if any_reaches(longer, p, inner) {
        let i = choose|i: int| 0 <= i < longer.len() && reaches(#[trigger] longer[i], p, inner);
        if i < at {
            assert(reaches(spans[i], p, inner));
        } else if i > at {
            assert(reaches(spans[i - 1], p, inner));
        }
    }
    if any_reaches(spans, p, inner) {
        let i = choose|i: int| 0 <= i < spans.len() && reaches(#[trigger] spans[i], p, inner);
        if i < at {
            assert(reaches(longer[i], p, inner));
        } else {
            assert(reaches(longer[i + 1], p, inner));
        }
    }
    if reaches(span, p, inner) {
        assert(reaches(longer[at], p, inner));
    }
}

proof fn lemma_total_len_insert(spans: Seq<MatchSpan>, at: int, span: MatchSpan)
    requires
        0 <= at <= spans.len(),
    ensures
        total_len(spans.insert(at, span)) == total_len(spans) + (span.1 - span.0),
    decreases spans.len(),
{
    let longer = spans.insert(at, span);
    if at == spans.len() {
        assert(longer.drop_last() =~= spans);
    } else {
        assert(longer.drop_last() =~= spans.drop_last().insert(at, span));
        assert(longer.last() == spans.last());
        lemma_total_len_insert(spans.drop_last(), at, span);
    }
}

proof fn lemma_slot(spans: Seq<MatchSpan>, span: MatchSpan)
    ensures
        0 <= slot(spans, span) <= spans.len(),
        forall|i: int| 0 <= i < slot(spans, span) ==> (#[trigger] spans[i]).0 <= span.0,
        slot(spans, span) < spans.len() ==> span.0 < spans[slot(spans, span)].0,
    decreases spans.len(),
{
    if spans.len() > 0 && span.0 >= spans[0].0 {
        let rest = spans.drop_first();
        lemma_slot(rest, span);
        assert forall|i: int| 0 <= i < slot(spans, span) implies (#[trigger] spans[i]).0
            <= span.0 by {
            if i > 0 {
                assert(rest[i - 1] == spans[i]);
            }
        }
        if slot(spans, span) < spans.len() {
            assert(rest[slot(rest, span)] == spans[slot(spans, span)]);
        }
    }
}

proof fn lemma_inserted(spans: Seq<MatchSpan>, span: MatchSpan)
    requires
        ascending_starts(spans),
    ensures
        ascending_starts(inserted(spans, span)),
        inserted(spans, span).len() == spans.len() + 1,
        all_proper(spans) && proper(span) ==> all_proper(inserted(spans, span)),
        total_len(inserted(spans, span)) == total_len(spans) + (span.1 - span.0),
        forall|p: int, inner: bool|
            #![trigger any_reaches(inserted(spans, span), p, inner)]
            any_reaches(inserted(spans, span), p, inner) <==> any_reaches(spans, p, inner)
                || reaches(span, p, inner),
{
    let at = slot(spans, span);
    let longer = inserted(spans, span);
    lemma_slot(spans, span);
    lemma_total_len_insert(spans, at, span);
    assert forall|i: int, j: int| 0 <= i < j < longer.len() implies (#[trigger] longer[i]).0 <= (
    #[trigger] longer[j]).0 by {
        if j == at {
            assert(longer[i] == spans[i]);
        } else if i == at {
            assert(longer[j] == spans[j - 1]);
            if at < j - 1 {
                assert(spans[at].0 <= spans[j - 1].0);
            }
        } else {
            let a = if i < at { i } else { i - 1 };
            let b = if j < at { j } else { j - 1 };
            assert(longer[i] == spans[a]);
            assert(longer[j] == spans[b]);
        }
    }
    if all_proper(spans) && proper(span) {
        assert forall|i: int| 0 <= i < longer.len() implies proper(#[trigger] longer[i]) by {
            if i < at {
                assert(longer[i] == spans[i]);
            } else if i > at {
                assert(longer[i] == spans[i - 1]);
            }
        }
    }
    assert forall|p: int, inner: bool|
        #![trigger any_reaches(inserted(spans, span), p, inner)]
        any_reaches(inserted(spans, span), p, inner) <==> any_reaches(spans, p, inner) || reaches(
            span,
            p,
            inner,
        ) by {
        lemma_reaches_insert(spans, at, span, p, inner);
    }
}

proof fn lemma_sorted_by_start(raw: Seq<MatchSpan>)
    ensures
        ascending_starts(sorted_by_start(raw)),
        all_proper(raw) ==> all_proper(sorted_by_start(raw)),
        total_len(sorted_by_start(raw)) == total_len(raw),
        forall|p: int, inner: bool|
            #![trigger any_reaches(sorted_by_start(raw), p, inner)]
            any_reaches(sorted_by_start(raw), p, inner) <==> any_reaches(raw, p, inner),
    decreases raw.len(),
{
    if raw.len() > 0 {
        let before = raw.drop_last();
        lemma_sorted_by_start(before);
        lemma_inserted(sorted_by_start(before), raw.last());
        if all_proper(raw) {
            assert forall|i: int| 0 <= i < before.len() implies proper(#[trigger] before[i]) by {
                assert(before[i] == raw[i]);
            }
            assert(proper(raw[raw.len() - 1]));
        }
        assert forall|p: int, inner: bool|
            #![trigger any_reaches(sorted_by_start(raw), p, inner)]
            any_reaches(sorted_by_start(raw), p, inner) <==> any_reaches(raw, p, inner) by {
            assert(raw =~= before.push(raw.last()));
            lemma_reaches_push(before, raw.last(), p, inner);
        }
    } else {
        assert forall|p: int, inner: bool|
            #![trigger any_reaches(sorted_by_start(raw), p, inner)]
            any_reaches(sorted_by_start(raw), p, inner) <==> any_reaches(raw, p, inner) by {
            assert(sorted_by_start(raw) =~= raw);
        }
    }
}

/// What one forward pass gives on a list of proper spans ordered by start.
proof fn lemma_normalized(spans: Seq<MatchSpan>)
    requires
        ascending_starts(spans),
        all_proper(spans),
    ensures
        disjoint_ascending(normalized(spans)),
        spans.len() == 0 ==> normalized(spans).len() == 0,
        spans.len() > 0 ==> normalized(spans).len() > 0 && normalized(spans).last().0
            <= spans.last().0,
        forall|k: int|
            0 <= k < spans.len() ==> (#[trigger] spans[k]).1 <= normalized(spans).last().1,
        total_len(normalized(spans)) <= total_len(spans),
        forall|p: int, inner: bool|
            #![trigger any_reaches(normalized(spans), p, inner)]
            any_reaches(normalized(spans), p, inner) <==> any_reaches(spans, p, inner),
    decreases spans.len(),
{
    if spans.len() > 0 {
        let before = spans.drop_last();
        let next = spans.last();
        let kept = normalized(before);
        let out = normalized(spans);
        assert forall|i: int| 0 <= i < before.len() implies proper(#[trigger] before[i]) by {
            assert(before[i] == spans[i]);
        }
        assert forall|i: int, j: int| 0 <= i < j < before.len() implies (#[trigger] before[i]).0 <= (
        #[trigger] before[j]).0 by {
            assert(before[i] == spans[i] && before[j] == spans[j]);
        }
        lemma_normalized(before);
        assert(spans =~= before.push(next));
        assert(proper(spans[spans.len() - 1]));
        if before.len() > 0 {
            assert(before.last() == spans[spans.len() - 2]);
            assert(spans[spans.len() - 2].0 <= spans[spans.len() - 1].0);
        }
        let last_end: int = if kept.len() == 0 { 0 } else { kept.last().1 as int };
        if next.0 >= last_end {
            assert(out == kept.push(next));
            assert(out.drop_last() =~= kept);
            assert forall|i: int, j: int| 0 <= i < j < out.len() implies (#[trigger] out[i]).1 <= (
            #[trigger] out[j]).0 by {
                if j == kept.len() {
                    assert(out[i] == kept[i]);
                    if i < kept.len() - 1 {
                        assert(kept[i].1 <= kept[kept.len() - 1].0);
                    }
                    assert(proper(kept[kept.len() - 1]));
                } else {
                    assert(out[i] == kept[i] && out[j] == kept[j]);
                }
            }
            assert forall|i: int| 0 <= i < out.len() implies proper(#[trigger] out[i]) by {
                if i < kept.len() {
                    assert(out[i] == kept[i]);
                }
            }
            assert forall|k: int| 0 <= k < spans.len() implies (#[trigger] spans[k]).1
                <= out.last().1 by {
                if k < before.len() {
                    assert(before[k] == spans[k]);
                }
            }
            assert forall|p: int, inner: bool|
                #![trigger any_reaches(normalized(spans), p, inner)]
                any_reaches(normalized(spans), p, inner) <==> any_reaches(spans, p, inner) by {
                lemma_reaches_push(kept, next, p, inner);
                lemma_reaches_push(before, next, p, inner);
            }
        } else {
            let at = kept.len() - 1;
            let head = kept.last().0;
            assert(proper(kept[at]));
            if next.1 > last_end {
                let wide: MatchSpan = (head, next.1);
                assert(out == kept.update(at, wide));
                assert(out.drop_last() =~= kept.drop_last());
                assert forall|i: int, j: int| 0 <= i < j < out.len() implies (#[trigger] out[i]).1 <= (
                #[trigger] out[j]).0 by {
                    assert(out[i] == kept[i]);
                    assert(out[j].0 == kept[j].0);
                }
                assert forall|i: int| 0 <= i < out.len() implies proper(#[trigger] out[i]) by {
                    if i < at {
                        assert(out[i] == kept[i]);
                    }
                }
                assert forall|k: int| 0 <= k < spans.len() implies (#[trigger] spans[k]).1
                    <= out.last().1 by {
                    if k < before.len() {
                        assert(before[k] == spans[k]);
                    }
                }
                assert forall|p: int, inner: bool|
                    #![trigger any_reaches(normalized(spans), p, inner)]
                    any_reaches(normalized(spans), p, inner) <==> any_reaches(spans, p, inner) by {
                    lemma_reaches_push(before, next, p, inner);
                    if any_reaches(out, p, inner) {
                        let i = choose|i: int|
                            0 <= i < out.len() && reaches(#[trigger] out[i], p, inner);
                        if i < at {
                            assert(reaches(kept[i], p, inner));
                        } else if p < last_end {
                            assert(reaches(kept[at], p, inner));
                        }
                    }
                    if any_reaches(kept, p, inner) {
                        let i = choose|i: int|
                            0 <= i < kept.len() && reaches(#[trigger] kept[i], p, inner);
                        assert(reaches(out[i], p, inner));
                    }
                    if reaches(next, p, inner) {
                        assert(reaches(out[at], p, inner));
                    }
                }
            } else {
                assert(out == kept);
                assert forall|k: int| 0 <= k < spans.len() implies (#[trigger] spans[k]).1
                    <= out.last().1 by {
                    if k < before.len() {
                        assert(before[k] == spans[k]);
                    }
                }
                assert forall|p: int, inner: bool|
                    #![trigger any_reaches(normalized(spans), p, inner)]
                    any_reaches(normalized(spans), p, inner) <==> any_reaches(spans, p, inner) by {
                    lemma_reaches_push(before, next, p, inner);
                    if reaches(next, p, inner) {
                        assert(reaches(kept[at], p, inner));
                    }
                }
            }
        }
    }
}

/// Merged spans are proper, ordered and pairwise disjoint; they cover exactly
/// the bytes that the raw spans cover, and join exactly the neighbouring bytes
/// that some raw span joins; together they are no longer than the raw spans.
pub proof fn law_merged(raw: Seq<MatchSpan>)
    requires
        all_proper(raw),
    ensures
        disjoint_ascending(merged(raw)),
        ascending_starts(merged(raw)),
        forall|p: int| #![trigger covered(merged(raw), p)] covered(merged(raw), p) <==> covered(raw, p),
        forall|p: int| #![trigger linked(merged(raw), p)] linked(merged(raw), p) <==> linked(raw, p),
        total_len(merged(raw)) <= total_len(raw),
{
    lemma_sorted_by_start(raw);
    lemma_normalized(sorted_by_start(raw));
    lemma_disjoint_is_ascending(merged(raw));
    assert forall|p: int| #![trigger covered(merged(raw), p)] covered(merged(raw), p) <==> covered(raw, p) by {
        assert(any_reaches(merged(raw), p, false) <==> any_reaches(sorted_by_start(raw), p, false));
    }
    assert forall|p: int| #![trigger linked(merged(raw), p)] linked(merged(raw), p) <==> linked(raw, p) by {
        assert(any_reaches(merged(raw), p, true) <==> any_reaches(sorted_by_start(raw), p, true));
    }
}

/// Disjoint ordered spans are ordered by start.
pub proof fn lemma_disjoint_is_ascending(spans: Seq<MatchSpan>)
    requires
        disjoint_ascending(spans),
    ensures
        ascending_starts(spans),
{
    assert forall|i: int, j: int| 0 <= i < j < spans.len() implies (#[trigger] spans[i]).0 <= (
    #[trigger] spans[j]).0 by {
        assert(proper(spans[i]));
    }
}

/// Taking one more proper span into a list of disjoint ordered spans leaves the
/// list disjoint and ordered, adds the bytes of the span to the covered bytes
/// and nothing else, and lengthens the list by no more than the span's length.
pub proof fn law_absorbed(spans: Seq<MatchSpan>, span: MatchSpan)
    requires
        disjoint_ascending(spans),
        proper(span),
    ensures
        disjoint_ascending(absorbed(spans, span)),
        forall|p: int|
            #![trigger covered(absorbed(spans, span), p)]
            covered(absorbed(spans, span), p) <==> covered(spans, p) || reaches(span, p, false),
        forall|p: int|
            #![trigger linked(absorbed(spans, span), p)]
            linked(absorbed(spans, span), p) <==> linked(spans, p) || reaches(span, p, true),
        total_len(absorbed(spans, span)) <= total_len(spans) + (span.1 - span.0),
{
    lemma_disjoint_is_ascending(spans);
    lemma_inserted(spans, span);
    lemma_normalized(inserted(spans, span));
    assert forall|p: int|
        #![trigger covered(absorbed(spans, span), p)]
        covered(absorbed(spans, span), p) <==> covered(spans, p) || reaches(span, p, false) by {
        assert(any_reaches(absorbed(spans, span), p, false) <==> any_reaches(
            inserted(spans, span),
            p,
            false,
        ));
    }
    assert forall|p: int|
        #![trigger linked(absorbed(spans, span), p)]
        linked(absorbed(spans, span), p) <==> linked(spans, p) || reaches(span, p, true) by {
        assert(any_reaches(absorbed(spans, span), p, true) <==> any_reaches(
            inserted(spans, span),
            p,
            true,
        ));
    }
}

/// Two lists of disjoint ordered spans that cover the same bytes and join the
/// same neighbouring bytes are the same list.
pub proof fn law_unique(a: Seq<MatchSpan>, b: Seq<MatchSpan>)
    requires
        disjoint_ascending(a),
        disjoint_ascending(b),
        forall|p: int| #![trigger covered(a, p)] #![trigger covered(b, p)] covered(a, p) <==> covered(b, p),
        forall|p: int| #![trigger linked(a, p)] #![trigger linked(b, p)] linked(a, p) <==> linked(b, p),
    ensures
        a == b,
    decreases a.len(),
{
    if a.len() == 0 {
        if b.len() > 0 {
            assert(proper(b[0]));
            assert(reaches(b[0], b[0].0 as int, false));
            assert(covered(b, b[0].0 as int));
            assert(covered(a, b[0].0 as int));
        }
        assert(a =~= b);
    } else {
        assert(proper(a[0]));
        assert(reaches(a[0], a[0].0 as int, false));
        assert(covered(a, a[0].0 as int));
        assert(covered(b, a[0].0 as int));
        assert(b.len() > 0);
        assert(proper(b[0]));
        lemma_first_start(a, b);
        lemma_first_start(b, a);
        lemma_first_end(a, b);
        lemma_first_end(b, a);
        assert(a[0] == b[0]);
        lemma_rest(a, b);
        lemma_rest(b, a);
        let a_rest = a.drop_first();
        let b_rest = b.drop_first();
        assert forall|p: int| #![trigger covered(a_rest, p)] #![trigger covered(b_rest, p)] covered(a_rest, p) <==> covered(b_rest, p) by {
            assert(any_reaches(a_rest, p, false) <==> any_reaches(b_rest, p, false));
        }
        assert forall|p: int| #![trigger linked(a_rest, p)] #![trigger linked(b_rest, p)] linked(a_rest, p) <==> linked(b_rest, p) by {
            assert(any_reaches(a_rest, p, true) <==> any_reaches(b_rest, p, true));
        }
        law_unique(a_rest, b_rest);
        assert(a =~= seq![a[0]] + a_rest);
        assert(b =~= seq![b[0]] + b_rest);
    }
}

/// The first span of `b` starts no later than the first span of `a`.
proof fn lemma_first_start(a: Seq<MatchSpan>, b: Seq<MatchSpan>)
    requires
        disjoint_ascending(a),
        disjoint_ascending(b),
        a.len() > 0,
        b.len() > 0,
        forall|p: int| #![trigger covered(a, p)] #![trigger covered(b, p)] covered(a, p) <==> covered(b, p),
    ensures
        b[0].0 <= a[0].0,
{
    let p = a[0].0 as int;
    assert(proper(a[0]));
    assert(reaches(a[0], p, false));
    assert(covered(a, p));
    assert(covered(b, p));
    let j = choose|j: int| 0 <= j < b.len() && reaches(#[trigger] b[j], p, false);
    lemma_disjoint_is_ascending(b);
    if j > 0 {
        assert(b[0].0 <= b[j].0);
    }
}

/// With equal first starts, the first span of `b` ends no later than the first
/// span of `a`.
proof fn lemma_first_end(a: Seq<MatchSpan>, b: Seq<MatchSpan>)
    requires
        disjoint_ascending(a),
        disjoint_ascending(b),
        a.len() > 0,
        b.len() > 0,
        a[0].0 == b[0].0,
        forall|p: int| #![trigger linked(a, p)] #![trigger linked(b, p)] linked(a, p) <==> linked(b, p),
    ensures
        b[0].1 <= a[0].1,
{
    let e = a[0].1 as int;
    assert(proper(a[0]));
    if e < b[0].1 {
        assert(reaches(b[0], e, true));
        assert(linked(b, e));
        assert(linked(a, e));
        let k = choose|k: int| 0 <= k < a.len() && reaches(#[trigger] a[k], e, true);
        if k > 0 {
            assert(a[0].1 <= a[k].0);
        }
    }
}

/// With equal first spans, what the rest of `a` reaches the rest of `b` reaches.
proof fn lemma_rest(a: Seq<MatchSpan>, b: Seq<MatchSpan>)
    requires
        disjoint_ascending(a),
        disjoint_ascending(b),
        a.len() > 0,
        b.len() > 0,
        a[0] == b[0],
        forall|p: int| #![trigger covered(a, p)] #![trigger covered(b, p)] covered(a, p) <==> covered(b, p),
        forall|p: int| #![trigger linked(a, p)] #![trigger linked(b, p)] linked(a, p) <==> linked(b, p),
    ensures
        disjoint_ascending(a.drop_first()),
        forall|p: int, inner: bool|
            #![trigger any_reaches(a.drop_first(), p, inner)]
            any_reaches(a.drop_first(), p, inner) ==> any_reaches(b.drop_first(), p, inner),
{
    let a_rest = a.drop_first();
    let b_rest = b.drop_first();
    assert forall|i: int| 0 <= i < a_rest.len() implies proper(#[trigger] a_rest[i]) by {
        assert(a_rest[i] == a[i + 1]);
    }
    assert forall|i: int, j: int| 0 <= i < j < a_rest.len() implies (#[trigger] a_rest[i]).1 <= (
    #[trigger] a_rest[j]).0 by {
        assert(a_rest[i] == a[i + 1] && a_rest[j] == a[j + 1]);
    }
    assert forall|p: int, inner: bool|
        #![trigger any_reaches(a.drop_first(), p, inner)]
        any_reaches(a.drop_first(), p, inner) implies any_reaches(b.drop_first(), p, inner) by {
        let k = choose|k: int| 0 <= k < a_rest.len() && reaches(#[trigger] a_rest[k], p, inner);
        assert(a_rest[k] == a[k + 1]);
        assert(a[0].1 <= a[k + 1].0);
        assert(reaches(a[k + 1], p, inner));
        assert(any_reaches(a, p, inner));
        if inner {
            assert(linked(a, p));
            assert(linked(b, p));
        } else {
            assert(covered(a, p));
            assert(covered(b, p));
        }
        let j = choose|j: int| 0 <= j < b.len() && reaches(#[trigger] b[j], p, inner);
        assert(j > 0);
        assert(b_rest[j - 1] == b[j]);
        assert(reaches(b_rest[j - 1], p, inner));
    }
}

/// Merging a list that is already disjoint and ordered changes nothing.
pub proof fn law_merged_keeps_disjoint(spans: Seq<MatchSpan>)
    requires
        disjoint_ascending(spans),
    ensures
        merged(spans) == spans,
{
    law_merged(spans);
    law_unique(merged(spans), spans);
}

/// Merging all raw spans at once gives what taking them in one by one gives.
pub proof fn law_merged_stepwise(raw: Seq<MatchSpan>, span: MatchSpan)
    requires
        all_proper(raw),
        proper(span),
    ensures
        merged(raw.push(span)) == absorbed(merged(raw), span),
{
    let longer = raw.push(span);
    assert forall|i: int| 0 <= i < longer.len() implies proper(#[trigger] longer[i]) by {
        if i < raw.len() {
            assert(longer[i] == raw[i]);
        }
    }
    law_merged(raw);
    law_merged(longer);
    law_absorbed(merged(raw), span);
    let a = merged(longer);
    let b = absorbed(merged(raw), span);
    assert forall|p: int| #![trigger covered(a, p)] #![trigger covered(b, p)] covered(a, p) <==> covered(b, p) by {
        lemma_reaches_push(raw, span, p, false);
        assert(covered(a, p) <==> covered(longer, p));
        assert(covered(b, p) <==> covered(merged(raw), p) || reaches(span, p, false));
        assert(covered(merged(raw), p) <==> covered(raw, p));
    }
    assert forall|p: int| #![trigger linked(a, p)] #![trigger linked(b, p)] linked(a, p) <==> linked(b, p) by {
        lemma_reaches_push(raw, span, p, true);
        assert(linked(a, p) <==> linked(longer, p));
        assert(linked(b, p) <==> linked(merged(raw), p) || reaches(span, p, true));
        assert(linked(merged(raw), p) <==> linked(raw, p));
    }
    law_unique(a, b);
}

/// The merged spans do not depend on the order in which the raw spans arrived.
pub proof fn law_merged_any_order(a: Seq<MatchSpan>, b: Seq<MatchSpan>)
    requires
        all_proper(a),
        all_proper(b),
        a.to_multiset() == b.to_multiset(),
    ensures
        merged(a) == merged(b),
{
    law_merged(a);
    law_merged(b);
    lemma_same_reach(a, b);
    lemma_same_reach(b, a);
    let x = merged(a);
    let y = merged(b);
    assert forall|p: int| #![trigger covered(x, p)] #![trigger covered(y, p)] covered(x, p) <==> covered(y, p) by {
        assert(covered(x, p) <==> covered(a, p));
        assert(covered(y, p) <==> covered(b, p));
        assert(any_reaches(a, p, false) <==> any_reaches(b, p, false));
    }
    assert forall|p: int| #![trigger linked(x, p)] #![trigger linked(y, p)] linked(x, p) <==> linked(y, p) by {
        assert(linked(x, p) <==> linked(a, p));
        assert(linked(y, p) <==> linked(b, p));
        assert(any_reaches(a, p, true) <==> any_reaches(b, p, true));
    }
    law_unique(x, y);
}

/// What a list reaches, a list of the same spans in another order reaches.
proof fn lemma_same_reach(a: Seq<MatchSpan>, b: Seq<MatchSpan>)
    requires
        a.to_multiset() == b.to_multiset(),
    ensures
        forall|p: int, inner: bool|
            #![trigger any_reaches(a, p, inner)]
            any_reaches(a, p, inner) ==> any_reaches(b, p, inner),
{
    assert forall|p: int, inner: bool|
        #![trigger any_reaches(a, p, inner)]
        any_reaches(a, p, inner) implies any_reaches(b, p, inner) by {
        let i = choose|i: int| 0 <= i < a.len() && reaches(#[trigger] a[i], p, inner);
        a.to_multiset_ensures();
        b.to_multiset_ensures();
        assert(a.contains(a[i]));
        assert(b.to_multiset().count(a[i]) > 0);
        assert(b.contains(a[i]));
        let j = choose|j: int| 0 <= j < b.len() && b[j] == a[i];
        assert(reaches(b[j], p, inner));
    }
}

/// Some span of the list starts at the offset.
pub open spec fn starts_at(spans: Seq<MatchSpan>, at: int) -> bool {
    exists|i: int| 0 <= i < spans.len() && (#[trigger] spans[i]).0 == at
}

/// Some span of the list ends at the offset.
pub open spec fn ends_at(spans: Seq<MatchSpan>, at: int) -> bool {
    exists|i: int| 0 <= i < spans.len() && (#[trigger] spans[i]).1 == at
}

proof fn lemma_sorted_members(raw: Seq<MatchSpan>, k: int)
    requires
        0 <= k < sorted_by_start(raw).len(),
    ensures
        exists|i: int| 0 <= i < raw.len() && #[trigger] raw[i] == sorted_by_start(raw)[k],
        sorted_by_start(raw).len() == raw.len(),
    decreases raw.len(),
{
    if raw.len() > 0 {
        let before = raw.drop_last();
        let sorted = sorted_by_start(before);
        lemma_sorted_len(before);
        lemma_slot(sorted, raw.last());
        let at = slot(sorted, raw.last());
        if k == at {
            assert(raw[raw.len() - 1] == sorted_by_start(raw)[k]);
        } else {
            let m = if k < at { k } else { k - 1 };
            assert(sorted_by_start(raw)[k] == sorted[m]);
            lemma_sorted_members(before, m);
            let i = choose|i: int| 0 <= i < before.len() && #[trigger] before[i] == sorted[m];
            assert(raw[i] == before[i]);
        }
    }
}

proof fn lemma_sorted_len(raw: Seq<MatchSpan>)
    ensures
        sorted_by_start(raw).len() == raw.len(),
    decreases raw.len(),
{
    if raw.len() > 0 {
        lemma_sorted_len(raw.drop_last());
        lemma_slot(sorted_by_start(raw.drop_last()), raw.last());
    }
}

proof fn lemma_normalized_endpoints(spans: Seq<MatchSpan>, k: int)
    requires
        0 <= k < normalized(spans).len(),
    ensures
        starts_at(spans, normalized(spans)[k].0 as int),
        ends_at(spans, normalized(spans)[k].1 as int),
    decreases spans.len(),
{
    if spans.len() > 0 {
        let before = spans.drop_last();
        let next = spans.last();
        let kept = normalized(before);
        let out = normalized(spans);
        assert(spans[spans.len() - 1] == next);
        if k < kept.len() {
            lemma_normalized_endpoints(before, k);
            let i = choose|i: int| 0 <= i < before.len() && (#[trigger] before[i]).0 == kept[k].0;
            assert(spans[i] == before[i]);
            let j = choose|j: int| 0 <= j < before.len() && (#[trigger] before[j]).1 == kept[k].1;
            assert(spans[j] == before[j]);
            assert(out[k].0 == kept[k].0);
            assert(out[k].1 == kept[k].1 || out[k].1 == next.1);
        }
    }
}

/// Every merged span starts where a raw span starts and ends where a raw span
/// ends.
pub proof fn law_merged_endpoints(raw: Seq<MatchSpan>, k: int)
    requires
        0 <= k < merged(raw).len(),
    ensures
        starts_at(raw, merged(raw)[k].0 as int),
        ends_at(raw, merged(raw)[k].1 as int),
{
    let sorted = sorted_by_start(raw);
    lemma_normalized_endpoints(sorted, k);
    let i = choose|i: int| 0 <= i < sorted.len() && (#[trigger] sorted[i]).0 == merged(raw)[k].0;
    lemma_sorted_members(raw, i);
    let a = choose|a: int| 0 <= a < raw.len() && #[trigger] raw[a] == sorted[i];
    assert(raw[a].0 == merged(raw)[k].0);
    let j = choose|j: int| 0 <= j < sorted.len() && (#[trigger] sorted[j]).1 == merged(raw)[k].1;
    lemma_sorted_members(raw, j);
    let b = choose|b: int| 0 <= b < raw.len() && #[trigger] raw[b] == sorted[j];
    assert(raw[b].1 == merged(raw)[k].1);
}

/// Raw spans, if there are any, merge into at least one span.
pub proof fn law_merged_some(raw: Seq<MatchSpan>)
    requires
        raw.len() > 0,
    ensures
        merged(raw).len() > 0,
{
    lemma_sorted_len(raw);
    lemma_normalized_some(sorted_by_start(raw));
}

proof fn lemma_normalized_some(spans: Seq<MatchSpan>)
    requires
        spans.len() > 0,
    ensures
        normalized(spans).len() > 0,
    decreases spans.len(),
{
    if spans.len() > 1 {
        lemma_normalized_some(spans.drop_last());
    }
}

} // verus!
