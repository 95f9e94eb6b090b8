//! The rules behind the commands with which recipients register triggers: how a
//! pattern is stored, how the triggers of a recipient are listed, and which
//! trigger a position of the listing means.

use vstd::prelude::*;
use vstd::string::StringExecFns;
use crate::markup::IntoEmoji;
use crate::records::TriggerRecordNoDiscord;
use crate::text::{decimal, lowercase_of, push_decimal};

verus! {

/// The pattern as the store keeps it: as it is where case counts, in lower case
/// where it does not.
pub open spec fn stored_form(pattern: Seq<char>, case_sensitive: bool) -> Seq<char> {
    if case_sensitive {
        pattern
    } else {
        lowercase_of(pattern)
    }
}

/// Brings a pattern into the form in which the store keeps it.
pub fn stored_trigger(pattern: &str, case_sensitive: bool) -> (stored: String)
    ensures
        stored@ == stored_form(pattern@, case_sensitive),
{
    if case_sensitive {
        String::from_str(pattern)
    } else {
        pattern.to_lowercase()
    }
}

/// Brings the name of a channel or of an author into the form in which the
/// store keeps it: lower case.
pub fn stored_name(name: &str) -> (stored: String)
    ensures
        stored@ == lowercase_of(name@),
{
    name.to_lowercase()
}

/// One line of the help: the command with the prefix before it, and what the
/// command does.
pub open spec fn help_entry(prefix: Seq<char>, command: Seq<char>, does: Seq<char>) -> Seq<char> {
    "`"@ + prefix + command + "`\t - \t"@ + does + "\n"@
}

/// Writes one line of the help.
pub fn help_line(prefix: &str, command: &str, does: &str) -> (line: String)
    ensures
        line@ == help_entry(prefix@, command@, does@),
{
    let mut line = String::from_str("`");
    line.append(prefix);
    line.append(command);
    line.append("`\t - \t");
    line.append(does);
    line.append("\n");
    line
}

/// Where an identifier goes in a list in ascending order: before the first
/// identifier that is greater, or at the end.
pub open spec fn place(ids: Seq<i64>, id: i64) -> int
    decreases ids.len(),
{
    if ids.len() == 0 {
        0
    } else if id < ids[0] {
        0
    } else {
        1 + place(ids.drop_first(), id)
    }
}

/// The identifiers in ascending order.
pub open spec fn ascending(ids: Seq<i64>) -> Seq<i64>
    decreases ids.len(),
{
    if ids.len() == 0 {
        Seq::empty()
    } else {
        let before = ascending(ids.drop_last());
        before.insert(place(before, ids.last()), ids.last())
    }
}

/// The list never decreases.
pub open spec fn is_ascending(ids: Seq<i64>) -> bool {
    forall|i: int, j: int| 0 <= i < j < ids.len() ==> ids[i] <= ids[j]
}

fn insert_ascending(ids: &mut Vec<i64>, id: i64)
    ensures
        final(ids)@ == old(ids)@.insert(place(old(ids)@, id), id),
{
    let mut i: usize = 0;
    proof {
        assert(ids@.skip(0) =~= ids@);
    }
    while i < ids.len() && id >= ids[i]
        invariant
            i <= ids.len(),
            *ids == *old(ids),
            place(ids@, id) == i + place(ids@.skip(i as int), id),
        decreases ids.len() - i,
    {
        proof {
            assert(ids@.skip(i as int).drop_first() =~= ids@.skip(i as int + 1));
        }
        i += 1;
    }
    ids.insert(i, id);
}

/// Puts identifiers in ascending order.
pub fn sort_ids(ids: &Vec<i64>) -> (sorted: Vec<i64>)
    ensures
        sorted@ == ascending(ids@),
{
    let mut sorted: Vec<i64> = Vec::new();
    let mut i: usize = 0;
    while i < ids.len()
        invariant
            i <= ids.len(),
            sorted@ == ascending(ids@.take(i as int)),
        decreases ids.len() - i,
    {
        proof {
            assert(ids@.take(i + 1).drop_last() =~= ids@.take(i as int));
        }
        insert_ascending(&mut sorted, ids[i]);
        i += 1;
    }
    proof {
        assert(ids@.take(ids@.len() as int) =~= ids@);
    }
    sorted
}

proof fn lemma_place(ids: Seq<i64>, id: i64)
    ensures
        0 <= place(ids, id) <= ids.len(),
        forall|i: int| 0 <= i < place(ids, id) ==> ids[i] <= id,
        place(ids, id) < ids.len() ==> id < ids[place(ids, id)],
    decreases ids.len(),
{
    if ids.len() > 0 && id >= ids[0] {
        let rest = ids.drop_first();
        lemma_place(rest, id);
        assert forall|i: int| 0 <= i < place(ids, id) implies ids[i] <= id by {
            if i > 0 {
                assert(rest[i - 1] == ids[i]);
            }
        }
        if place(ids, id) < ids.len() {
            assert(rest[place(rest, id)] == ids[place(ids, id)]);
        }
    }
}

/// The identifiers in ascending order never decrease, and are the same
/// identifiers, each as often as before.
pub proof fn law_ascending(ids: Seq<i64>)
    ensures
        is_ascending(ascending(ids)),
        ascending(ids).to_multiset() == ids.to_multiset(),
        ascending(ids).len() == ids.len(),
    decreases ids.len(),
{
    if ids.len() > 0 {
        let before = ascending(ids.drop_last());
        let last = ids.last();
        let at = place(before, last);
        law_ascending(ids.drop_last());
        lemma_place(before, last);
        let out = ascending(ids);
        assert forall|i: int, j: int| 0 <= i < j < out.len() implies out[i] <= out[j] by {
            if j == at {
                assert(out[i] == before[i]);
            } else if i == at {
                assert(out[j] == before[j - 1]);
                if at < j - 1 {
                    assert(before[at] <= before[j - 1]);
                }
            } else {
                let a = if i < at { i } else { i - 1 };
                let b = if j < at { j } else { j - 1 };
                assert(out[i] == before[a]);
                assert(out[j] == before[b]);
            }
        }
        assert(ids =~= ids.drop_last().push(last));
        vstd::seq_lib::to_multiset_insert(before, at, last);
        vstd::seq_lib::to_multiset_build(ids.drop_last(), last);
    } else {
        assert(ascending(ids) =~= ids);
    }
}

/// The position is one of the listing: the listing counts from one.
pub open spec fn listed(count: nat, position: i64) -> bool {
    1 <= position <= count
}

/// The first position that is none of the listing, if there is one.
pub open spec fn first_unlisted(count: nat, positions: Seq<i64>) -> Option<i64>
    decreases positions.len(),
{
    if positions.len() == 0 {
        None
    } else if !listed(count, positions[0]) {
        Some(positions[0])
    } else {
        first_unlisted(count, positions.drop_first())
    }
}

/// Says which triggers the positions of a listing mean.
///
/// `ids` are the identifiers of the recipient's triggers. The listing shows
/// them in ascending order and counts from one. Where every position is one of
/// the listing, the result holds for each position the identifier that the
/// listing shows there. Else the result is the first position that is none of
/// the listing, and no trigger is meant.
pub fn resolve_positions(ids: &Vec<i64>, positions: &Vec<i64>) -> (meant: Result<Vec<i64>, i64>)
    ensures
        match meant {
            Ok(found) => first_unlisted(ids@.len(), positions@) is None && found@.len()
                == positions@.len() && forall|k: int|
                0 <= k < found@.len() ==> #[trigger] found@[k] == ascending(ids@)[positions@[k] - 1],
            Err(position) => first_unlisted(ids@.len(), positions@) == Some(position),
        },
{
    let sorted = sort_ids(ids);
    proof {
        law_ascending(ids@);
        assert(positions@.skip(0) =~= positions@);
    }
    let mut found: Vec<i64> = Vec::new();
    let mut k: usize = 0;
    while k < positions.len()
        invariant
            k <= positions.len(),
            sorted@ == ascending(ids@),
            sorted@.len() == ids@.len(),
            found@.len() == k,
            first_unlisted(ids@.len(), positions@) == first_unlisted(
                ids@.len(),
                positions@.skip(k as int),
            ),
            forall|m: int|
                0 <= m < k ==> #[trigger] found@[m] == ascending(ids@)[positions@[m] - 1],
        decreases positions.len() - k,
    {
        let position = positions[k];
        proof {
            assert(positions@.skip(k as int)[0] == position);
            assert(positions@.skip(k as int).drop_first() =~= positions@.skip(k + 1));
        }
        if position < 1 || position as u64 > sorted.len() as u64 {
            return Err(position);
        }
        found.push(sorted[(position - 1) as usize]);
        k += 1;
    }
    Ok(found)
}

/// One line of a listing: the position, the pattern and the two settings.
pub open spec fn listing_line(position: nat, row: TriggerRecordNoDiscord) -> Seq<char> {
    "**ID "@ + decimal(position) + "**: `"@ + row.trigger@ + "` (case_sensitive: "@ + mark(
        row.case_sensitive,
    ) + ", regex: "@ + mark(row.regex) + ")\n"@
}

/// The mark for yes or no.
pub open spec fn mark(yes: bool) -> Seq<char> {
    if yes {
        "✅"@
    } else {
        "❌"@
    }
}

/// The lines of the rows, the first at position one.
pub open spec fn listing(rows: Seq<TriggerRecordNoDiscord>) -> Seq<char>
    decreases rows.len(),
{
    if rows.len() == 0 {
        Seq::empty()
    } else {
        listing(rows.drop_last()) + listing_line(rows.len(), rows.last())
    }
}

/// The identifiers of the rows, in the order of the rows.
pub open spec fn ids_of(rows: Seq<TriggerRecordNoDiscord>) -> Seq<i64> {
    Seq::new(rows.len(), |i: int| rows[i].id)
}

/// The rows in ascending order of their identifiers.
pub open spec fn by_id(rows: Seq<TriggerRecordNoDiscord>) -> Seq<TriggerRecordNoDiscord>
    decreases rows.len(),
{
    if rows.len() == 0 {
        Seq::empty()
    } else {
        let before = by_id(rows.drop_last());
        before.insert(place(ids_of(before), rows.last().id), rows.last())
    }
}

fn insert_row(rows: &mut Vec<TriggerRecordNoDiscord>, row: &TriggerRecordNoDiscord)
    ensures
        final(rows)@ == old(rows)@.insert(place(ids_of(old(rows)@), row.id), *row),
{
    let mut i: usize = 0;
    proof {
        assert(ids_of(rows@).skip(0) =~= ids_of(rows@));
    }
    while i < rows.len() && row.id >= rows[i].id
        invariant
            i <= rows.len(),
            *rows == *old(rows),
            place(ids_of(rows@), row.id) == i + place(ids_of(rows@).skip(i as int), row.id),
        decreases rows.len() - i,
    {
        proof {
            assert(ids_of(rows@).skip(i as int).drop_first() =~= ids_of(rows@).skip(i as int + 1));
        }
        i += 1;
    }
    rows.insert(
        i,
        TriggerRecordNoDiscord {
            id: row.id,
            trigger: row.trigger.clone(),
            case_sensitive: row.case_sensitive,
            regex: row.regex,
        },
    );
}

/// Puts rows in ascending order of their identifiers.
pub fn sort_rows(rows: &Vec<TriggerRecordNoDiscord>) -> (sorted: Vec<TriggerRecordNoDiscord>)
    ensures
        sorted@ == by_id(rows@),
{
    let mut sorted: Vec<TriggerRecordNoDiscord> = Vec::new();
    let mut i: usize = 0;
    while i < rows.len()
        invariant
            i <= rows.len(),
            sorted@ == by_id(rows@.take(i as int)),
        decreases rows.len() - i,
    {
        proof {
            assert(rows@.take(i + 1).drop_last() =~= rows@.take(i as int));
        }
        insert_row(&mut sorted, &rows[i]);
        i += 1;
    }
    proof {
        assert(rows@.take(rows@.len() as int) =~= rows@);
    }
    sorted
}

/// The listing shows at each position the trigger that the position means:
/// the identifiers of the rows in the order of the listing are the identifiers
/// in ascending order.
pub proof fn law_listing_order(rows: Seq<TriggerRecordNoDiscord>)
    ensures
        ids_of(by_id(rows)) == ascending(ids_of(rows)),
    decreases rows.len(),
{
    if rows.len() > 0 {
        let before = by_id(rows.drop_last());
        law_listing_order(rows.drop_last());
        law_ascending(ids_of(rows.drop_last()));
        lemma_place(ids_of(before), rows.last().id);
        assert(ids_of(rows).drop_last() =~= ids_of(rows.drop_last()));
        assert(ids_of(rows).last() == rows.last().id);
        assert(ids_of(by_id(rows)) =~= ids_of(before).insert(
            place(ids_of(before), rows.last().id),
            rows.last().id,
        ));
    } else {
        assert(ids_of(by_id(rows)) =~= ascending(ids_of(rows)));
    }
}

/// Writes the listing of a recipient's triggers: one line for each trigger, in
/// ascending order of the identifiers, the positions counted from one.
pub fn trigger_listing(rows: &Vec<TriggerRecordNoDiscord>) -> (text: String)
    ensures
        text@ == listing(by_id(rows@)),
{
    let sorted = sort_rows(rows);
    let mut text = String::new();
    let mut i: usize = 0;
    while i < sorted.len()
        invariant
            i <= sorted.len(),
            text@ == listing(sorted@.take(i as int)),
        decreases sorted.len() - i,
    {
        proof {
            assert(sorted@.take(i + 1).drop_last() =~= sorted@.take(i as int));
        }
        let row = &sorted[i];
        let ghost before = text@;
        text.append("**ID ");
        push_decimal(&mut text, (i + 1) as u64);
        text.append("**: `");
        text.append(row.trigger.as_str());
        text.append("` (case_sensitive: ");
        text.append(row.case_sensitive.emoji().as_str());
        text.append(", regex: ");
        text.append(row.regex.emoji().as_str());
        text.append(")\n");
        proof {
            assert(text@ =~= before + listing_line((i + 1) as nat, *row));
        }
        i += 1;
    }
    proof {
        assert(sorted@.take(sorted@.len() as int) =~= sorted@);
    }
    text
}

} // verus!
