//! Lists of channel names in which no name stands twice.

use vstd::prelude::*;
use crate::text::same_text;

verus! {

/// The names that a list of strings holds.
pub open spec fn names(channels: Seq<String>) -> Seq<Seq<char>> {
    Seq::new(channels.len(), |i: int| channels[i]@)
}

/// The list with `name` at its end, unless the list holds it already.
pub open spec fn joined(list: Seq<Seq<char>>, name: Seq<char>) -> Seq<Seq<char>> {
    if list.contains(name) {
        list
    } else {
        list.push(name)
    }
}

/// The list without `name`.
pub open spec fn parted(list: Seq<Seq<char>>, name: Seq<char>) -> Seq<Seq<char>> {
    list.filter(|other: Seq<char>| other != name)
}

/// The names of the list, each once, in the order in which they first stand.
pub open spec fn distinct(list: Seq<Seq<char>>) -> Seq<Seq<char>>
    decreases list.len(),
{
    if list.len() == 0 {
        Seq::empty()
    } else {
        joined(distinct(list.drop_last()), list.last())
    }
}

/// Whether the list holds `name`.
pub fn holds(channels: &Vec<String>, name: &str) -> (yes: bool)
    ensures
        yes == names(channels@).contains(name@),
{
    let mut i: usize = 0;
    while i < channels.len()
        invariant
            i <= channels.len(),
            forall|k: int| 0 <= k < i ==> names(channels@)[k] != name@,
        decreases channels.len() - i,
    {
        if same_text(channels[i].as_str(), name) {
            proof {
                assert(names(channels@)[i as int] == name@);
            }
            return true;
        }
        i += 1;
    }
    false
}

/// A copy of the list.
pub fn clone_names(channels: &Vec<String>) -> (copy: Vec<String>)
    ensures
        names(copy@) == names(channels@),
{
    let mut copy: Vec<String> = Vec::new();
    let mut i: usize = 0;
    while i < channels.len()
        invariant
            i <= channels.len(),
            copy@.len() == i,
            forall|k: int| 0 <= k < i ==> (#[trigger] copy@[k])@ == channels@[k]@,
        decreases channels.len() - i,
    {
        copy.push(channels[i].clone());
        i += 1;
    }
    proof {
        assert(names(copy@) =~= names(channels@));
    }
    copy
}

/// Puts `name` at the end of the list, unless the list holds it already.
pub fn add_name(channels: &mut Vec<String>, name: &str)
    ensures
        names(final(channels)@) == joined(names(old(channels)@), name@),
{
    if !holds(channels, name) {
        channels.push(name.to_owned());
        proof {
            assert(names(channels@) =~= names(old(channels)@).push(name@));
        }
    }
}

/// Takes `name` out of the list.
pub fn remove_name(channels: &mut Vec<String>, name: &str)
    ensures
        names(final(channels)@) == parted(names(old(channels)@), name@),
{
    let mut kept: Vec<String> = Vec::new();
    let mut i: usize = 0;
    while i < channels.len()
        invariant
            i <= channels.len(),
            *channels == *old(channels),
            names(kept@) == parted(names(channels@).take(i as int), name@),
        decreases channels.len() - i,
    {
        proof {
            reveal(Seq::filter);
            assert(names(channels@).take(i + 1).drop_last() =~= names(channels@).take(i as int));
        }
        if !same_text(channels[i].as_str(), name) {
            let ghost before = kept@;
            kept.push(channels[i].clone());
            proof {
                let target = names(before).push(names(channels@)[i as int]);
                assert(names(before).len() == before.len());
                assert forall|k: int| 0 <= k < kept@.len() implies names(kept@)[k] == target[k] by {
                    if k < before.len() {
                        assert(kept@[k] == before[k]);
                        assert(names(before)[k] == before[k]@);
                    }
                }
                assert(names(kept@) =~= target);
            }
        }
        i += 1;
    }
    proof {
        assert(names(channels@).take(channels@.len() as int) =~= names(channels@));
    }
    *channels = kept;
}

/// The names of the list, each once, in the order in which they first stand.
pub fn distinct_names(channels: &Vec<String>) -> (kept: Vec<String>)
    ensures
        names(kept@) == distinct(names(channels@)),
{
    let mut kept: Vec<String> = Vec::new();
    let mut i: usize = 0;
    proof {
        assert(names(kept@) =~= distinct(names(channels@).take(0)));
    }
    while i < channels.len()
        invariant
            i <= channels.len(),
            names(kept@) == distinct(names(channels@).take(i as int)),
        decreases channels.len() - i,
    {
        proof {
            assert(names(channels@).take(i + 1).drop_last() =~= names(channels@).take(i as int));
        }
        add_name(&mut kept, channels[i].as_str());
        i += 1;
    }
    proof {
        assert(names(channels@).take(channels@.len() as int) =~= names(channels@));
    }
    kept
}

/// Adding a name to a list without repetitions leaves it without repetitions,
/// and the list then holds the name.
pub proof fn lemma_joined(list: Seq<Seq<char>>, name: Seq<char>)
    requires
        list.no_duplicates(),
    ensures
        joined(list, name).no_duplicates(),
        joined(list, name).contains(name),
        forall|other: Seq<char>| #[trigger]
            joined(list, name).contains(other) <==> list.contains(other) || other == name,
{
    let longer = joined(list, name);
    if !list.contains(name) {
        assert(longer[list.len() as int] == name);
        assert forall|other: Seq<char>| #[trigger]
            longer.contains(other) <==> list.contains(other) || other == name by {
            if list.contains(other) {
                let i = choose|i: int| 0 <= i < list.len() && list[i] == other;
                assert(longer[i] == other);
            }
            if longer.contains(other) {
                let i = choose|i: int| 0 <= i < longer.len() && longer[i] == other;
                if i < list.len() {
                    assert(list[i] == other);
                }
            }
        }
    }
}

/// Taking a name out of a list without repetitions leaves it without
/// repetitions, and the list then holds every other name that it held, and not
/// the name.
pub proof fn lemma_parted(list: Seq<Seq<char>>, name: Seq<char>)
    requires
        list.no_duplicates(),
    ensures
        parted(list, name).no_duplicates(),
        forall|other: Seq<char>| #[trigger]
            parted(list, name).contains(other) <==> list.contains(other) && other != name,
    decreases list.len(),
{
    reveal(Seq::filter);
    if list.len() > 0 {
        let before = list.drop_last();
        let last = list.last();
        assert forall|i: int, j: int|
            0 <= i < before.len() && 0 <= j < before.len() && i != j implies before[i]
            != before[j] by {
            assert(before[i] == list[i] && before[j] == list[j]);
        }
        lemma_parted(before, name);
        let out = parted(list, name);
        let kept = parted(before, name);
        assert forall|other: Seq<char>| #[trigger]
            out.contains(other) <==> list.contains(other) && other != name by {
            if out.contains(other) {
                let i = choose|i: int| 0 <= i < out.len() && out[i] == other;
                if i < kept.len() {
                    assert(kept[i] == other);
                    assert(kept.contains(other));
                    let j = choose|j: int| 0 <= j < before.len() && before[j] == other;
                    assert(list[j] == other);
                } else {
                    assert(list[list.len() - 1] == other);
                }
            }
            if list.contains(other) && other != name {
                let j = choose|j: int| 0 <= j < list.len() && list[j] == other;
                if j < before.len() {
                    assert(before[j] == other);
                    assert(before.contains(other));
                    assert(kept.contains(other));
                    let i = choose|i: int| 0 <= i < kept.len() && kept[i] == other;
                    assert(out[i] == other);
                } else {
                    assert(out[out.len() - 1] == other);
                }
            }
        }
        if last != name {
            assert forall|i: int, j: int|
                0 <= i < out.len() && 0 <= j < out.len() && i != j implies out[i] != out[j] by {
                if i < kept.len() && j < kept.len() {
                    assert(out[i] == kept[i] && out[j] == kept[j]);
                } else {
                    let k = if i < kept.len() { i } else { j };
                    assert(out[k] == kept[k]);
                    assert(kept.contains(kept[k]));
                    assert(before.contains(kept[k]));
                    let m = choose|m: int| 0 <= m < before.len() && before[m] == kept[k];
                    assert(list[m] == kept[k]);
                    assert(list[list.len() - 1] == last);
                }
            }
        }
    }
}

/// The distinct names of a list are without repetitions and are the names that
/// the list holds.
pub proof fn lemma_distinct(list: Seq<Seq<char>>)
    ensures
        distinct(list).no_duplicates(),
        forall|name: Seq<char>| #[trigger] distinct(list).contains(name) <==> list.contains(name),
        list.no_duplicates() ==> distinct(list) == list,
    decreases list.len(),
{
    if list.len() > 0 {
        let before = list.drop_last();
        lemma_distinct(before);
        lemma_joined(distinct(before), list.last());
        assert forall|name: Seq<char>| #[trigger]
            distinct(list).contains(name) <==> list.contains(name) by {
            if before.contains(name) {
                let i = choose|i: int| 0 <= i < before.len() && before[i] == name;
                assert(list[i] == name);
            }
            if list.contains(name) {
                let i = choose|i: int| 0 <= i < list.len() && list[i] == name;
                if i < before.len() {
                    assert(before[i] == name);
                }
            }
            assert(list[list.len() - 1] == list.last());
        }
        if list.no_duplicates() {
            assert forall|i: int, j: int|
                0 <= i < before.len() && 0 <= j < before.len() && i != j implies before[i]
                != before[j] by {
                assert(before[i] == list[i] && before[j] == list[j]);
            }
            if before.contains(list.last()) {
                let i = choose|i: int| 0 <= i < before.len() && before[i] == list.last();
                assert(list[i] == list[list.len() - 1]);
            }
            assert(distinct(list) =~= list);
        }
    }
}

} // verus!
