//! Listings of names: the names in ascending order of their bytes, with a
//! comma and a blank between them.

use vstd::prelude::*;
use vstd::string::StringExecFns;
use crate::channels::names;
use crate::text::bytes_of;

verus! {

/// The first text comes before the second, or is the second, in the order of
/// their bytes: at the first byte in which they differ the first text has the
/// smaller one, or the first text is where the second begins.
pub open spec fn comes_before(a: Seq<u8>, b: Seq<u8>) -> bool
    decreases a.len(),
{
    if a.len() == 0 {
        true
    } else if b.len() == 0 {
        false
    } else if a[0] != b[0] {
        a[0] < b[0]
    } else {
        comes_before(a.drop_first(), b.drop_first())
    }
}

/// Where a name goes in a list in ascending order: before the first name that
/// comes after it, or at the end.
pub open spec fn seat(list: Seq<Seq<char>>, name: Seq<char>) -> int
    decreases list.len(),
{
    if list.len() == 0 {
        0
    } else if !comes_before(bytes_of(list[0]), bytes_of(name)) {
        0
    } else {
        1 + seat(list.drop_first(), name)
    }
}

/// The names in ascending order of their bytes.
pub open spec fn in_order(list: Seq<Seq<char>>) -> Seq<Seq<char>>
    decreases list.len(),
{
    if list.len() == 0 {
        Seq::empty()
    } else {
        let before = in_order(list.drop_last());
        before.insert(seat(before, list.last()), list.last())
    }
}

/// The list never goes back in the order of the bytes.
pub open spec fn is_in_order(list: Seq<Seq<char>>) -> bool {
    forall|i: int, j: int|
        0 <= i < j < list.len() ==> comes_before(bytes_of(list[i]), bytes_of(list[j]))
}

/// The names one after the other, with a comma and a blank between each two.
pub open spec fn joined(list: Seq<Seq<char>>) -> Seq<char>
    decreases list.len(),
{
    if list.len() == 0 {
        Seq::empty()
    } else if list.len() == 1 {
        list[0]
    } else {
        joined(list.drop_last()) + ", "@ + list.last()
    }
}

/// Whether the first text comes before the second, or is the second, in the
/// order of their bytes.
pub fn precedes(a: &str, b: &str) -> (yes: bool)
    ensures
        yes == comes_before(bytes_of(a@), bytes_of(b@)),
{
    let x = a.as_bytes();
    let y = b.as_bytes();
    let mut i: usize = 0;
    proof {
        assert(x@.skip(0) =~= x@);
        assert(y@.skip(0) =~= y@);
    }
    while i < x.len() && i < y.len() && x[i] == y[i]
        invariant
            i <= x.len(),
            i <= y.len(),
            x@ == bytes_of(a@),
            y@ == bytes_of(b@),
            comes_before(x@, y@) == comes_before(x@.skip(i as int), y@.skip(i as int)),
        decreases x.len() - i,
    {
        proof {
            assert(x@.skip(i as int).drop_first() =~= x@.skip(i + 1));
            assert(y@.skip(i as int).drop_first() =~= y@.skip(i + 1));
        }
        i += 1;
    }
    if i >= x.len() {
        true
    } else if i >= y.len() {
        false
    } else {
        x[i] < y[i]
    }
}

fn insert_name(sorted: &mut Vec<String>, name: &str)
    ensures
        names(final(sorted)@) == names(old(sorted)@).insert(seat(names(old(sorted)@), name@), name@),
{
    let mut i: usize = 0;
    proof {
        assert(names(sorted@).skip(0) =~= names(sorted@));
    }
    while i < sorted.len() && precedes(sorted[i].as_str(), name)
        invariant
            i <= sorted.len(),
            *sorted == *old(sorted),
            seat(names(sorted@), name@) == i + seat(names(sorted@).skip(i as int), name@),
        decreases sorted.len() - i,
    {
        proof {
            assert(names(sorted@).skip(i as int).drop_first() =~= names(sorted@).skip(i as int + 1));
        }
        i += 1;
    }
    sorted.insert(i, name.to_owned());
    proof {
        assert(names(sorted@) =~= names(old(sorted)@).insert(i as int, name@));
    }
}

/// Puts names in ascending order of their bytes.
pub fn sort_names(list: &Vec<String>) -> (sorted: Vec<String>)
    ensures
        names(sorted@) == in_order(names(list@)),
{
    let mut sorted: Vec<String> = Vec::new();
    let mut i: usize = 0;
    proof {
        assert(names(sorted@) =~= in_order(names(list@).take(0)));
    }
    while i < list.len()
        invariant
            i <= list.len(),
            names(sorted@) == in_order(names(list@).take(i as int)),
        decreases list.len() - i,
    {
        proof {
            assert(names(list@).take(i + 1).drop_last() =~= names(list@).take(i as int));
        }
        insert_name(&mut sorted, list[i].as_str());
        i += 1;
    }
    proof {
        assert(names(list@).take(list@.len() as int) =~= names(list@));
    }
    sorted
}

/// Writes a listing of the names: the names in ascending order of their bytes,
/// with a comma and a blank between each two.
pub fn listing(list: &Vec<String>) -> (text: String)
    ensures
        text@ == joined(in_order(names(list@))),
{
    let sorted = sort_names(list);
    let mut text = String::new();
    let mut i: usize = 0;
    proof {
        assert(names(sorted@).take(0) =~= Seq::<Seq<char>>::empty());
    }
    while i < sorted.len()
        invariant
            i <= sorted.len(),
            text@ == joined(names(sorted@).take(i as int)),
        decreases sorted.len() - i,
    {
        proof {
            assert(names(sorted@).take(i + 1).drop_last() =~= names(sorted@).take(i as int));
        }
        let ghost before = text@;
        if i > 0 {
            text.append(", ");
        }
        text.append(sorted[i].as_str());
        proof {
            if i == 0 {
                assert(before =~= Seq::<char>::empty());
                assert(text@ =~= names(sorted@)[0]);
            }
        }
        i += 1;
    }
    proof {
        assert(names(sorted@).take(sorted@.len() as int) =~= names(sorted@));
    }
    text
}

/// Of two texts one comes before the other, or they are the same.
pub proof fn lemma_comes_before_total(a: Seq<u8>, b: Seq<u8>)
    ensures
        comes_before(a, b) || comes_before(b, a),
    decreases a.len(),
{
    if a.len() > 0 && b.len() > 0 && a[0] == b[0] {
        lemma_comes_before_total(a.drop_first(), b.drop_first());
    }
}

/// What comes before a text comes before every text that the text comes before.
pub proof fn lemma_comes_before_chain(a: Seq<u8>, b: Seq<u8>, c: Seq<u8>)
    requires
        comes_before(a, b),
        comes_before(b, c),
    ensures
        comes_before(a, c),
    decreases a.len(),
{
    if a.len() > 0 && b.len() > 0 && c.len() > 0 && a[0] == b[0] && b[0] == c[0] {
        lemma_comes_before_chain(a.drop_first(), b.drop_first(), c.drop_first());
    }
}

proof fn lemma_seat(list: Seq<Seq<char>>, name: Seq<char>)
    ensures
        0 <= seat(list, name) <= list.len(),
        forall|i: int|
            0 <= i < seat(list, name) ==> comes_before(bytes_of(#[trigger] list[i]), bytes_of(name)),
        seat(list, name) < list.len() ==> !comes_before(
            bytes_of(list[seat(list, name)]),
            bytes_of(name),
        ),
    decreases list.len(),
{
    if list.len() > 0 && comes_before(bytes_of(list[0]), bytes_of(name)) {
        let rest = list.drop_first();
        lemma_seat(rest, name);
        assert forall|i: int| 0 <= i < seat(list, name) implies comes_before(
            bytes_of(#[trigger] list[i]),
            bytes_of(name),
        ) by {
            if i > 0 {
                assert(rest[i - 1] == list[i]);
            }
        }
        if seat(list, name) < list.len() {
            assert(rest[seat(rest, name)] == list[seat(list, name)]);
        }
    }
}

/// The names in order never go back in the order of the bytes, and are the same
/// names, each as often as before.
pub proof fn law_in_order(list: Seq<Seq<char>>)
    ensures
        is_in_order(in_order(list)),
        in_order(list).to_multiset() == list.to_multiset(),
        in_order(list).len() == list.len(),
    decreases list.len(),
{
    if list.len() > 0 {
        let before = in_order(list.drop_last());
        let last = list.last();
        let at = seat(before, last);
        law_in_order(list.drop_last());
        lemma_seat(before, last);
        let out = in_order(list);
        assert forall|i: int, j: int| 0 <= i < j < out.len() implies comes_before(
            bytes_of(out[i]),
            bytes_of(out[j]),
        ) by {
            if j == at {
                assert(out[i] == before[i]);
            } else if i == at {
                assert(out[j] == before[j - 1]);
                lemma_comes_before_total(bytes_of(before[at]), bytes_of(last));
                if at < j - 1 {
                    assert(comes_before(bytes_of(before[at]), bytes_of(before[j - 1])));
                    lemma_comes_before_chain(
                        bytes_of(last),
                        bytes_of(before[at]),
                        bytes_of(before[j - 1]),
                    );
                }
            } else {
                let a = if i < at { i } else { i - 1 };
                let b = if j < at { j } else { j - 1 };
                assert(out[i] == before[a]);
                assert(out[j] == before[b]);
            }
        }
        assert(list =~= list.drop_last().push(last));
        vstd::seq_lib::to_multiset_insert(before, at, last);
        vstd::seq_lib::to_multiset_build(list.drop_last(), last);
    } else {
        assert(in_order(list) =~= list);
    }
}

} // verus!
