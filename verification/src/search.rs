//! Finding a plain pattern in the bytes of a text.

use vstd::prelude::*;
use vstd::utf8::{
    is_char_boundary, length_of_first_scalar, pop_first_scalar, valid_utf8, valid_utf8_split,
};
use crate::text::{lemma_boundary, sliceable};

verus! {

/// The pattern stands in the text at offset `at`.
pub open spec fn occurs_at(hay: Seq<u8>, needle: Seq<u8>, at: int) -> bool {
    0 <= at && at + needle.len() <= hay.len() && hay.subrange(at, at + needle.len()) == needle
}

/// The occurrences of the pattern that a scan from `from` finds: the scan goes
/// from left to right and, after an occurrence, goes on at the occurrence's end,
/// so that no two occurrences share a byte. An empty pattern occurs nowhere.
pub open spec fn occurrences(hay: Seq<u8>, needle: Seq<u8>, from: int) -> Seq<(usize, usize)>
    decreases hay.len() - from,
{
    if needle.len() == 0 || from < 0 || from + needle.len() > hay.len() {
        Seq::empty()
    } else if occurs_at(hay, needle, from) {
        seq![(from as usize, (from + needle.len()) as usize)] + occurrences(
            hay,
            needle,
            from + needle.len(),
        )
    } else {
        occurrences(hay, needle, from + 1)
    }
}

/// Whether the pattern stands in the text at offset `at`.
pub fn matches_at(hay: &[u8], needle: &[u8], at: usize) -> (yes: bool)
    ensures
        yes == occurs_at(hay@, needle@, at as int),
{
    if at > hay.len() || needle.len() > hay.len() - at {
        return false;
    }
    let mut k: usize = 0;
    while k < needle.len()
        invariant
            k <= needle.len(),
            at + needle.len() <= hay.len(),
            forall|j: int| 0 <= j < k ==> hay@[at + j] == needle@[j],
        decreases needle.len() - k,
    {
        if hay[at + k] != needle[k] {
            proof {
                let window = hay@.subrange(at as int, at + needle@.len());
                assert(window[k as int] != needle@[k as int]);
            }
            return false;
        }
        k += 1;
    }
    proof {
        assert(hay@.subrange(at as int, at + needle@.len()) =~= needle@);
    }
    true
}

/// All occurrences of the pattern in the text, as pairs of start and end.
pub fn find_occurrences(hay: &[u8], needle: &[u8]) -> (found: Vec<(usize, usize)>)
    ensures
        found@ == occurrences(hay@, needle@, 0),
        hay@.len() <= usize::MAX,
{
    let mut found: Vec<(usize, usize)> = Vec::new();
    let n: usize = needle.len();
    let size: usize = hay.len();
    if n == 0 || n > size {
        return found;
    }
    let last: usize = size - n;
    let mut pos: usize = 0;
    while pos <= last
        invariant
            n == needle@.len(),
            n > 0,
            last + n == hay@.len(),
            hay@.len() <= usize::MAX,
            found@ + occurrences(hay@, needle@, pos as int) == occurrences(hay@, needle@, 0),
        decreases hay@.len() - pos,
    {
        if matches_at(hay, needle, pos) {
            found.push((pos, pos + n));
            proof {
                assert(found@ + occurrences(hay@, needle@, pos + n) =~= occurrences(
                    hay@,
                    needle@,
                    0,
                ));
            }
            pos = pos + n;
        } else {
            pos = pos + 1;
        }
    }
    proof {
        assert(found@ + occurrences(hay@, needle@, pos as int) =~= found@);
    }
    found
}

/// What a scan from `from` finds.
///
/// Every entry of the list is an occurrence of the pattern and is as long as
/// the pattern. The entries are in ascending order and share no byte. Every
/// occurrence of the pattern at or after `from` shares its first byte with an
/// entry: the scan passes over no occurrence but one that overlaps an earlier
/// one.
pub proof fn law_occurrences(hay: Seq<u8>, needle: Seq<u8>, from: int)
    requires
        0 <= from,
        hay.len() <= usize::MAX,
    ensures
        forall|i: int|
            0 <= i < occurrences(hay, needle, from).len() ==> {
                let found = #[trigger] occurrences(hay, needle, from)[i];
                &&& from <= found.0
                &&& found.1 == found.0 + needle.len()
                &&& occurs_at(hay, needle, found.0 as int)
            },
        forall|i: int, j: int|
            0 <= i < j < occurrences(hay, needle, from).len() ==> (#[trigger] occurrences(
                hay,
                needle,
                from,
            )[i]).1 <= (#[trigger] occurrences(hay, needle, from)[j]).0,
        forall|at: int|
            from <= at && needle.len() > 0 && #[trigger] occurs_at(hay, needle, at) ==> exists|
                i: int,
            |
                0 <= i < occurrences(hay, needle, from).len() && (#[trigger] occurrences(
                    hay,
                    needle,
                    from,
                )[i]).0 <= at < occurrences(hay, needle, from)[i].1,
    decreases hay.len() - from,
{
    let all = occurrences(hay, needle, from);
    if needle.len() == 0 || from + needle.len() > hay.len() {
    } else if occurs_at(hay, needle, from) {
        let next = from + needle.len();
        let rest = occurrences(hay, needle, next);
        law_occurrences(hay, needle, next);
        assert(all =~= seq![(from as usize, next as usize)] + rest);
        assert forall|i: int| 0 <= i < all.len() implies {
            let found = #[trigger] all[i];
            &&& from <= found.0
            &&& found.1 == found.0 + needle.len()
            &&& occurs_at(hay, needle, found.0 as int)
        } by {
            if i > 0 {
                assert(all[i] == rest[i - 1]);
            }
        }
        assert forall|i: int, j: int| 0 <= i < j < all.len() implies (#[trigger] all[i]).1 <= (
        #[trigger] all[j]).0 by {
            assert(all[j] == rest[j - 1]);
            if i > 0 {
                assert(all[i] == rest[i - 1]);
            }
        }
        assert forall|at: int|
            from <= at && needle.len() > 0 && #[trigger] occurs_at(hay, needle, at) implies exists|
            i: int,
        | 0 <= i < all.len() && (#[trigger] all[i]).0 <= at < all[i].1 by {
            if at < next {
                assert(all[0].0 <= at < all[0].1);
            } else {
                let i = choose|i: int| 0 <= i < rest.len() && (#[trigger] rest[i]).0 <= at < rest[i].1;
                assert(all[i + 1] == rest[i]);
            }
        }
    } else {
        let rest = occurrences(hay, needle, from + 1);
        law_occurrences(hay, needle, from + 1);
        assert(all == rest);
        assert forall|at: int|
            from <= at && needle.len() > 0 && #[trigger] occurs_at(hay, needle, at) implies exists|
            i: int,
        | 0 <= i < all.len() && (#[trigger] all[i]).0 <= at < all[i].1 by {
            if at > from {
                let i = choose|i: int| 0 <= i < rest.len() && (#[trigger] rest[i]).0 <= at < rest[i].1;
                assert(all[i] == rest[i]);
            }
        }
    }
}

/// A valid text that begins a valid text ends between two characters of it.
pub proof fn lemma_prefix_ends_on_boundary(text: Seq<u8>, prefix: Seq<u8>)
    requires
        valid_utf8(text),
        valid_utf8(prefix),
        prefix.len() <= text.len(),
        text.subrange(0, prefix.len() as int) == prefix,
    ensures
        is_char_boundary(text, prefix.len() as int),
    decreases prefix.len(),
{
    if prefix.len() > 0 {
        let width = length_of_first_scalar(prefix);
        assert(text[0] == text.subrange(0, prefix.len() as int)[0]);
        assert(length_of_first_scalar(text) == width);
        let text_rest = pop_first_scalar(text);
        let prefix_rest = pop_first_scalar(prefix);
        assert(text_rest.subrange(0, prefix_rest.len() as int) =~= prefix_rest) by {
            assert forall|i: int| 0 <= i < prefix_rest.len() implies text_rest[i]
                == prefix_rest[i] by {
                assert(text[width + i] == text.subrange(0, prefix.len() as int)[width + i]);
            }
        }
        lemma_prefix_ends_on_boundary(text_rest, prefix_rest);
        reveal_with_fuel(is_char_boundary, 2);
    }
}

/// An occurrence of a pattern in a text can be cut out of the text: where text
/// and pattern are valid UTF-8 and the pattern is not empty, an occurrence
/// starts and ends between characters of the text.
pub proof fn law_occurrence_can_be_cut(hay: Seq<u8>, needle: Seq<u8>, at: int)
    requires
        valid_utf8(hay),
        valid_utf8(needle),
        needle.len() > 0,
        occurs_at(hay, needle, at),
    ensures
        sliceable(hay, at, at + needle.len()),
{
    let end = at + needle.len();
    let tail = hay.subrange(at, hay.len() as int);
    assert(hay[at] == hay.subrange(at, end)[0]);
    lemma_boundary(needle, 0);
    lemma_boundary(hay, at);
    valid_utf8_split(hay, at);
    assert(tail.subrange(0, needle.len() as int) =~= needle) by {
        assert forall|i: int| 0 <= i < needle.len() implies tail[i] == needle[i] by {
            assert(hay[at + i] == hay.subrange(at, end)[i]);
        }
    }
    lemma_prefix_ends_on_boundary(tail, needle);
    lemma_boundary(tail, needle.len() as int);
    if end < hay.len() {
        assert(tail[needle.len() as int] == hay[end]);
    }
}

} // verus!
