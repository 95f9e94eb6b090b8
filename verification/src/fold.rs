//! From offsets into the lowercase form of a text back to offsets into the text.
//!
//! Bringing a text to lower case can change the width of a character, so that
//! what is found in the lowercase form may lie at other offsets than what it
//! stands for in the text. The way back goes character by character: the
//! lowercase form of the text is the lowercase forms of its characters, one
//! after the other, and each byte of it belongs to one character of the text.

use vstd::prelude::*;
use vstd::utf8::encode_utf8_valid_utf8;
use crate::search::lemma_prefix_ends_on_boundary;
use crate::text::{boundary, bytes_of, lemma_boundary, lemma_bytes_of_concat, lowercase_of, sliceable};

verus! {

/// The offset at which character `i` of the text starts; for `i` the number of
/// characters, the length of the text.
pub open spec fn text_start(text: Seq<char>, i: int) -> nat {
    if i <= 0 {
        0
    } else if i >= text.len() {
        bytes_of(text).len()
    } else {
        bytes_of(text.take(i)).len()
    }
}

/// The width of the lowercase form of one character.
pub open spec fn folded_width(c: char) -> nat {
    bytes_of(lowercase_of(seq![c])).len()
}

/// The offset at which the lowercase form of character `i` starts, where the
/// lowercase forms of the characters stand one after the other.
pub open spec fn folded_start(text: Seq<char>, i: int) -> nat
    decreases i,
{
    if i <= 0 {
        0
    } else if i > text.len() {
        folded_start(text, text.len() as int)
    } else {
        folded_start(text, i - 1) + folded_width(text[i - 1])
    }
}

/// The lowercase forms of the characters make up a text of `limit` bytes.
pub open spec fn fits(text: Seq<char>, limit: nat) -> bool {
    folded_start(text, text.len() as int) == limit
}

/// The character whose lowercase form holds the byte at the offset `at`, looked
/// for from character `i` on; the number of characters where there is none.
pub open spec fn holder(text: Seq<char>, at: int, i: int) -> int
    decreases text.len() - i,
{
    if i < 0 || i >= text.len() {
        text.len() as int
    } else if at < folded_start(text, i + 1) {
        i
    } else {
        holder(text, at, i + 1)
    }
}

/// The span of the text that stands for a span of its lowercase form: from the
/// start of the character that holds the first byte to the end of the character
/// that holds the last byte. An empty span stays as it is.
pub open spec fn text_span(text: Seq<char>, found: (usize, usize)) -> (usize, usize) {
    if found.0 < found.1 {
        (
            text_start(text, holder(text, found.0 as int, 0)) as usize,
            text_start(text, holder(text, found.1 - 1, 0) + 1) as usize,
        )
    } else {
        found
    }
}

/// The spans of the text that stand for spans of its lowercase form, which is
/// `limit` bytes long. Where the lowercase forms of the characters do not make
/// up a text of that length, there is no way back, and there are no spans.
pub open spec fn text_spans(text: Seq<char>, limit: nat, found: Seq<(usize, usize)>) -> Seq<
    (usize, usize),
> {
    if fits(text, limit) {
        Seq::new(found.len(), |k: int| text_span(text, found[k]))
    } else {
        Seq::empty()
    }
}

proof fn lemma_text_start(text: Seq<char>, i: int)
    requires
        0 <= i < text.len(),
    ensures
        text_start(text, i + 1) == text_start(text, i) + bytes_of(seq![text[i]]).len(),
        text_start(text, i + 1) <= bytes_of(text).len(),
{
    let upto = text.take(i + 1);
    assert(upto =~= text.take(i) + seq![text[i]]);
    lemma_bytes_of_concat(text.take(i), seq![text[i]]);
    assert(text =~= upto + text.skip(i + 1));
    lemma_bytes_of_concat(upto, text.skip(i + 1));
    if i == 0 {
        assert(text.take(0) =~= Seq::<char>::empty());
    }
    if i + 1 == text.len() {
        assert(upto =~= text);
    }
}

proof fn lemma_folded_start_grows(text: Seq<char>, i: int, j: int)
    requires
        0 <= i <= j <= text.len(),
    ensures
        folded_start(text, i) <= folded_start(text, j),
    decreases j - i,
{
    if i < j {
        lemma_folded_start_grows(text, i, j - 1);
    }
}

/// The offsets at which the characters of a text start, and the offsets at
/// which their lowercase forms start.
struct Folding {
    /// For each character, and for the end of the text, the offset in the text.
    starts: Vec<usize>,
    /// For each character, and for the end of the text, the offset among the
    /// lowercase forms.
    folded: Vec<usize>,
}

impl Folding {
    /// The table is that of the text.
    spec fn of(&self, text: Seq<char>) -> bool {
        &&& self.starts@.len() == text.len() + 1
        &&& self.folded@.len() == text.len() + 1
        &&& forall|i: int| 0 <= i <= text.len() ==> #[trigger] self.starts@[i] == text_start(text, i)
        &&& forall|i: int| 0 <= i <= text.len() ==> #[trigger] self.folded@[i] == folded_start(text, i)
    }

    /// Measures the characters of a text and their lowercase forms. There is a
    /// table exactly where the lowercase forms make up a text of `limit`
    /// bytes.
    fn measure(text: &str, limit: usize) -> (table: Option<Self>)
        ensures
            match table {
                Some(table) => table.of(text@) && folded_start(text@, text@.len() as int) == limit,
                None => folded_start(text@, text@.len() as int) != limit,
            },
    {
        let mut starts: Vec<usize> = Vec::new();
        let mut folded: Vec<usize> = Vec::new();
        let mut at: usize = 0;
        let mut low: usize = 0;
        let ghost chars = text@;
        let len: usize = text.as_bytes().len();
        starts.push(0);
        folded.push(0);
        for c in it: text.chars()
            invariant
                it.seq() == chars,
                chars == text@,
                len == bytes_of(chars).len(),
                starts@.len() == it.index() + 1,
                folded@.len() == it.index() + 1,
                at == text_start(chars, it.index() as int),
                low == folded_start(chars, it.index() as int),
                low <= limit,
                forall|i: int| 0 <= i <= it.index() ==> #[trigger] starts@[i] == text_start(chars, i),
                forall|i: int| 0 <= i <= it.index() ==> #[trigger] folded@[i] == folded_start(chars, i),
        {
            let ghost i = it.index() as int;
            let mut one = String::new();
            one.push(c);
            let lower = one.as_str().to_lowercase();
            let wide: usize = one.as_str().as_bytes().len();
            let low_wide: usize = lower.as_str().as_bytes().len();
            proof {
                assert(one@ =~= seq![chars[i]]);
                lemma_text_start(chars, i);
            }
            if low_wide > limit - low {
                proof {
                    lemma_folded_start_grows(chars, i + 1, chars.len() as int);
                }
                return None;
            }
            at = at + wide;
            low = low + low_wide;
            starts.push(at);
            folded.push(low);
        }
        if low != limit {
            return None;
        }
        Some(Folding { starts, folded })
    }

    /// The character whose lowercase form holds the byte at the offset `at`.
    fn holder_of(&self, at: usize, Ghost(text): Ghost<Seq<char>>) -> (i: usize)
        requires
            self.of(text),
        ensures
            i == holder(text, at as int, 0),
            i <= text.len(),
    {
        let count: usize = self.folded.len() - 1;
        let mut i: usize = 0;
        while i < count && at >= self.folded[i + 1]
            invariant
                self.of(text),
                count == text.len(),
                i <= count,
                holder(text, at as int, 0) == holder(text, at as int, i as int),
            decreases count - i,
        {
            i += 1;
        }
        i
    }

    /// The span of the text that stands for a span of its lowercase form.
    fn to_text(&self, found: (usize, usize), Ghost(text): Ghost<Seq<char>>) -> (span: (
        usize,
        usize,
    ))
        requires
            self.of(text),
        ensures
            span == text_span(text, found),
    {
        if found.0 < found.1 {
            let first = self.holder_of(found.0, Ghost(text));
            let last = self.holder_of(found.1 - 1, Ghost(text));
            let count: usize = self.starts.len() - 1;
            let after: usize = if last < count { last + 1 } else { count };
            (self.starts[first], self.starts[after])
        } else {
            found
        }
    }
}

/// Brings spans of the lowercase form of a text back to spans of the text.
/// `limit` is the length of the lowercase form of the text. Where the lowercase
/// forms of the characters do not make up a text of that length, no span comes
/// back.
pub fn to_text_spans(text: &str, limit: usize, found: &Vec<(usize, usize)>) -> (spans: Vec<
    (usize, usize),
>)
    ensures
        spans@ == text_spans(text@, limit as nat, found@),
{
    match Folding::measure(text, limit) {
        Some(table) => {
            let mut spans: Vec<(usize, usize)> = Vec::new();
            let mut k: usize = 0;
            while k < found.len()
                invariant
                    k <= found.len(),
                    table.of(text@),
                    spans@.len() == k,
                    forall|m: int|
                        0 <= m < k ==> #[trigger] spans@[m] == text_span(text@, found@[m]),
                decreases found.len() - k,
            {
                spans.push(table.to_text(found[k], Ghost(text@)));
                k += 1;
            }
            proof {
                assert(spans@ =~= text_spans(text@, limit as nat, found@));
            }
            spans
        },
        None => Vec::new(),
    }
}

/// Every character of a text starts at an offset at which the text can be cut.
pub proof fn lemma_text_start_is_boundary(text: Seq<char>, i: int)
    ensures
        boundary(bytes_of(text), text_start(text, i) as int),
{
    let bytes = bytes_of(text);
    encode_utf8_valid_utf8(text);
    if i <= 0 {
        lemma_boundary(bytes, 0);
    } else if i >= text.len() {
    } else {
        let head = text.take(i);
        assert(text =~= head + text.skip(i));
        lemma_bytes_of_concat(head, text.skip(i));
        encode_utf8_valid_utf8(head);
        assert(bytes.subrange(0, bytes_of(head).len() as int) =~= bytes_of(head));
        lemma_prefix_ends_on_boundary(bytes, bytes_of(head));
        lemma_boundary(bytes, bytes_of(head).len() as int);
    }
}

proof fn lemma_text_start_grows(text: Seq<char>, i: int, j: int)
    requires
        i <= j,
    ensures
        text_start(text, i) <= text_start(text, j),
        text_start(text, j) <= bytes_of(text).len(),
    decreases j - i,
{
    if j <= 0 {
    } else if j >= text.len() {
        if 0 < i < text.len() {
            assert(text =~= text.take(i) + text.skip(i));
            lemma_bytes_of_concat(text.take(i), text.skip(i));
        }
    } else {
        assert(text =~= text.take(j) + text.skip(j));
        lemma_bytes_of_concat(text.take(j), text.skip(j));
        if i > 0 {
            assert(text.take(j) =~= text.take(i) + text.take(j).skip(i));
            lemma_bytes_of_concat(text.take(i), text.take(j).skip(i));
        }
    }
}

/// A span brought back into a text can be cut out of the text.
pub proof fn law_text_span_can_be_cut(text: Seq<char>, found: (usize, usize))
    requires
        found.0 < found.1,
        bytes_of(text).len() <= usize::MAX,
    ensures
        sliceable(
            bytes_of(text),
            text_span(text, found).0 as int,
            text_span(text, found).1 as int,
        ),
{
    let first = holder(text, found.0 as int, 0);
    let last = holder(text, found.1 - 1, 0);
    lemma_holder_grows(text, found.0 as int, found.1 - 1, 0);
    lemma_text_start_grows(text, first, last + 1);
    lemma_text_start_is_boundary(text, first);
    lemma_text_start_is_boundary(text, last + 1);
}

proof fn lemma_holder_grows(text: Seq<char>, a: int, b: int, i: int)
    requires
        a <= b,
    ensures
        holder(text, a, i) <= holder(text, b, i),
        holder(text, b, i) <= text.len(),
        i <= text.len() ==> i <= holder(text, a, i) || i < 0,
    decreases text.len() - i,
{
    if 0 <= i < text.len() {
        lemma_holder_grows(text, a, b, i + 1);
    }
}

} // verus!
