//! Strings as bytes: the UTF-8 form of a text, cutting a text at byte offsets,
//! case folding and decimal numerals.

use vstd::prelude::*;
use vstd::utf8::*;

verus! {

/// The UTF-8 bytes of a text. Match spans are offsets into these bytes.
pub open spec fn bytes_of(text: Seq<char>) -> Seq<u8> {
    encode_utf8(text)
}

/// What `str::to_lowercase` returns for a text: its lowercase form under the
/// Unicode case mapping of the standard library.
pub uninterp spec fn lowercase_of(text: Seq<char>) -> Seq<char>;

/// `str::to_lowercase` of the standard library. The result is a function of the
/// text alone; the contract gives it the name `lowercase_of`.
pub assume_specification[ str::to_lowercase ](s: &str) -> (lower: String)
    ensures
        lower@ == lowercase_of(s@),
;

/// `String::push` of the standard library appends one character.
pub assume_specification[ String::push ](s: &mut String, ch: char)
    ensures
        final(s)@ == old(s)@.push(ch),
;

/// The offset `at` is the start of a character of the UTF-8 text, or its end.
pub open spec fn boundary(bytes: Seq<u8>, at: int) -> bool {
    0 <= at <= bytes.len() && (at == bytes.len() || !is_continuation_byte(bytes[at]))
}

/// The bytes from `from` to `to` can be cut out of the text as a text.
pub open spec fn sliceable(bytes: Seq<u8>, from: int, to: int) -> bool {
    from <= to && boundary(bytes, from) && boundary(bytes, to)
}

/// On valid UTF-8, `boundary` is the character boundary of the standard library.
pub proof fn lemma_boundary(bytes: Seq<u8>, at: int)
    requires
        valid_utf8(bytes),
    ensures
        is_char_boundary(bytes, at) <==> boundary(bytes, at),
{
    if 0 <= at < bytes.len() {
        is_char_boundary_iff_not_is_continuation_byte(bytes, at);
    } else if at == bytes.len() {
        is_char_boundary_start_end_of_seq(bytes);
    } else {
        reveal_with_fuel(is_char_boundary, 1);
    }
}

/// The bytes of two texts put together are the bytes of the one after the bytes
/// of the other.
pub proof fn lemma_bytes_of_concat(a: Seq<char>, b: Seq<char>)
    ensures
        bytes_of(a + b) == bytes_of(a) + bytes_of(b),
    decreases a.len(),
{
    if a.len() == 0 {
        assert(a + b =~= b);
        assert(bytes_of(a) + bytes_of(b) =~= bytes_of(b));
    } else {
        lemma_bytes_of_concat(a.drop_first(), b);
        assert((a + b).drop_first() =~= a.drop_first() + b);
        assert((a + b)[0] == a[0]);
        assert(bytes_of(a + b) =~= bytes_of(a) + bytes_of(b));
    }
}

/// Whether `at` is a character boundary of the text.
pub fn is_boundary(text: &str, at: usize) -> (yes: bool)
    ensures
        yes == boundary(bytes_of(text@), at as int),
{
    proof {
        encode_utf8_valid_utf8(text@);
        lemma_boundary(bytes_of(text@), at as int);
    }
    text.is_char_boundary(at)
}

/// The part of the text from byte `from` up to byte `to`, where it can be cut
/// out of the text.
pub fn slice<'a>(text: &'a str, from: usize, to: usize) -> (piece: Option<&'a str>)
    ensures
        match piece {
            Some(piece) => sliceable(bytes_of(text@), from as int, to as int) && bytes_of(piece@)
                == bytes_of(text@).subrange(from as int, to as int),
            None => !sliceable(bytes_of(text@), from as int, to as int),
        },
{
    if from <= to && is_boundary(text, from) && is_boundary(text, to) {
        Some(cut(text, from, to))
    } else {
        None
    }
}

/// The part of the text from byte `from` up to byte `to`.
pub(crate) fn cut<'a>(text: &'a str, from: usize, to: usize) -> (piece: &'a str)
    requires
        sliceable(bytes_of(text@), from as int, to as int),
    ensures
        bytes_of(piece@) == bytes_of(text@).subrange(from as int, to as int),
{
    proof {
        encode_utf8_valid_utf8(text@);
        lemma_boundary(bytes_of(text@), from as int);
    }
    let (_, tail) = text.split_at(from);
    proof {
        encode_utf8_valid_utf8(tail@);
        lemma_boundary(bytes_of(tail@), to - from);
    }
    let (piece, _) = tail.split_at(to - from);
    proof {
        assert(bytes_of(piece@) =~= bytes_of(text@).subrange(from as int, to as int));
    }
    piece
}

/// Whether two texts are the same.
pub fn same_text(a: &str, b: &str) -> (same: bool)
    ensures
        same == (a@ == b@),
{
    let x = a.as_bytes();
    let y = b.as_bytes();
    if x.len() != y.len() {
        return false;
    }
    let mut i: usize = 0;
    while i < x.len()
        invariant
            i <= x.len(),
            x.len() == y.len(),
            x@ == bytes_of(a@),
            y@ == bytes_of(b@),
            forall|k: int| 0 <= k < i ==> x@[k] == y@[k],
        decreases x.len() - i,
    {
        if x[i] != y[i] {
            return false;
        }
        i += 1;
    }
    proof {
        assert(x@ =~= y@);
        encode_utf8_decode_utf8(a@);
        encode_utf8_decode_utf8(b@);
    }
    true
}

/// The decimal digits of a number, most significant first.
pub open spec fn decimal(n: nat) -> Seq<char>
    decreases n,
{
    if n < 10 {
        seq![digit(n)]
    } else {
        decimal(n / 10).push(digit(n % 10))
    }
}

/// The character of a single digit.
pub open spec fn digit(d: nat) -> char
    recommends
        d < 10,
{
    if d == 0 {
        '0'
    } else if d == 1 {
        '1'
    } else if d == 2 {
        '2'
    } else if d == 3 {
        '3'
    } else if d == 4 {
        '4'
    } else if d == 5 {
        '5'
    } else if d == 6 {
        '6'
    } else if d == 7 {
        '7'
    } else if d == 8 {
        '8'
    } else {
        '9'
    }
}

fn digit_char(d: u64) -> (c: char)
    requires
        d < 10,
    ensures
        c == digit(d as nat),
{
    if d == 0 {
        '0'
    } else if d == 1 {
        '1'
    } else if d == 2 {
        '2'
    } else if d == 3 {
        '3'
    } else if d == 4 {
        '4'
    } else if d == 5 {
        '5'
    } else if d == 6 {
        '6'
    } else if d == 7 {
        '7'
    } else if d == 8 {
        '8'
    } else {
        '9'
    }
}

/// Appends the decimal numeral of `n` to `out`.
pub fn push_decimal(out: &mut String, n: u64)
    ensures
        final(out)@ == old(out)@ + decimal(n as nat),
    decreases n,
{
    if n >= 10 {
        push_decimal(out, n / 10);
    }
    out.push(digit_char(n % 10));
    proof {
        assert(final(out)@ =~= old(out)@ + decimal(n as nat));
    }
}

} // verus!
