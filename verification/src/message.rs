//! A chat message with the spans of it that matched a recipient's triggers.

use vstd::prelude::*;
use vstd::string::StringExecFns;
use vstd::utf8::encode_utf8_valid_utf8;
use colored::Colorize;
use crate::span::{
    MatchSpan, absorbed, disjoint_ascending, insert_sorted, merged, normalize, proper,
};
use crate::span_laws::{law_absorbed, law_merged, law_merged_endpoints};
use crate::text::{bytes_of, cut, is_boundary, lemma_boundary, lemma_bytes_of_concat, sliceable};

verus! {

/// One message of a channel, as one recipient sees it: the text and the spans
/// of the text that matched that recipient's triggers.
#[derive(Debug, Clone, PartialEq, Eq)]
pub struct TwitchMessageSimple {
    /// The channel's name in lower case, without the leading `#`.
    pub channel: String,
    /// The name of the user who wrote the message.
    pub author: String,
    /// The text of the message.
    pub message: String,
    /// The matched spans, as byte offsets into the text.
    pub triggers: Vec<MatchSpan>,
}

/// Every span of the list holds at least one byte and can be cut out of the
/// text: it starts and ends between characters of the text, and so ends within
/// the text.
pub open spec fn within(text: Seq<char>, spans: Seq<MatchSpan>) -> bool {
    forall|k: int|
        0 <= k < spans.len() ==> (#[trigger] spans[k]).0 < spans[k].1 && sliceable(
            bytes_of(text),
            spans[k].0 as int,
            spans[k].1 as int,
        )
}

/// Raw spans that lie within a text merge into spans that lie within the text.
pub proof fn law_merged_within(text: Seq<char>, raw: Seq<MatchSpan>)
    requires
        within(text, raw),
    ensures
        within(text, merged(raw)),
        disjoint_ascending(merged(raw)),
{
    assert forall|i: int| 0 <= i < raw.len() implies proper(#[trigger] raw[i]) by {}
    law_merged(raw);
    let out = merged(raw);
    assert forall|k: int| 0 <= k < out.len() implies (#[trigger] out[k]).0 < out[k].1 && sliceable(
        bytes_of(text),
        out[k].0 as int,
        out[k].1 as int,
    ) by {
        law_merged_endpoints(raw, k);
        let i = choose|i: int| 0 <= i < raw.len() && (#[trigger] raw[i]).0 == out[k].0;
        let j = choose|j: int| 0 <= j < raw.len() && (#[trigger] raw[j]).1 == out[k].1;
        assert(proper(out[k]));
    }
}

/// The text with each usable span replaced by its piece.
///
/// The spans are taken in order from span `i` on, with `cursor` the offset up
/// to which the text is already used. A span is usable when it has a piece,
/// starts at or after the cursor and can be cut out of the text. The text
/// between the cursor and a usable span is kept, the span gives way to its
/// piece, and the cursor moves to the span's end. A span that is not usable is
/// passed over.
pub open spec fn spliced(
    text: Seq<u8>,
    spans: Seq<MatchSpan>,
    pieces: Seq<Seq<u8>>,
    i: int,
    cursor: int,
) -> Seq<u8>
    decreases spans.len() - i,
{
    if i < 0 || i >= spans.len() {
        text.subrange(cursor, text.len() as int)
    } else if i < pieces.len() && cursor <= spans[i].0 && sliceable(
        text,
        spans[i].0 as int,
        spans[i].1 as int,
    ) {
        text.subrange(cursor, spans[i].0 as int) + pieces[i] + spliced(
            text,
            spans,
            pieces,
            i + 1,
            spans[i].1 as int,
        )
    } else {
        spliced(text, spans, pieces, i + 1, cursor)
    }
}

/// The bytes of each piece.
pub open spec fn piece_bytes(pieces: Seq<String>) -> Seq<Seq<u8>> {
    Seq::new(pieces.len(), |i: int| bytes_of(pieces[i]@))
}

/// For each span the mark, the text of the span, and the mark again.
pub open spec fn marked_pieces(text: Seq<u8>, spans: Seq<MatchSpan>, mark: Seq<u8>) -> Seq<Seq<u8>> {
    Seq::new(
        spans.len(),
        |i: int|
            if sliceable(text, spans[i].0 as int, spans[i].1 as int) {
                mark + text.subrange(spans[i].0 as int, spans[i].1 as int) + mark
            } else {
                Seq::empty()
            },
    )
}

/// Replaces each usable span of the text by the piece that stands at the span's
/// place in `pieces`.
pub fn splice(text: &str, spans: &Vec<MatchSpan>, pieces: &Vec<String>) -> (out: String)
    ensures
        bytes_of(out@) == spliced(bytes_of(text@), spans@, piece_bytes(pieces@), 0, 0),
{
    let ghost bytes = bytes_of(text@);
    let ghost shown = piece_bytes(pieces@);
    let len: usize = text.as_bytes().len();
    let mut out = String::new();
    let mut cursor: usize = 0;
    let mut i: usize = 0;
    proof {
        encode_utf8_valid_utf8(text@);
        lemma_boundary(bytes, 0);
        assert(bytes_of(out@) =~= Seq::<u8>::empty());
        assert(bytes_of(out@) + spliced(bytes, spans@, shown, 0, 0) =~= spliced(
            bytes,
            spans@,
            shown,
            0,
            0,
        ));
    }
    while i < spans.len()
        invariant
            i <= spans.len(),
            bytes == bytes_of(text@),
            shown == piece_bytes(pieces@),
            len == bytes.len(),
            cursor <= len,
            sliceable(bytes, cursor as int, cursor as int),
            bytes_of(out@) + spliced(bytes, spans@, shown, i as int, cursor as int) == spliced(
                bytes,
                spans@,
                shown,
                0,
                0,
            ),
        decreases spans.len() - i,
    {
        let start: usize = spans[i].0 as usize;
        let end: usize = spans[i].1 as usize;
        if i < pieces.len() && cursor <= start && start <= end && end <= len && is_boundary(
            text,
            start,
        ) && is_boundary(text, end) {
            let gap = cut(text, cursor, start);
            let ghost before = out@;
            out.append(gap);
            proof {
                lemma_bytes_of_concat(before, gap@);
            }
            let ghost middle = out@;
            out.append(pieces[i].as_str());
            proof {
                lemma_bytes_of_concat(middle, pieces@[i as int]@);
                assert(shown[i as int] == bytes_of(pieces@[i as int]@));
                assert(bytes_of(out@) + spliced(bytes, spans@, shown, i + 1, end as int)
                    =~= bytes_of(before) + spliced(bytes, spans@, shown, i as int, cursor as int));
            }
            cursor = end;
        }
        i += 1;
    }
    let rest = cut(text, cursor, len);
    let ghost before = out@;
    out.append(rest);
    proof {
        lemma_bytes_of_concat(before, rest@);
    }
    out
}

/// `Colorize::red` of the crate `colored`, rendered to a string. Whether the
/// result carries colour codes depends on the terminal and the environment, so
/// nothing is claimed of it.
#[verifier::external_body]
fn paint_red(segment: &str) -> String {
    segment.red().to_string()
}

fn copy_spans(spans: &Vec<MatchSpan>) -> (copy: Vec<MatchSpan>)
    ensures
        copy@ == spans@,
{
    let mut copy: Vec<MatchSpan> = Vec::new();
    let mut i: usize = 0;
    while i < spans.len()
        invariant
            i <= spans.len(),
            copy@ == spans@.take(i as int),
        decreases spans.len() - i,
    {
        copy.push(spans[i]);
        proof {
            assert(spans@.take(i as int).push(spans@[i as int]) =~= spans@.take(i + 1));
        }
        i += 1;
    }
    proof {
        assert(spans@.take(spans@.len() as int) =~= spans@);
    }
    copy
}

impl TwitchMessageSimple {
    /// The spans of the message are proper, ordered and pairwise disjoint.
    pub open spec fn well_formed(&self) -> bool {
        disjoint_ascending(self.triggers@)
    }

    /// The message is fit to be shown: it has at least one span, its spans are
    /// ordered and pairwise disjoint, and each of them lies within the text.
    pub open spec fn presentable(&self) -> bool {
        &&& self.triggers@.len() > 0
        &&& self.well_formed()
        &&& within(self.message@, self.triggers@)
    }

    /// The UTF-8 bytes of the message's text.
    pub open spec fn text_bytes(&self) -> Seq<u8> {
        bytes_of(self.message@)
    }

    /// A message without matched spans.
    pub fn new(channel: String, author: String, message: String) -> (m: Self)
        ensures
            m.channel == channel,
            m.author == author,
            m.message == message,
            m.triggers@ == Seq::<MatchSpan>::empty(),
            m.well_formed(),
    {
        Self { channel, author, message, triggers: Vec::new() }
    }

    /// A copy of the message.
    pub fn duplicate(&self) -> (copy: Self)
        ensures
            copy.channel == self.channel,
            copy.author == self.author,
            copy.message == self.message,
            copy.triggers@ == self.triggers@,
    {
        Self {
            channel: self.channel.clone(),
            author: self.author.clone(),
            message: self.message.clone(),
            triggers: copy_spans(&self.triggers),
        }
    }

    /// The line that names the message's origin: the author, then the channel
    /// with its leading `#`.
    pub open spec fn origin(&self) -> Seq<char> {
        self.author@ + " ∙ #"@ + self.channel@
    }

    /// The address of the channel's page.
    pub open spec fn address(&self) -> Seq<char> {
        "https://twitch.tv/"@ + self.channel@
    }

    /// Writes the line that names the message's origin.
    pub fn title(&self) -> (line: String)
        ensures
            line@ == self.origin(),
    {
        let mut line = self.author.clone();
        line.append(" ∙ #");
        line.append(self.channel.as_str());
        line
    }

    /// Writes the address of the channel's page.
    pub fn link(&self) -> (url: String)
        ensures
            url@ == self.address(),
    {
        let mut url = String::from_str("https://twitch.tv/");
        url.append(self.channel.as_str());
        url
    }

    /// Takes one more matched span into the message: the span is put at its
    /// place by start, and spans that overlap are fused.
    pub fn add_trigger(&mut self, trig: MatchSpan)
        ensures
            final(self).triggers@ == absorbed(old(self).triggers@, trig),
            final(self).channel == old(self).channel,
            final(self).author == old(self).author,
            final(self).message == old(self).message,
            old(self).well_formed() && proper(trig) ==> final(self).well_formed(),
    {
        proof {
            if self.well_formed() && proper(trig) {
                law_absorbed(self.triggers@, trig);
            }
        }
        insert_sorted(&mut self.triggers, trig);
        let kept = normalize(&self.triggers);
        self.triggers = kept;
    }

    /// The text with `highlighter` put before and after each matched span.
    ///
    /// A span that overlaps the one before it, that reaches beyond the text or
    /// that cuts a character in two is left without marks.
    pub fn message_highlighted(&self, highlighter: &str) -> (shown: String)
        ensures
            bytes_of(shown@) == spliced(
                self.text_bytes(),
                self.triggers@,
                marked_pieces(self.text_bytes(), self.triggers@, bytes_of(highlighter@)),
                0,
                0,
            ),
    {
        let text = self.message.as_str();
        let len: usize = text.as_bytes().len();
        let ghost bytes = bytes_of(text@);
        let ghost mark = bytes_of(highlighter@);
        let mut pieces: Vec<String> = Vec::new();
        let mut i: usize = 0;
        while i < self.triggers.len()
            invariant
                i <= self.triggers.len(),
                text@ == self.message@,
                bytes == bytes_of(text@),
                mark == bytes_of(highlighter@),
                len == bytes.len(),
                pieces.len() == i,
                forall|k: int|
                    0 <= k < i ==> bytes_of(#[trigger] pieces@[k]@) == marked_pieces(
                        bytes,
                        self.triggers@,
                        mark,
                    )[k],
            decreases self.triggers.len() - i,
        {
            let start: usize = self.triggers[i].0 as usize;
            let end: usize = self.triggers[i].1 as usize;
            let mut piece = String::new();
            if start <= end && end <= len && is_boundary(text, start) && is_boundary(text, end) {
                let inner = cut(text, start, end);
                piece.append(highlighter);
                let ghost first = piece@;
                piece.append(inner);
                let ghost second = piece@;
                piece.append(highlighter);
                proof {
                    lemma_bytes_of_concat(first, inner@);
                    lemma_bytes_of_concat(second, highlighter@);
                    assert(first =~= highlighter@);
                }
            } else {
                proof {
                    assert(bytes_of(piece@) =~= Seq::<u8>::empty());
                }
            }
            pieces.push(piece);
            i += 1;
        }
        proof {
            assert(piece_bytes(pieces@) =~= marked_pieces(bytes, self.triggers@, mark));
        }
        splice(text, &self.triggers, &pieces)
    }

    /// The text with each matched span painted red for a terminal.
    ///
    /// The text outside the spans is kept as it is; how a painted span looks is
    /// for the terminal library to say.
    pub fn message_highlighted_term(&self) -> (shown: String)
        ensures
            exists|pieces: Seq<Seq<u8>>|
                pieces.len() == self.triggers@.len() && bytes_of(shown@) == #[trigger] spliced(
                    self.text_bytes(),
                    self.triggers@,
                    pieces,
                    0,
                    0,
                ),
    {
        let text = self.message.as_str();
        let len: usize = text.as_bytes().len();
        let mut pieces: Vec<String> = Vec::new();
        let mut i: usize = 0;
        while i < self.triggers.len()
            invariant
                i <= self.triggers.len(),
                text@ == self.message@,
                len == bytes_of(text@).len(),
                pieces.len() == i,
            decreases self.triggers.len() - i,
        {
            let start: usize = self.triggers[i].0 as usize;
            let end: usize = self.triggers[i].1 as usize;
            if start <= end && end <= len && is_boundary(text, start) && is_boundary(text, end) {
                pieces.push(paint_red(cut(text, start, end)));
            } else {
                pieces.push(String::new());
            }
            i += 1;
        }
        let shown = splice(text, &self.triggers, &pieces);
        proof {
            let painted = piece_bytes(pieces@);
            assert(painted.len() == self.triggers@.len());
            assert(bytes_of(shown@) == spliced(self.text_bytes(), self.triggers@, painted, 0, 0));
        }
        shown
    }
}

} // verus!
