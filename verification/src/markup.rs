//! Texts as the delivery side shows them: names with the markup characters
//! escaped, and marks for yes and no.

use vstd::prelude::*;
use vstd::string::StringExecFns;

verus! {

/// The name with a backslash before each underscore, so that the delivery side
/// shows the underscore and does not read it as markup.
pub open spec fn escaped(name: Seq<char>) -> Seq<char>
    decreases name.len(),
{
    if name.len() == 0 {
        Seq::empty()
    } else if name.last() == '_' {
        escaped(name.drop_last()).push('\\').push('_')
    } else {
        escaped(name.drop_last()).push(name.last())
    }
}

/// Writes a channel or user name with each underscore escaped.
pub fn escape_twitch_channel(channel: &str) -> (shown: String)
    ensures
        shown@ == escaped(channel@),
{
    let mut shown = String::new();
    for c in it: channel.chars()
        invariant
            it.seq() == channel@,
            shown@ == escaped(channel@.take(it.index() as int)),
    {
        proof {
            assert(channel@.take(it.index() + 1).drop_last() =~= channel@.take(it.index() as int));
        }
        if c == '_' {
            shown.push('\\');
        }
        shown.push(c);
    }
    proof {
        assert(channel@.take(channel@.len() as int) =~= channel@);
    }
    shown
}

/// Writes a name that comes from the chat network for the delivery side. The
/// chat network escapes nothing, so this is `escape_twitch_channel`.
pub fn unescape_twitch_channel(channel: &str) -> (shown: String)
    ensures
        shown@ == escaped(channel@),
{
    escape_twitch_channel(channel)
}

/// An escaped name has one more character for each underscore, and no
/// underscore of it stands without a backslash before it.
pub proof fn law_escaped(name: Seq<char>)
    ensures
        escaped(name).len() == name.len() + name.filter(|c: char| c == '_').len(),
        forall|i: int|
            0 <= i < escaped(name).len() && #[trigger] escaped(name)[i] == '_' ==> i > 0
                && escaped(name)[i - 1] == '\\',
    decreases name.len(),
{
    reveal(Seq::filter);
    if name.len() > 0 {
        law_escaped(name.drop_last());
    }
}

/// Something that has a mark to show for it.
pub trait IntoEmoji {
    /// The mark.
    fn emoji(self) -> String;
}

impl IntoEmoji for bool {
    /// A check mark for `true`, a cross for `false`.
    fn emoji(self) -> (mark: String)
        ensures
            mark@ == (if self {
                "✅"@
            } else {
                "❌"@
            }),
    {
        if self {
            String::from_str("✅")
        } else {
            String::from_str("❌")
        }
    }
}

} // verus!
