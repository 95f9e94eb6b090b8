//! The rows that the store of registrations hands to the library.

use vstd::prelude::*;
use crate::text::same_text;

verus! {

/// A trigger as its owner sees it in a listing: without the owner.
#[derive(Debug, Clone, PartialEq, Eq)]
pub struct TriggerRecordNoDiscord {
    /// The trigger's stable identifier in the store.
    pub id: i64,
    /// The pattern: plain text, or a regular expression.
    pub trigger: String,
    /// Whether the case of letters counts when matching.
    pub case_sensitive: bool,
    /// Whether the pattern is a regular expression.
    pub regex: bool,
}

/// A trigger as the match engine sees it: with its owner, without identifier.
#[derive(Debug, Clone, PartialEq, Eq)]
pub struct TriggerRecordNoId {
    /// The recipient who owns the trigger.
    pub discord_user_id: i64,
    /// The pattern: plain text, or a regular expression.
    pub trigger: String,
    /// Whether the case of letters counts when matching.
    pub case_sensitive: bool,
    /// Whether the pattern is a regular expression.
    pub regex: bool,
}

/// One author whose messages a recipient does not want to hear of.
#[derive(Debug, Clone, PartialEq, Eq)]
pub struct IgnoreEntry {
    /// The recipient who ignores the author.
    pub discord_user_id: i64,
    /// The ignored author's name on the chat network.
    pub username: String,
}

/// Some entry says that `recipient` ignores `author`.
pub open spec fn ignores(entries: Seq<IgnoreEntry>, recipient: i64, author: Seq<char>) -> bool {
    exists|i: int|
        0 <= i < entries.len() && (#[trigger] entries[i]).discord_user_id == recipient
            && entries[i].username@ == author
}

/// Whether `recipient` ignores `author`.
pub fn is_ignored(entries: &Vec<IgnoreEntry>, recipient: i64, author: &str) -> (yes: bool)
    ensures
        yes == ignores(entries@, recipient, author@),
{
    let mut i: usize = 0;
    while i < entries.len()
        invariant
            i <= entries.len(),
            forall|k: int|
                0 <= k < i ==> !((#[trigger] entries@[k]).discord_user_id == recipient
                    && entries@[k].username@ == author@),
        decreases entries.len() - i,
    {
        if entries[i].discord_user_id == recipient && same_text(entries[i].username.as_str(), author) {
            return true;
        }
        i += 1;
    }
    false
}

} // verus!
