//! One input record: a conversation turn or a commit.
use vstd::prelude::*;
use crate::text::{chars_of, collapse_whitespace, collapse_ws, string_of};

verus! {

/// A single record of the stream that is indexed.
#[derive(Debug, Clone)]
pub struct ConversationTurn {
    pub turn_id: u64,
    pub speaker: String,
    pub content: String,
    pub topic: String,
    pub entities: Vec<String>,
    /// Identifier of the commit the record came from, if any.
    pub commit_id: Option<String>,
    /// Seconds since the Unix epoch.
    pub timestamp: u64,
}

impl ConversationTurn {
    /// The content with each run of whitespace made one space and the ends
    /// trimmed.
    pub fn clean_context(&self) -> (r: String)
        ensures
            r@ == collapse_ws(self.content@),
    {
        let (_, collapsed) = collapse_whitespace(&chars_of(self.content.as_str()));
        string_of(&collapsed)
    }
}

/// Whether a record with this commit id is new against the `known` ids: a
/// record without a commit id always is.
pub fn is_new_commit(commit_id: &Option<String>, known: &Vec<String>) -> (r: bool)
    ensures
        r == match commit_id {
            None => true,
            Some(c) => forall|i: int| 0 <= i < known.len() ==> known@[i]@ != c@,
        },
{
    match commit_id {
        None => true,
        Some(c) => {
            let mut i: usize = 0;
            while i < known.len()
                invariant
                    i <= known.len(),
                    commit_id matches Some(x) && x@ == c@,
                    forall|j: int| 0 <= j < i ==> known@[j]@ != c@,
                decreases known.len() - i,
            {
                if known[i].eq(c) {
                    assert(known@[i as int]@ == c@);
                    return false;
                }
                i = i + 1;
            }
            true
        },
    }
}

/// The largest turn id among `ids`, or 0 when there is none.
pub fn max_turn_id(ids: &Vec<u64>) -> (r: u64)
    ensures
        forall|i: int| 0 <= i < ids.len() ==> ids@[i] <= r,
        ids.len() == 0 ==> r == 0,
        ids.len() > 0 ==> exists|i: int| 0 <= i < ids.len() && ids@[i] == r,
{
    let mut top: u64 = 0;
    let mut i: usize = 0;
    while i < ids.len()
        invariant
            i <= ids.len(),
            forall|j: int| 0 <= j < i ==> ids@[j] <= top,
            i == 0 ==> top == 0,
            i > 0 ==> exists|j: int| 0 <= j < i && ids@[j] == top,
        decreases ids.len() - i,
    {
        if i == 0 || ids[i] > top {
            top = ids[i];
        }
        i = i + 1;
    }
    top
}

/// Number the records after `last`: the record at position `i` gets id
/// `last + i + 1`, saturating at the largest `u64`; nothing else changes.
pub fn assign_turn_ids(turns: &mut Vec<ConversationTurn>, last: u64)
    ensures
        final(turns).len() == old(turns).len(),
        forall|i: int| 0 <= i < final(turns).len() ==> (#[trigger] final(turns)@[i]).turn_id == (if last + i + 1 <= u64::MAX {
            last + i + 1
        } else {
            u64::MAX as int
        }) && final(turns)@[i].content == old(turns)@[i].content && final(turns)@[i].commit_id == old(turns)@[i].commit_id
            && final(turns)@[i].timestamp == old(turns)@[i].timestamp && final(turns)@[i].speaker == old(turns)@[i].speaker
            && final(turns)@[i].topic == old(turns)@[i].topic && final(turns)@[i].entities == old(turns)@[i].entities,
{
    let ghost start = turns@;
    let mut i: usize = 0;
    while i < turns.len()
        invariant
            i <= turns.len() == start.len(),
            start == old(turns)@,
            forall|j: int| 0 <= j < turns.len() ==> (#[trigger] turns@[j]).content == start[j].content && turns@[j].commit_id == start[j].commit_id
                && turns@[j].timestamp == start[j].timestamp && turns@[j].speaker == start[j].speaker
                && turns@[j].topic == start[j].topic && turns@[j].entities == start[j].entities,
            forall|j: int| 0 <= j < i ==> (#[trigger] turns@[j]).turn_id == (if last + j + 1 <= u64::MAX {
                last + j + 1
            } else {
                u64::MAX as int
            }),
        decreases turns.len() - i,
    {
        let offset: u64 = if i as u64 >= u64::MAX { u64::MAX } else { i as u64 + 1 };
        let id = last.saturating_add(offset);
        turns[i].turn_id = id;
        i = i + 1;
    }
}

} // verus!
