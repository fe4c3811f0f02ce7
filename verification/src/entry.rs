//! A dated journal entry: a store-assigned id, a creation timestamp that
//! edits never change, free text content, and an ordered tag sequence.

use vstd::prelude::*;

use crate::text::copy_range;
use crate::text::tags_view;

verus! {

/// The mathematical content of a journal entry.
#[verifier::ext_equal]
pub ghost struct EntryModel {
    pub id: int,
    pub timestamp: Seq<char>,
    pub content: Seq<char>,
    pub tags: Seq<Seq<char>>,
}

/// A journal entry. The id is assigned by the store, never by the caller;
/// the timestamp is captured at creation and kept verbatim by edits.
pub struct DiaryEntry {
    pub id: u64,
    pub timestamp: Vec<char>,
    pub content: Vec<char>,
    pub tags: Vec<Vec<char>>,
}

impl View for DiaryEntry {
    type V = EntryModel;

    open spec fn view(&self) -> EntryModel {
        EntryModel {
            id: self.id as int,
            timestamp: self.timestamp@,
            content: self.content@,
            tags: tags_view(self.tags@),
        }
    }
}

impl DiaryEntry {
    /// A fresh entry carrying the given id, content and tags, stamped with
    /// the clock at the moment of the call; nothing is known of the stamp.
    pub fn new(id: u64, content: Vec<char>, tags: Vec<Vec<char>>) -> (r: Self)
        ensures
            r@.id == id as int,
            r@.content == content@,
            r@.tags == tags_view(tags@),
    {
        DiaryEntry { id, timestamp: now_rfc3339(), content, tags }
    }

    /// An identical copy of this entry.
    pub fn duplicate(&self) -> (r: Self)
        ensures
            r@ == self@,
    {
        let timestamp = copy_range(&self.timestamp, 0, self.timestamp.len());
        let content = copy_range(&self.content, 0, self.content.len());
        let mut tags: Vec<Vec<char>> = Vec::new();
        let mut k: usize = 0;
        while k < self.tags.len()
            invariant
                k <= self.tags@.len(),
                tags_view(tags@) =~= tags_view(self.tags@).subrange(0, k as int),
            decreases self.tags@.len() - k,
        {
            let t = copy_range(&self.tags[k], 0, self.tags[k].len());
            proof {
                assert(self.tags@[k as int]@.subrange(0, self.tags@[k as int]@.len() as int)
                    =~= self.tags@[k as int]@);
            }
            let ghost pre = tags@;
            tags.push(t);
            proof {
                assert(tags@ == pre.push(t));
                assert(tags_view(pre).len() == pre.len());
                assert(pre.len() == k);
                assert(t@ == self.tags@[k as int]@);
                assert forall|a: int| 0 <= a < tags@.len() implies tags_view(tags@)[a]
                    == tags_view(self.tags@).subrange(0, (k + 1) as int)[a] by {
                    assert(tags_view(tags@)[a] == tags@[a]@);
                    assert(tags_view(self.tags@).subrange(0, (k + 1) as int)[a] == self.tags@[a]@);
                    if a < k {
                        assert(tags@[a] == pre[a]);
                        assert(tags_view(pre)[a] == pre[a]@);
                        assert(tags_view(pre)[a] == tags_view(self.tags@).subrange(0, k as int)[a]);
                    } else {
                        assert(tags@[a] == t);
                    }
                }
                assert(tags_view(tags@) =~= tags_view(self.tags@).subrange(0, (k + 1) as int));
            }
            k += 1;
        }
        let r = DiaryEntry { id: self.id, timestamp, content, tags };
        proof {
            assert(self.timestamp@.subrange(0, self.timestamp@.len() as int) =~= self.timestamp@);
            assert(self.content@.subrange(0, self.content@.len() as int) =~= self.content@);
            assert(tags_view(tags@) =~= tags_view(self.tags@));
            assert(r@ =~= self@);
        }
        r
    }
}

/// Relies on `chrono::Local::now` for the current local time and on
/// `chrono::DateTime::to_rfc3339` for its timestamp string. The result
/// depends on the clock, so nothing is promised of it.
#[verifier::external_body]
fn now_rfc3339() -> Vec<char> {
    chrono::Local::now().to_rfc3339().chars().collect()
}

} // verus!
