//! The authoritative collection of journal entries: identity assignment,
//! create/update/delete, listing and case-insensitive search. Ids are
//! issued by a monotonic counter and never reused, and the entries always
//! stand in insertion order with strictly increasing ids.

use vstd::prelude::*;
use vstd::pervasive::VecAdditionalExecFns;

use crate::entry::{DiaryEntry, EntryModel};
use crate::text::{contains_chars, contains_seq, lower_chars, lower_of};

verus! {

/// The mathematical state of the store: the entries in insertion order and
/// the id the next creation will receive.
#[verifier::ext_equal]
pub ghost struct StateModel {
    pub entries: Seq<EntryModel>,
    pub next_id: int,
}

/// The sequence of entry models a vector of entries holds.
pub open spec fn entries_view(es: Seq<DiaryEntry>) -> Seq<EntryModel> {
    es.map_values(|e: DiaryEntry| e@)
}

/// Well-formedness of a store state: the counter has been at least 1 from
/// the start, every issued id lies in `[1, next_id)`, and ids strictly
/// increase in insertion order (so they are pairwise distinct).
pub open spec fn st_wf(m: StateModel) -> bool {
    &&& m.next_id >= 1
    &&& forall|i: int| 0 <= i < m.entries.len() ==> 1 <= #[trigger] m.entries[i].id < m.next_id
    &&& forall|i: int, j: int|
        0 <= i < j < m.entries.len() ==> #[trigger] m.entries[i].id < #[trigger] m.entries[j].id
}

/// Creation: the new entry receives the counter's value as its id and is
/// appended; the counter moves past it and never returns.
pub open spec fn st_add(m: StateModel, e: EntryModel) -> StateModel {
    StateModel {
        entries: m.entries.push(
            EntryModel { id: m.next_id, timestamp: e.timestamp, content: e.content, tags: e.tags },
        ),
        next_id: m.next_id + 1,
    }
}

/// Index of the first entry at or after `i` whose id is `id`, or `-1`.
pub open spec fn idx_of_id_from(es: Seq<EntryModel>, id: int, i: int) -> int
    decreases es.len() - i,
{
    if i < 0 || i >= es.len() {
        -1
    } else if es[i].id == id {
        i
    } else {
        idx_of_id_from(es, id, i + 1)
    }
}

/// Update: when an entry with the id of `e` is present it is replaced by
/// `e` verbatim; otherwise the state is unchanged.
pub open spec fn st_update(m: StateModel, e: EntryModel) -> StateModel {
    let k = idx_of_id_from(m.entries, e.id, 0);
    if k < 0 {
        m
    } else {
        StateModel { entries: m.entries.update(k, e), next_id: m.next_id }
    }
}

/// The entries from `i` on whose id differs from `id`, in order.
pub open spec fn remove_id_from(es: Seq<EntryModel>, id: int, i: int) -> Seq<EntryModel>
    decreases es.len() - i,
{
    if i < 0 || i >= es.len() {
        Seq::empty()
    } else if es[i].id == id {
        remove_id_from(es, id, i + 1)
    } else {
        seq![es[i]] + remove_id_from(es, id, i + 1)
    }
}

/// Deletion: every entry with the given id is removed; the counter is
/// untouched, so the id is never issued again.
pub open spec fn st_delete(m: StateModel, id: int) -> StateModel {
    StateModel { entries: remove_id_from(m.entries, id, 0), next_id: m.next_id }
}

/// Whether an entry matches an already-lowercased query: the query occurs
/// in the lowercased content or in some lowercased tag.
pub open spec fn entry_matches(e: EntryModel, lq: Seq<char>) -> bool {
    ||| contains_seq(lower_of(e.content), lq)
    ||| exists|k: int| 0 <= k < e.tags.len() && contains_seq(lower_of(#[trigger] e.tags[k]), lq)
}

/// The entries from `i` on that match the lowercased query, in order.
pub open spec fn matches_from(es: Seq<EntryModel>, lq: Seq<char>, i: int) -> Seq<EntryModel>
    decreases es.len() - i,
{
    if i < 0 || i >= es.len() {
        Seq::empty()
    } else if entry_matches(es[i], lq) {
        seq![es[i]] + matches_from(es, lq, i + 1)
    } else {
        matches_from(es, lq, i + 1)
    }
}

/// Search: the entries matching the lowercased query, in insertion order.
pub open spec fn st_search(m: StateModel, lq: Seq<char>) -> Seq<EntryModel> {
    matches_from(m.entries, lq, 0)
}

/// What `idx_of_id_from` finds: `-1` exactly when no entry from `i` on has
/// the id, and otherwise the first index that does.
pub proof fn lemma_idx_of_id_from_props(es: Seq<EntryModel>, id: int, i: int)
    requires
        0 <= i <= es.len(),
    ensures
        idx_of_id_from(es, id, i) == -1 ==> forall|j: int|
            i <= j < es.len() ==> #[trigger] es[j].id != id,
        idx_of_id_from(es, id, i) != -1 ==> {
            let k = idx_of_id_from(es, id, i);
            &&& i <= k < es.len()
            &&& es[k].id == id
            &&& forall|j: int| i <= j < k ==> #[trigger] es[j].id != id
        },
    decreases es.len() - i,
{
    if i < es.len() && es[i].id != id {
        lemma_idx_of_id_from_props(es, id, i + 1);
    }
}

/// What remains after `remove_id_from`: fewer entries, drawn from the
/// original tail in order, none carrying the removed id.
pub proof fn lemma_remove_id_from_props(es: Seq<EntryModel>, id: int, i: int)
    requires
        0 <= i <= es.len(),
        forall|p: int, q: int|
            i <= p < q < es.len() ==> #[trigger] es[p].id < #[trigger] es[q].id,
    ensures
        remove_id_from(es, id, i).len() <= es.len() - i,
        forall|a: int, b: int|
            0 <= a < b < remove_id_from(es, id, i).len() ==> #[trigger] remove_id_from(
                es,
                id,
                i,
            )[a].id < #[trigger] remove_id_from(es, id, i)[b].id,
        forall|a: int|
            0 <= a < remove_id_from(es, id, i).len() ==> exists|j: int|
                i <= j < es.len() && #[trigger] remove_id_from(es, id, i)[a] == es[j],
        forall|a: int|
            0 <= a < remove_id_from(es, id, i).len() ==> #[trigger] remove_id_from(
                es,
                id,
                i,
            )[a].id != id,
    decreases es.len() - i,
{
    let res = remove_id_from(es, id, i);
    if i >= es.len() {
    } else {
        lemma_remove_id_from_props(es, id, i + 1);
        let rest = remove_id_from(es, id, i + 1);
        if es[i].id == id {
        } else {
            assert(res == seq![es[i]] + rest);
            assert forall|a: int| 0 <= a < res.len() implies exists|j: int|
                i <= j < es.len() && #[trigger] res[a] == es[j] by {
                if a == 0 {
                    assert(res[0] == es[i]);
                } else {
                    let aa = a - 1;
                    assert(res[a] == rest[aa]);
                    let j = choose|j: int| i + 1 <= j < es.len() && #[trigger] rest[aa] == es[j];
                    assert(res[a] == es[j]);
                }
            }
            assert forall|a: int, b: int| 0 <= a < b < res.len() implies #[trigger] res[a].id
                < #[trigger] res[b].id by {
                if a == 0 {
                    let bb = b - 1;
                    assert(res[b] == rest[bb]);
                    let j = choose|j: int| i + 1 <= j < es.len() && #[trigger] rest[bb] == es[j];
                    assert(es[i].id < es[j].id);
                } else {
                    assert(res[a] == rest[a - 1]);
                    assert(res[b] == rest[b - 1]);
                }
            }
        }
    }
}

/// Creation keeps the store well formed: the fresh entry's id is the
/// counter value, above every id already present, and the counter moves on.
pub proof fn lemma_add_preserves_wf(m: StateModel, e: EntryModel)
    requires
        st_wf(m),
    ensures
        st_wf(st_add(m, e)),
        st_add(m, e).entries.last().id == m.next_id,
        forall|i: int|
            0 <= i < m.entries.len() ==> #[trigger] m.entries[i].id < st_add(
                m,
                e,
            ).entries.last().id,
{
    let m2 = st_add(m, e);
    assert forall|i: int, j: int| 0 <= i < j < m2.entries.len() implies #[trigger] m2.entries[i].id
        < #[trigger] m2.entries[j].id by {
        if j == m2.entries.len() - 1 {
            assert(m2.entries[i] == m.entries[i]);
        }
    }
}

/// An update replaces in place and keeps the store well formed: the stored
/// id and the position do not change.
pub proof fn lemma_update_preserves_wf(m: StateModel, e: EntryModel)
    requires
        st_wf(m),
    ensures
        st_wf(st_update(m, e)),
{
    lemma_idx_of_id_from_props(m.entries, e.id, 0);
    let k = idx_of_id_from(m.entries, e.id, 0);
    if k >= 0 {
        let m2 = st_update(m, e);
        assert(m2.entries[k].id == m.entries[k].id);
        assert forall|i: int, j: int| 0 <= i < j < m2.entries.len() implies #[trigger] m2
            .entries[i].id < #[trigger] m2.entries[j].id by {
            assert(m2.entries[i].id == m.entries[i].id);
            assert(m2.entries[j].id == m.entries[j].id);
        }
        assert forall|i: int| 0 <= i < m2.entries.len() implies 1 <= #[trigger] m2.entries[i].id
            < m2.next_id by {
            assert(m2.entries[i].id == m.entries[i].id);
        }
    }
}

/// Deletion keeps the store well formed and does not touch the counter.
pub proof fn lemma_delete_preserves_wf(m: StateModel, id: int)
    requires
        st_wf(m),
    ensures
        st_wf(st_delete(m, id)),
        st_delete(m, id).next_id == m.next_id,
{
    lemma_remove_id_from_props(m.entries, id, 0);
    let m2 = st_delete(m, id);
    assert forall|i: int| 0 <= i < m2.entries.len() implies 1 <= #[trigger] m2.entries[i].id
        < m2.next_id by {
        let j = choose|j: int| 0 <= j < m.entries.len() && #[trigger] m2.entries[i] == m.entries[j];
        assert(1 <= m.entries[j].id < m.next_id);
    }
}

/// In a well-formed store the ids are strictly increasing in insertion
/// order, and so pairwise distinct, whatever deletions came before.
pub proof fn lemma_ids_strictly_increasing(m: StateModel)
    requires
        st_wf(m),
    ensures
        forall|i: int, j: int|
            0 <= i < j < m.entries.len() ==> #[trigger] m.entries[i].id < #[trigger] m.entries[j].id,
        forall|i: int, j: int|
            0 <= i < m.entries.len() && 0 <= j < m.entries.len() && i != j ==> #[trigger] m
                .entries[i].id != #[trigger] m.entries[j].id,
{
}

/// Deleting an issued id and then creating never hands the deleted id out
/// again: the fresh id is strictly greater.
pub proof fn lemma_deleted_id_not_reused(m: StateModel, id: int, e: EntryModel)
    requires
        st_wf(m),
        exists|i: int| 0 <= i < m.entries.len() && #[trigger] m.entries[i].id == id,
    ensures
        st_add(st_delete(m, id), e).entries.last().id > id,
{
    let i = choose|i: int| 0 <= i < m.entries.len() && #[trigger] m.entries[i].id == id;
    assert(id < m.next_id);
    lemma_delete_preserves_wf(m, id);
    lemma_add_preserves_wf(st_delete(m, id), e);
}

/// An update whose id no entry carries leaves the state unchanged,
/// byte for byte.
pub proof fn lemma_update_absent_id(m: StateModel, e: EntryModel)
    requires
        forall|i: int| 0 <= i < m.entries.len() ==> #[trigger] m.entries[i].id != e.id,
    ensures
        st_update(m, e) == m,
{
    lemma_idx_of_id_from_props(m.entries, e.id, 0);
    if idx_of_id_from(m.entries, e.id, 0) >= 0 {
        let k = idx_of_id_from(m.entries, e.id, 0);
        assert(m.entries[k].id != e.id);
    }
}

/// Every entry matches the empty query: the empty sequence occurs in every
/// content.
pub proof fn lemma_empty_query_matches(e: EntryModel)
    ensures
        entry_matches(e, Seq::<char>::empty()),
{
    let hay = lower_of(e.content);
    let empty = Seq::<char>::empty();
    assert(hay.subrange(0, 0 + empty.len() as int) =~= empty);
    assert(contains_seq(hay, empty));
}

proof fn lemma_matches_from_all(es: Seq<EntryModel>, lq: Seq<char>, i: int)
    requires
        0 <= i <= es.len(),
        forall|j: int| i <= j < es.len() ==> entry_matches(#[trigger] es[j], lq),
    ensures
        matches_from(es, lq, i) =~= es.subrange(i, es.len() as int),
    decreases es.len() - i,
{
    if i < es.len() {
        lemma_matches_from_all(es, lq, i + 1);
        assert(matches_from(es, lq, i) == seq![es[i]] + matches_from(es, lq, i + 1));
        assert(seq![es[i]] + es.subrange(i + 1, es.len() as int) =~= es.subrange(
            i,
            es.len() as int,
        ));
    }
}

/// The empty query matches everything: searching with it returns the whole
/// collection in insertion order.
pub proof fn lemma_search_empty_returns_all(m: StateModel)
    ensures
        st_search(m, Seq::<char>::empty()) == m.entries,
{
    assert forall|j: int| 0 <= j < m.entries.len() implies entry_matches(
        #[trigger] m.entries[j],
        Seq::<char>::empty(),
    ) by {
        lemma_empty_query_matches(m.entries[j]);
    }
    lemma_matches_from_all(m.entries, Seq::<char>::empty(), 0);
    assert(m.entries.subrange(0, m.entries.len() as int) =~= m.entries);
}

/// The single authoritative collection of entries plus the id counter.
/// Mutations never fail in memory; persistence is a separate step over the
/// byte form of the state.
pub struct DiaryState {
    entries: Vec<DiaryEntry>,
    next_id: u64,
}

impl View for DiaryState {
    type V = StateModel;

    closed spec fn view(&self) -> StateModel {
        StateModel { entries: entries_view(self.entries@), next_id: self.next_id as int }
    }
}

impl DiaryState {
    #[verifier::type_invariant]
    spec fn inv(self) -> bool {
        st_wf(self@)
    }

    /// A fresh store: no entries, the first id to be issued is 1.
    pub fn new() -> (r: Self)
        ensures
            r@.entries == Seq::<EntryModel>::empty(),
            r@.next_id == 1,
    {
        let r = DiaryState { entries: Vec::new(), next_id: 1 };
        proof {
            assert(entries_view(r.entries@) =~= Seq::<EntryModel>::empty());
        }
        r
    }

    /// A store assembled from parts already shown well formed; the decoder
    /// builds reloaded stores through this.
    pub(crate) fn from_parts(entries: Vec<DiaryEntry>, next_id: u64) -> (r: Self)
        requires
            st_wf((StateModel { entries: entries_view(entries@), next_id: next_id as int })),
        ensures
            r@.entries == entries_view(entries@),
            r@.next_id == next_id as int,
    {
        DiaryState { entries, next_id }
    }

    /// The id the next created entry will receive.
    pub fn next_id(&self) -> (r: u64)
        ensures
            r as int == self@.next_id,
    {
        self.next_id
    }

    /// The entries in insertion order, oldest first; read-only.
    pub fn get_entries(&self) -> (r: &Vec<DiaryEntry>)
        ensures
            entries_view(r@) == self@.entries,
    {
        &self.entries
    }

    /// Appends `entry` under a freshly issued id and returns the entry as
    /// stored; whatever id the caller put on it is overwritten, as the
    /// store alone assigns identity.
    pub fn add_entry(&mut self, entry: DiaryEntry) -> (r: DiaryEntry)
        requires
            old(self)@.next_id < u64::MAX,
        ensures
            final(self)@ == st_add(old(self)@, entry@),
            r@ == final(self)@.entries.last(),
    {
        let ghost e0 = entry@;
        proof {
            use_type_invariant(&*self);
            lemma_add_preserves_wf(old(self)@, e0);
        }
        let mut entry = entry;
        entry.id = self.next_id;
        proof {
            assert(entry@ =~= (EntryModel {
                id: old(self)@.next_id,
                timestamp: e0.timestamp,
                content: e0.content,
                tags: e0.tags,
            }));
        }
        self.next_id = self.next_id + 1;
        let returned = entry.duplicate();
        let mut es: Vec<DiaryEntry> = Vec::new();
        core::mem::swap(&mut es, &mut self.entries);
        let ghost pre = es@;
        es.push(entry);
        let ghost m2 = StateModel { entries: entries_view(es@), next_id: self.next_id as int };
        proof {
            assert(entries_view(es@) =~= entries_view(pre).push(entry@));
            assert(entries_view(pre) == old(self)@.entries);
            assert(m2 =~= st_add(old(self)@, e0));
            assert(st_wf(m2));
        }
        self.entries = es;
        proof {
            assert(self@ =~= m2);
            assert(returned@ == self@.entries.last());
        }
        returned
    }

    /// Replaces the stored entry that carries the id of `updated`, verbatim,
    /// timestamp included; when no entry carries it, the store is unchanged.
    pub fn update_entry(&mut self, updated: DiaryEntry)
        ensures
            final(self)@ == st_update(old(self)@, updated@),
    {
        proof {
            use_type_invariant(&*self);
            lemma_update_preserves_wf(old(self)@, updated@);
            lemma_idx_of_id_from_props(old(self)@.entries, updated@.id, 0);
        }
        let mut es: Vec<DiaryEntry> = Vec::new();
        core::mem::swap(&mut es, &mut self.entries);
        let ghost ev = entries_view(es@);
        let n = es.len();
        let mut i: usize = 0;
        while i < n
            invariant
                n == es@.len(),
                i <= n,
                ev == entries_view(es@),
                ev == old(self)@.entries,
                self.next_id == old(self).next_id,
                st_wf(old(self)@),
                idx_of_id_from(ev, updated@.id, 0) == idx_of_id_from(ev, updated@.id, i as int),
            decreases n - i,
        {
            if es[i].id == updated.id {
                assert(ev[i as int].id == updated@.id);
                assert(idx_of_id_from(ev, updated@.id, i as int) == i as int);
                es.set(i, updated);
                let ghost m2 = StateModel {
                    entries: entries_view(es@),
                    next_id: self.next_id as int,
                };
                proof {
                    lemma_update_preserves_wf(old(self)@, updated@);
                    assert(entries_view(es@) =~= ev.update(i as int, updated@));
                    assert(ev == old(self)@.entries);
                    assert(m2 =~= st_update(old(self)@, updated@));
                    assert(st_wf(m2));
                }
                self.entries = es;
                proof {
                    assert(self@ =~= m2);
                }
                return ;
            }
            assert(ev[i as int].id != updated@.id);
            i += 1;
        }
        let ghost m2 = StateModel { entries: entries_view(es@), next_id: self.next_id as int };
        proof {
            lemma_update_preserves_wf(old(self)@, updated@);
            assert(idx_of_id_from(ev, updated@.id, i as int) == -1);
            assert(idx_of_id_from(ev, updated@.id, 0) == -1);
            assert(ev == old(self)@.entries);
            assert(m2 =~= st_update(old(self)@, updated@));
            assert(st_wf(m2));
        }
        self.entries = es;
        proof {
            assert(self@ =~= m2);
        }
    }

    /// Removes every entry carrying `id` (at most one, ids being unique);
    /// removing an absent id leaves the store unchanged. The counter is
    /// untouched, so the id is never issued again.
    pub fn delete_entry(&mut self, id: u64)
        ensures
            final(self)@ == st_delete(old(self)@, id as int),
    {
        proof {
            use_type_invariant(&*self);
            lemma_delete_preserves_wf(old(self)@, id as int);
        }
        let mut es: Vec<DiaryEntry> = Vec::new();
        core::mem::swap(&mut es, &mut self.entries);
        let ghost ev = entries_view(es@);
        let ghost full = remove_id_from(ev, id as int, 0);
        let mut out: Vec<DiaryEntry> = Vec::new();
        let n = es.len();
        let mut i: usize = 0;
        while i < n
            invariant
                n == es@.len(),
                i <= n,
                ev == entries_view(es@),
                ev == old(self)@.entries,
                self.next_id == old(self).next_id,
                st_wf(old(self)@),
                full == remove_id_from(ev, id as int, 0),
                full =~= entries_view(out@) + remove_id_from(ev, id as int, i as int),
            decreases n - i,
        {
            let ghost pre = out@;
            if es[i].id != id {
                let kept = es[i].duplicate();
                out.push(kept);
                proof {
                    assert(ev[i as int].id != id as int);
                    assert(entries_view(out@) =~= entries_view(pre).push(ev[i as int]));
                    assert(remove_id_from(ev, id as int, i as int) == seq![ev[i as int]]
                        + remove_id_from(ev, id as int, i + 1));
                    assert(full =~= entries_view(out@) + remove_id_from(ev, id as int, i + 1));
                }
            } else {
                proof {
                    assert(ev[i as int].id == id as int);
                }
            }
            i += 1;
        }
        let ghost m2 = StateModel { entries: entries_view(out@), next_id: self.next_id as int };
        proof {
            lemma_delete_preserves_wf(old(self)@, id as int);
            assert(entries_view(out@) =~= full);
            assert(ev == old(self)@.entries);
            assert(m2 =~= st_delete(old(self)@, id as int));
            assert(st_wf(m2));
        }
        self.entries = out;
        proof {
            assert(self@ =~= m2);
        }
    }

    /// The entries whose lowercased content or tags contain the lowercased
    /// query, in insertion order; the empty query matches every entry.
    pub fn search_entries(&self, query: &Vec<char>) -> (r: Vec<DiaryEntry>)
        ensures
            entries_view(r@) == st_search(self@, lower_of(query@)),
    {
        let lq = lower_chars(query);
        let ghost ev = self@.entries;
        let ghost full = matches_from(ev, lq@, 0);
        let mut out: Vec<DiaryEntry> = Vec::new();
        let n = self.entries.len();
        let mut i: usize = 0;
        while i < n
            invariant
                n == self.entries@.len(),
                i <= n,
                ev == entries_view(self.entries@),
                lq@ == lower_of(query@),
                full == matches_from(ev, lq@, 0),
                full =~= entries_view(out@) + matches_from(ev, lq@, i as int),
            decreases n - i,
        {
            let ghost pre = out@;
            if entry_matches_exec(&self.entries[i], &lq) {
                let found = self.entries[i].duplicate();
                out.push(found);
                proof {
                    assert(entry_matches(ev[i as int], lq@));
                    assert(entries_view(out@) =~= entries_view(pre).push(ev[i as int]));
                    assert(matches_from(ev, lq@, i as int) == seq![ev[i as int]] + matches_from(
                        ev,
                        lq@,
                        i + 1,
                    ));
                    assert(full =~= entries_view(out@) + matches_from(ev, lq@, i + 1));
                }
            } else {
                proof {
                    assert(!entry_matches(ev[i as int], lq@));
                }
            }
            i += 1;
        }
        proof {
            assert(entries_view(out@) =~= full);
        }
        out
    }
}

/// Whether the entry's lowercased content or one of its lowercased tags
/// contains the already-lowercased query.
fn entry_matches_exec(e: &DiaryEntry, lq: &Vec<char>) -> (r: bool)
    ensures
        r == entry_matches(e@, lq@),
{
    let lc = lower_chars(&e.content);
    if contains_chars(&lc, lq) {
        return true;
    }
    let n = e.tags.len();
    let mut k: usize = 0;
    while k < n
        invariant
            n == e.tags@.len(),
            k <= n,
            forall|j: int| 0 <= j < k ==> !contains_seq(lower_of(#[trigger] e@.tags[j]), lq@),
        decreases n - k,
    {
        let lt = lower_chars(&e.tags[k]);
        if contains_chars(&lt, lq) {
            proof {
                assert(e@.tags[k as int] == e.tags@[k as int]@);
                assert(contains_seq(lower_of(e@.tags[k as int]), lq@));
            }
            return true;
        }
        proof {
            assert(e@.tags[k as int] == e.tags@[k as int]@);
        }
        k += 1;
    }
    false
}

} // verus!
