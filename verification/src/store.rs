//! The result store: for each scan id the matches of its search, in order.
//!
//! A result set comes into being with the first matches stored under its id
//! and stays until it is overwritten; nothing expires.

use crate::model::{views, Match, MatchView};
use vstd::prelude::*;

verus! {

struct ScanEntry {
    scan_id: String,
    matches: Vec<Match>,
}

/// Result sets by scan id.
pub struct ResultStore {
    entries: Vec<ScanEntry>,
}

/// The first index at or after `from` whose entry has the id `id`, or the
/// number of entries where there is none.
spec fn slot_from(entries: Seq<ScanEntry>, id: Seq<char>, from: int) -> int
    decreases entries.len() - from,
{
    if from >= entries.len() {
        entries.len() as int
    } else if entries[from].scan_id@ == id {
        from
    } else {
        slot_from(entries, id, from + 1)
    }
}

proof fn lemma_slot_from(entries: Seq<ScanEntry>, id: Seq<char>, from: int)
    requires
        0 <= from <= entries.len(),
    ensures
        from <= slot_from(entries, id, from) <= entries.len(),
        slot_from(entries, id, from) < entries.len() ==> entries[slot_from(
            entries,
            id,
            from,
        )].scan_id@ == id,
        forall|j: int| from <= j < slot_from(entries, id, from) ==> entries[j].scan_id@ != id,
    decreases entries.len() - from,
{
    if from < entries.len() && entries[from].scan_id@ != id {
        lemma_slot_from(entries, id, from + 1);
    }
}

/// The slot of an id is the one index that holds it with none before.
proof fn lemma_slot_is(entries: Seq<ScanEntry>, id: Seq<char>, k: int)
    requires
        0 <= k <= entries.len(),
        k < entries.len() ==> entries[k].scan_id@ == id,
        forall|j: int| 0 <= j < k ==> entries[j].scan_id@ != id,
    ensures
        slot_from(entries, id, 0) == k,
{
    lemma_slot_from(entries, id, 0);
}

/// Slots depend on the ids alone.
proof fn lemma_slot_same_ids(a: Seq<ScanEntry>, b: Seq<ScanEntry>, id: Seq<char>)
    requires
        a.len() == b.len(),
        forall|j: int| 0 <= j < a.len() ==> a[j].scan_id@ == b[j].scan_id@,
    ensures
        slot_from(a, id, 0) == slot_from(b, id, 0),
{
    lemma_slot_from(a, id, 0);
    lemma_slot_is(b, id, slot_from(a, id, 0));
}

/// One more entry at the end changes the slot of its own id only, and that
/// only where the id was absent.
proof fn lemma_slot_push(a: Seq<ScanEntry>, e: ScanEntry, id: Seq<char>)
    ensures
        slot_from(a, id, 0) < a.len() ==> slot_from(a.push(e), id, 0) == slot_from(a, id, 0),
        slot_from(a, id, 0) == a.len() && e.scan_id@ == id ==> slot_from(a.push(e), id, 0)
            == a.len(),
        slot_from(a, id, 0) == a.len() && e.scan_id@ != id ==> slot_from(a.push(e), id, 0)
            == a.len() + 1,
{
    lemma_slot_from(a, id, 0);
    let k = slot_from(a, id, 0);
    if k < a.len() {
        lemma_slot_is(a.push(e), id, k);
    } else if e.scan_id@ == id {
        lemma_slot_is(a.push(e), id, k);
    } else {
        lemma_slot_is(a.push(e), id, k + 1);
    }
}

spec fn view_of(entries: Seq<ScanEntry>) -> Map<Seq<char>, Seq<MatchView>> {
    Map::new(
        |id: Seq<char>| slot_from(entries, id, 0) < entries.len(),
        |id: Seq<char>| views(entries[slot_from(entries, id, 0)].matches@),
    )
}

/// Changing the matches of the entry that holds an id changes that id's
/// result set and no other.
proof fn lemma_view_update(
    before: Seq<ScanEntry>,
    after: Seq<ScanEntry>,
    at: int,
    scan_id: Seq<char>,
    now: Seq<MatchView>,
)
    requires
        after.len() == before.len(),
        0 <= at < before.len(),
        slot_from(before, scan_id, 0) == at,
        forall|j: int| 0 <= j < before.len() && j != at ==> after[j] == before[j],
        after[at].scan_id@ == before[at].scan_id@,
        views(after[at].matches@) == now,
    ensures
        view_of(after) == view_of(before).insert(scan_id, now),
{
    let target = view_of(before).insert(scan_id, now);
    lemma_slot_from(before, scan_id, 0);
    assert forall|id: Seq<char>|
        view_of(after).contains_key(id) == #[trigger] target.contains_key(id) && (
        target.contains_key(id) ==> view_of(after)[id] == target[id]) by {
        lemma_slot_same_ids(before, after, id);
        lemma_slot_from(before, id, 0);
    }
    assert(view_of(after) =~= target);
}

/// A new entry under an id that no entry holds adds that id's result set.
proof fn lemma_view_push(before: Seq<ScanEntry>, entry: ScanEntry, scan_id: Seq<char>)
    requires
        slot_from(before, scan_id, 0) == before.len(),
        entry.scan_id@ == scan_id,
    ensures
        view_of(before.push(entry)) == view_of(before).insert(scan_id, views(entry.matches@)),
{
    let after = before.push(entry);
    let target = view_of(before).insert(scan_id, views(entry.matches@));
    lemma_slot_from(before, scan_id, 0);
    assert forall|id: Seq<char>|
        view_of(after).contains_key(id) == #[trigger] target.contains_key(id) && (
        target.contains_key(id) ==> view_of(after)[id] == target[id]) by {
        lemma_slot_push(before, entry, id);
        lemma_slot_from(before, id, 0);
    }
    assert(view_of(after) =~= target);
}

impl View for ResultStore {
    type V = Map<Seq<char>, Seq<MatchView>>;

    /// The result sets: the matches stored under each id that has any.
    closed spec fn view(&self) -> Map<Seq<char>, Seq<MatchView>> {
        view_of(self.entries@)
    }
}

impl ResultStore {
    /// A store without result sets.
    pub fn new() -> (store: ResultStore)
        ensures
            store@ == Map::<Seq<char>, Seq<MatchView>>::empty(),
    {
        let store = ResultStore { entries: Vec::new() };
        proof {
            assert(store@ =~= Map::<Seq<char>, Seq<MatchView>>::empty());
        }
        store
    }

    fn find(&self, scan_id: &str) -> (at: Option<usize>)
        ensures
            at matches Some(i) ==> i < self.entries@.len() && slot_from(self.entries@, scan_id@, 0)
                == i,
            at is None ==> slot_from(self.entries@, scan_id@, 0) == self.entries@.len(),
    {
        let wanted = scan_id.to_owned();
        let mut i: usize = 0;
        while i < self.entries.len()
            invariant
                i <= self.entries@.len(),
                wanted@ == scan_id@,
                forall|j: int| 0 <= j < i ==> self.entries@[j].scan_id@ != scan_id@,
            decreases self.entries@.len() - i,
        {
            if self.entries[i].scan_id == wanted {
                proof {
                    lemma_slot_is(self.entries@, scan_id@, i as int);
                }
                return Some(i);
            }
            i = i + 1;
        }
        proof {
            lemma_slot_is(self.entries@, scan_id@, i as int);
        }
        None
    }

    /// Whether a result set stands under `scan_id`.
    pub fn contains(&self, scan_id: &str) -> (present: bool)
        ensures
            present == self@.contains_key(scan_id@),
    {
        self.find(scan_id).is_some()
    }

    /// The result set under `scan_id`.
    pub fn get(&self, scan_id: &str) -> (found: Option<&Vec<Match>>)
        ensures
            found is Some <==> self@.contains_key(scan_id@),
            found matches Some(matches) ==> views(matches@) == self@[scan_id@],
    {
        match self.find(scan_id) {
            Some(i) => Some(&self.entries[i].matches),
            None => None,
        }
    }

    /// The number of matches under `scan_id`.
    pub fn count(&self, scan_id: &str) -> (n: Option<usize>)
        ensures
            n is Some <==> self@.contains_key(scan_id@),
            n matches Some(k) ==> k == self@[scan_id@].len(),
    {
        match self.find(scan_id) {
            Some(i) => Some(self.entries[i].matches.len()),
            None => None,
        }
    }

    /// Empties the result set under `scan_id`, if there is one. It makes
    /// none.
    pub fn clear(&mut self, scan_id: &str)
        ensures
            old(self)@.contains_key(scan_id@) ==> final(self)@ == old(self)@.insert(
                scan_id@,
                Seq::empty(),
            ),
            !old(self)@.contains_key(scan_id@) ==> final(self)@ == old(self)@,
    {
        match self.find(scan_id) {
            Some(i) => {
                let ghost before = self.entries@;
                self.entries[i].matches = Vec::new();
                proof {
                    assert(views(self.entries@[i as int].matches@) =~= Seq::<MatchView>::empty());
                    lemma_view_update(
                        before,
                        self.entries@,
                        i as int,
                        scan_id@,
                        Seq::<MatchView>::empty(),
                    );
                }
            },
            None => {},
        }
    }

    /// Puts `matches` under `scan_id` in place of whatever stood there.
    pub fn replace(&mut self, scan_id: &str, matches: Vec<Match>)
        ensures
            final(self)@ == old(self)@.insert(scan_id@, views(matches@)),
    {
        let ghost before = self.entries@;
        match self.find(scan_id) {
            Some(i) => {
                self.entries[i].matches = matches;
                proof {
                    lemma_view_update(before, self.entries@, i as int, scan_id@, views(matches@));
                }
            },
            None => {
                let entry = ScanEntry { scan_id: scan_id.to_owned(), matches };
                self.entries.push(entry);
                proof {
                    lemma_view_push(before, entry, scan_id@);
                }
            },
        }
    }

    /// Adds `matches` at the end of the result set under `scan_id`; where
    /// there is none, `matches` becomes the result set.
    pub fn append(&mut self, scan_id: &str, matches: Vec<Match>)
        ensures
            final(self)@ == old(self)@.insert(
                scan_id@,
                stored(old(self)@, scan_id@) + views(matches@),
            ),
    {
        let ghost before = self.entries@;
        match self.find(scan_id) {
            Some(i) => {
                let mut more = matches;
                self.entries[i].matches.append(&mut more);
                proof {
                    assert(views(before[i as int].matches@ + matches@) =~= views(
                        before[i as int].matches@,
                    ) + views(matches@));
                    lemma_view_update(
                        before,
                        self.entries@,
                        i as int,
                        scan_id@,
                        stored(view_of(before), scan_id@) + views(matches@),
                    );
                }
            },
            None => {
                proof {
                    assert(Seq::<MatchView>::empty() + views(matches@) =~= views(matches@));
                }
                self.replace(scan_id, matches);
            },
        }
    }
}

/// The matches under `scan_id` in `sets`; none where there is no such set.
pub open spec fn stored(sets: Map<Seq<char>, Seq<MatchView>>, scan_id: Seq<char>) -> Seq<
    MatchView,
> {
    if sets.contains_key(scan_id) {
        sets[scan_id]
    } else {
        Seq::empty()
    }
}

} // verus!
