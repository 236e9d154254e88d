//! A scan from its first chunk to its answer.
//!
//! A scan empties the result set of its id, searches chunk after chunk, and
//! leaves all matches in the store. The matches of a chunk that finds more
//! than `MAX_RESULTS` go to the store at once; the others wait and follow
//! when the last chunk is done. The count of matches found runs alongside
//! and does not depend on how many of them an answer lists.

use crate::chunks::{plan, plan_chunks, Chunk};
use crate::model::{
    copy_prefix, views, DataType, FindMode, Match, MatchView, MemoryScanRequest, ScanResponse,
    MAX_RESULTS,
};
use crate::scan::{chunk_matches, lemma_chunk_matches_aligned, scan_chunk};
use crate::store::{stored, ResultStore};
use crate::target::{ApiError, TargetContext};
use vstd::prelude::*;

verus! {

/// `n`, or the largest `usize` where `n` is larger.
pub open spec fn clamp(n: int) -> int {
    if n > usize::MAX {
        usize::MAX as int
    } else {
        n
    }
}

/// The number of leading matches of a set of `len` that an answer lists.
pub open spec fn listed(len: nat) -> int {
    if len > MAX_RESULTS {
        MAX_RESULTS as int
    } else {
        len as int
    }
}

/// Whether `response` is the answer for the result set `set` with `found`
/// matches counted: in full, the first `MAX_RESULTS` matches of the set and
/// whether more were left out; else the count alone.
pub open spec fn answers(response: ScanResponse, set: Seq<MatchView>, found: int, detailed: bool) -> bool {
    match response {
        ScanResponse::Full { matched_addresses, found: counted, is_rounded } => {
            &&& detailed
            &&& views(matched_addresses@) == set.take(listed(set.len()))
            &&& counted == found
            &&& is_rounded == (set.len() > MAX_RESULTS)
        },
        ScanResponse::Count { found: counted } => !detailed && counted == found,
    }
}

/// The answer for the result set `set` with `found` matches counted.
pub fn make_response(set: &Vec<Match>, found: usize, detailed: bool) -> (response: ScanResponse)
    ensures
        answers(response, views(set@), found as int, detailed),
{
    if detailed {
        let shown = if set.len() > MAX_RESULTS {
            MAX_RESULTS
        } else {
            set.len()
        };
        let matched_addresses = copy_prefix(set, shown);
        ScanResponse::Full { matched_addresses, found, is_rounded: shown != set.len() }
    } else {
        ScanResponse::Count { found }
    }
}

/// Of the matches of the chunks searched so far, those that went to the
/// store at once: the matches of every chunk that found more than
/// `MAX_RESULTS`, chunk after chunk.
pub open spec fn spilled(results: Seq<Seq<MatchView>>) -> Seq<MatchView>
    decreases results.len(),
{
    if results.len() == 0 {
        Seq::empty()
    } else if results.last().len() > MAX_RESULTS {
        spilled(results.drop_last()) + results.last()
    } else {
        spilled(results.drop_last())
    }
}

/// Of the matches of the chunks searched so far, those that wait for the end
/// of the scan: the matches of every chunk that found at most `MAX_RESULTS`,
/// chunk after chunk.
pub open spec fn held_back(results: Seq<Seq<MatchView>>) -> Seq<MatchView>
    decreases results.len(),
{
    if results.len() == 0 {
        Seq::empty()
    } else if results.last().len() > MAX_RESULTS {
        held_back(results.drop_last())
    } else {
        held_back(results.drop_last()) + results.last()
    }
}

/// The number of matches in all the chunks.
pub open spec fn total(results: Seq<Seq<MatchView>>) -> int
    decreases results.len(),
{
    if results.len() == 0 {
        0
    } else {
        total(results.drop_last()) + results.last().len()
    }
}

/// What a scan leaves in the store: first what it spilled, then what it
/// held back.
pub open spec fn scan_outcome(results: Seq<Seq<MatchView>>) -> Seq<MatchView> {
    spilled(results) + held_back(results)
}

/// No match is lost between the two ways into the store: what a scan leaves
/// there has as many matches as the chunks found.
pub proof fn lemma_nothing_lost(results: Seq<Seq<MatchView>>)
    ensures
        scan_outcome(results).len() == total(results),
        total(results) >= 0,
    decreases results.len(),
{
    if results.len() > 0 {
        lemma_nothing_lost(results.drop_last());
    }
}

/// Every match that a chunk found is in what the scan leaves in the store.
pub proof fn lemma_every_match_stored(results: Seq<Seq<MatchView>>, chunk: int, i: int)
    requires
        0 <= chunk < results.len(),
        0 <= i < results[chunk].len(),
    ensures
        scan_outcome(results).contains(results[chunk][i]),
    decreases results.len(),
{
    let front = results.drop_last();
    let last = results.last();
    if chunk == results.len() - 1 {
        if last.len() > MAX_RESULTS {
            let s = spilled(front);
            assert((s + last)[s.len() + i] == last[i]);
            assert(scan_outcome(results)[s.len() + i] == last[i]);
        } else {
            let s = spilled(results);
            let h = held_back(front);
            assert(scan_outcome(results)[s.len() + h.len() + i] == last[i]);
        }
    } else {
        lemma_every_match_stored(front, chunk, i);
        let m = results[chunk][i];
        assert(front[chunk] == results[chunk]);
        let k = choose|k: int| 0 <= k < scan_outcome(front).len() && scan_outcome(front)[k] == m;
        let s = spilled(front);
        if k < s.len() {
            assert(scan_outcome(results)[k] == m);
        } else if last.len() > MAX_RESULTS {
            assert(scan_outcome(results)[k + last.len()] == m);
        } else {
            assert(scan_outcome(results)[k] == m);
        }
    }
}

/// Every match that a scan leaves in the store was found by one of its
/// chunks.
pub proof fn lemma_stored_was_found(results: Seq<Seq<MatchView>>, k: int)
    requires
        0 <= k < scan_outcome(results).len(),
    ensures
        exists|chunk: int, i: int|
            0 <= chunk < results.len() && 0 <= i < results[chunk].len() && (
            #[trigger] results[chunk][i]) == scan_outcome(results)[k],
    decreases results.len(),
{
    let front = results.drop_last();
    let last = results.last();
    let s = spilled(front);
    let h = held_back(front);
    let m = scan_outcome(results)[k];
    let at_last = results.len() - 1;
    if results.len() == 0 {
    } else if last.len() > MAX_RESULTS {
        if k < s.len() {
            assert(scan_outcome(front)[k] == m);
            lemma_stored_was_found(front, k);
            let (chunk, i) = choose|chunk: int, i: int|
                0 <= chunk < front.len() && 0 <= i < front[chunk].len() && (
                #[trigger] front[chunk][i]) == scan_outcome(front)[k];
            assert(results[chunk][i] == m);
        } else if k < s.len() + last.len() {
            assert(results[at_last][k - s.len()] == m);
        } else {
            assert(scan_outcome(front)[k - last.len()] == m);
            lemma_stored_was_found(front, k - last.len());
            let (chunk, i) = choose|chunk: int, i: int|
                0 <= chunk < front.len() && 0 <= i < front[chunk].len() && (
                #[trigger] front[chunk][i]) == scan_outcome(front)[k - last.len()];
            assert(results[chunk][i] == m);
        }
    } else {
        if k < s.len() + h.len() {
            assert(scan_outcome(front)[k] == m);
            lemma_stored_was_found(front, k);
            let (chunk, i) = choose|chunk: int, i: int|
                0 <= chunk < front.len() && 0 <= i < front[chunk].len() && (
                #[trigger] front[chunk][i]) == scan_outcome(front)[k];
            assert(results[chunk][i] == m);
        } else {
            assert(results[at_last][k - s.len() - h.len()] == m);
        }
    }
}

/// The matches of chunk `chunk` for the bytes read, and none where the read
/// failed.
pub open spec fn read_result(
    mode: FindMode,
    t: DataType,
    pattern: Seq<char>,
    align: int,
    chunk: Chunk,
    outcome: Option<Seq<u8>>,
) -> Seq<MatchView> {
    match outcome {
        Some(data) => chunk_matches(mode, t, pattern, align, chunk.start as int, data),
        None => Seq::empty(),
    }
}

/// What read number `i` gave: its bytes, or `None` where it failed or was
/// not made.
pub open spec fn outcome_at(reads: Seq<Option<Vec<u8>>>, i: int) -> Option<Seq<u8>> {
    if 0 <= i < reads.len() {
        match reads[i] {
            Some(bytes) => Some(bytes@),
            None => None,
        }
    } else {
        None
    }
}

/// The matches of each chunk of a request, given what the read of each chunk
/// gave.
pub open spec fn scan_results(request: MemoryScanRequest, reads: Seq<Option<Vec<u8>>>) -> Seq<
    Seq<MatchView>,
> {
    Seq::new(
        plan(request.address_ranges@).len(),
        |i: int|
            read_result(
                FindMode::of_name(request.find_type@),
                DataType::of_name(request.data_type@),
                request.pattern@,
                request.align as int,
                plan(request.address_ranges@)[i],
                outcome_at(reads, i),
            ),
    )
}

/// Every address that a scan leaves in the store is a multiple of the
/// request's alignment.
pub proof fn lemma_scan_is_aligned(request: MemoryScanRequest, reads: Seq<Option<Vec<u8>>>, k: int)
    requires
        0 <= k < scan_outcome(scan_results(request, reads)).len(),
    ensures
        scan_outcome(scan_results(request, reads))[k].address % (request.align as int) == 0,
{
    let results = scan_results(request, reads);
    lemma_stored_was_found(results, k);
    let (chunk, i) = choose|chunk: int, i: int|
        0 <= chunk < results.len() && 0 <= i < results[chunk].len() && (
        #[trigger] results[chunk][i]) == scan_outcome(results)[k];
    match outcome_at(reads, chunk) {
        Some(data) => {
            lemma_chunk_matches_aligned(
                FindMode::of_name(request.find_type@),
                DataType::of_name(request.data_type@),
                request.pattern@,
                request.align as int,
                plan(request.address_ranges@)[chunk].start as int,
                data,
            );
        },
        None => {},
    }
}

/// A scan under way: the matches that wait for its end, and the count of all
/// matches found so far.
pub struct ScanRun {
    pub pending: Vec<Match>,
    pub found: usize,
}

impl ScanRun {
    /// Starts a scan under `scan_id`: an earlier result set of that id is
    /// emptied.
    pub fn begin(store: &mut ResultStore, scan_id: &str) -> (run: ScanRun)
        ensures
            run.pending@.len() == 0,
            run.found == 0,
            old(store)@.contains_key(scan_id@) ==> final(store)@ == old(store)@.insert(
                scan_id@,
                Seq::empty(),
            ),
            !old(store)@.contains_key(scan_id@) ==> final(store)@ == old(store)@,
    {
        store.clear(scan_id);
        ScanRun { pending: Vec::new(), found: 0 }
    }

    /// Takes in the matches of one chunk. More than `MAX_RESULTS` of them
    /// go to the end of the result set at once; fewer wait in the run.
    pub fn absorb(&mut self, store: &mut ResultStore, scan_id: &str, matches: Vec<Match>)
        ensures
            final(self).found == clamp(old(self).found + matches@.len()),
            matches@.len() > MAX_RESULTS ==> ({
                &&& views(final(self).pending@) == views(old(self).pending@)
                &&& final(store)@ == old(store)@.insert(
                    scan_id@,
                    stored(old(store)@, scan_id@) + views(matches@),
                )
            }),
            matches@.len() <= MAX_RESULTS ==> ({
                &&& views(final(self).pending@) == views(old(self).pending@) + views(matches@)
                &&& final(store)@ == old(store)@
            }),
    {
        let n = matches.len();
        self.found = match self.found.checked_add(n) {
            Some(sum) => sum,
            None => usize::MAX,
        };
        if n > MAX_RESULTS {
            store.append(scan_id, matches);
        } else {
            let mut more = matches;
            proof {
                assert(views(self.pending@ + more@) =~= views(self.pending@) + views(more@));
            }
            self.pending.append(&mut more);
        }
    }

    /// Searches one chunk and takes in its matches: `outcome` is what the
    /// read at `chunk.start` gave. A failed read finds nothing.
    pub fn absorb_chunk(
        &mut self,
        store: &mut ResultStore,
        request: &MemoryScanRequest,
        chunk: Chunk,
        outcome: Option<&[u8]>,
    )
        requires
            request.align > 0,
            outcome matches Some(data) ==> chunk.start + data@.len() <= usize::MAX,
        ensures
            ({
                let found = read_result(
                    FindMode::of_name(request.find_type@),
                    DataType::of_name(request.data_type@),
                    request.pattern@,
                    request.align as int,
                    chunk,
                    match outcome {
                        Some(data) => Some(data@),
                        None => None,
                    },
                );
                &&& final(self).found == clamp(old(self).found + found.len())
                &&& found.len() > MAX_RESULTS ==> {
                    &&& views(final(self).pending@) == views(old(self).pending@)
                    &&& final(store)@ == old(store)@.insert(
                        request.scan_id@,
                        stored(old(store)@, request.scan_id@) + found,
                    )
                }
                &&& found.len() <= MAX_RESULTS ==> {
                    &&& views(final(self).pending@) == views(old(self).pending@) + found
                    &&& final(store)@ == old(store)@
                }
            }),
    {
        let matches = match outcome {
            Some(data) => scan_chunk(
                FindMode::from_name(request.find_type.as_str()),
                DataType::from_name(request.data_type.as_str()),
                request.pattern.as_str(),
                request.align,
                chunk.start,
                data,
            ),
            None => Vec::new(),
        };
        proof {
            assert(matches@.len() == 0 ==> views(matches@) =~= Seq::<MatchView>::empty());
            assert(views(matches@).len() == matches@.len());
        }
        self.absorb(store, request.scan_id.as_str(), matches);
    }

    /// Ends the scan: the matches that waited go to the end of the result
    /// set, which is made if the scan spilled nothing, and the answer is
    /// drawn from the whole set and the run's count.
    pub fn finish(self, store: &mut ResultStore, scan_id: &str, detailed: bool) -> (response:
        ScanResponse)
        ensures
            final(store)@ == old(store)@.insert(
                scan_id@,
                stored(old(store)@, scan_id@) + views(self.pending@),
            ),
            final(store)@[scan_id@].len() <= usize::MAX,
            answers(response, final(store)@[scan_id@], self.found as int, detailed),
    {
        let found = self.found;
        store.append(scan_id, self.pending);
        match store.get(scan_id) {
            Some(set) => {
                proof {
                    assert(views(set@).len() == set@.len());
                    assert(set@.len() == set.len());
                }
                make_response(set, found, detailed)
            },
            None => ScanResponse::Count { found },
        }
    }
}

/// One more chunk's matches in the three tallies of a scan.
proof fn lemma_results_push(results: Seq<Seq<MatchView>>, next: Seq<MatchView>)
    ensures
        total(results.push(next)) == total(results) + next.len(),
        next.len() > MAX_RESULTS ==> spilled(results.push(next)) == spilled(results) + next
            && held_back(results.push(next)) == held_back(results),
        next.len() <= MAX_RESULTS ==> spilled(results.push(next)) == spilled(results)
            && held_back(results.push(next)) == held_back(results) + next,
{
    assert(results.push(next).drop_last() =~= results);
}

/// Runs a whole scan: `reads` holds, for each chunk of the request's ranges
/// in order, the bytes read there, or `None` for a read that failed. The
/// alignment is positive, and what was read at a chunk's start ends inside
/// the address space.
///
/// Without a target the request is refused and the store is left alone.
/// Otherwise the result set of the request's id is replaced by the matches
/// of all chunks, and the answer counts every one of them.
pub fn memory_scan_handler(
    context: &TargetContext,
    store: &mut ResultStore,
    request: &MemoryScanRequest,
    reads: &Vec<Option<Vec<u8>>>,
) -> (r: Result<ScanResponse, ApiError>)
    requires
        request.align > 0,
        forall|i: int|
            0 <= i < reads@.len() && i < plan(request.address_ranges@).len()
                && reads@[i] is Some ==> plan(request.address_ranges@)[i].start + (
            #[trigger] reads@[i]).unwrap()@.len() <= usize::MAX,
    ensures
        context.pid is None ==> r == Err::<ScanResponse, ApiError>(ApiError::NotAttached)
            && final(store)@ == old(store)@,
        context.pid is Some ==> ({
            let set = scan_outcome(scan_results(*request, reads@));
            &&& final(store)@ == old(store)@.insert(request.scan_id@, set)
            &&& r is Ok
            &&& answers(r.unwrap(), set, set.len() as int, request.return_as_json)
        }),
{
    if context.pid.is_none() {
        return Err(ApiError::NotAttached);
    }
    let chunks = plan_chunks(&request.address_ranges);
    let scan_id = request.scan_id.as_str();
    let mut run = ScanRun::begin(store, scan_id);
    let ghost results = scan_results(*request, reads@);
    let mut i: usize = 0;
    proof {
        assert(results.take(0) =~= Seq::<Seq<MatchView>>::empty());
        assert(views(run.pending@) =~= Seq::<MatchView>::empty());
        assert(store@.remove(scan_id@) =~= old(store)@.remove(scan_id@));
    }
    while i < chunks.len()
        invariant
            i <= chunks@.len(),
            request.align > 0,
            scan_id@ == request.scan_id@,
            chunks@ == plan(request.address_ranges@),
            results == scan_results(*request, reads@),
            results.len() == chunks@.len(),
            forall|k: int|
                0 <= k < reads@.len() && k < chunks@.len() && reads@[k] is Some
                    ==> chunks@[k].start + (#[trigger] reads@[k]).unwrap()@.len() <= usize::MAX,
            views(run.pending@) == held_back(results.take(i as int)),
            stored(store@, scan_id@) == spilled(results.take(i as int)),
            store@.remove(scan_id@) == old(store)@.remove(scan_id@),
            run.found == clamp(total(results.take(i as int))),
        decreases chunks@.len() - i,
    {
        let ghost before = store@;
        let ghost done = results.take(i as int);
        let chunk = chunks[i];
        let outcome: Option<&[u8]> = if i < reads.len() {
            match &reads[i] {
                Some(bytes) => Some(bytes.as_slice()),
                None => None,
            }
        } else {
            None
        };
        proof {
            assert(match outcome {
                Some(data) => Some(data@),
                None => None,
            } == outcome_at(reads@, i as int));
            lemma_results_push(done, results[i as int]);
            assert(results.take(i + 1) =~= done.push(results[i as int]));
            lemma_nothing_lost(done);
        }
        run.absorb_chunk(store, request, chunk, outcome);
        proof {
            assert(store@.remove(scan_id@) =~= before.remove(scan_id@));
        }
        i = i + 1;
    }
    let ghost spilt = store@;
    let response = run.finish(store, scan_id, request.return_as_json);
    proof {
        assert(results.take(chunks@.len() as int) =~= results);
        lemma_nothing_lost(results);
        assert(store@ =~= old(store)@.insert(scan_id@, scan_outcome(results))) by {
            assert(store@.remove(scan_id@) =~= spilt.remove(scan_id@));
            assert forall|id: Seq<char>| id != scan_id@ implies (store@.contains_key(id) == old(
                store,
            )@.contains_key(id) && (store@.contains_key(id) ==> store@[id] == old(store)@[id])) by {
                assert(store@.remove(scan_id@).contains_key(id) == store@.contains_key(id));
                assert(old(store)@.remove(scan_id@).contains_key(id) == old(store)@.contains_key(
                    id,
                ));
                if store@.contains_key(id) {
                    assert(store@.remove(scan_id@)[id] == store@[id]);
                    assert(old(store)@.remove(scan_id@)[id] == old(store)@[id]);
                }
            }
        }
    }
    Ok(response)
}

} // verus!
