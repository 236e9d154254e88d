//! Narrowing a result set against present memory.
//!
//! A filter pass reads the memory at every stored match again and keeps the
//! match where the bytes read now stand in the asked relation to the value
//! stored; what is kept carries the bytes read now and replaces the result
//! set. A read that fails drops its match without an error.

use crate::compare::{compare_values, relation_holds, same_bytes};
use crate::hexcode::{
    hex_bytes, hex_digit, hex_encode, hex_text, is_hex_text, lemma_hex_round_trip, parse_hex,
};
use crate::model::{
    views, DataType, Match, MatchView, MemoryFilterRequest, ReadMemoryRequest, Relation,
    ScanResponse,
};
use crate::search::{regex_check, regex_compiles, regex_has_match, regex_is_match};
use crate::session::{answers, make_response};
use crate::store::ResultStore;
use crate::target::{ApiError, TargetContext};
use vstd::prelude::*;
use vstd::utf8::{encode_utf8, is_ascii_chars, is_ascii_chars_encode_utf8};

verus! {

/// The number of bytes to read at a stored match: for a regular expression
/// as many as the pattern has bytes, else as many as the stored value
/// spells, half the bytes of its text.
pub open spec fn read_size(t: DataType, pattern: Seq<char>, value: Seq<char>) -> int {
    if t == DataType::Regex {
        encode_utf8(pattern).len() as int
    } else {
        encode_utf8(value).len() as int / 2
    }
}

/// The reads of a filter pass over `set`: one for each match, in order.
pub open spec fn read_plan(t: DataType, pattern: Seq<char>, set: Seq<MatchView>) -> Seq<
    ReadMemoryRequest,
> {
    Seq::new(
        set.len(),
        |i: int|
            ReadMemoryRequest {
                address: set[i].address as usize,
                size: read_size(t, pattern, set[i].value) as usize,
            },
    )
}

/// Whether a pass can be made with `pattern`: a regex pass needs a regular
/// expression, a pass for `Exact` hexadecimal text, any other pass nothing.
pub open spec fn pattern_ok(t: DataType, relation: Relation, pattern: Seq<char>) -> bool {
    if t == DataType::Regex {
        regex_compiles(pattern)
    } else if relation == Relation::Exact {
        is_hex_text(pattern)
    } else {
        true
    }
}

/// Whether the stored value of a match is compared with the bytes read: in
/// every pass but a regex pass and a pass for `Exact`.
pub open spec fn reads_stored(t: DataType, relation: Relation) -> bool {
    t != DataType::Regex && relation != Relation::Exact
}

/// Whether the match with the stored `value` is kept for the bytes `fresh`
/// read now. A regex pass keeps it where the expression matches in `fresh`,
/// a pass for `Exact` where `fresh` is the bytes of the pattern, any other
/// pass where the relation holds between `fresh` and the bytes of `value`.
pub open spec fn keeps(
    t: DataType,
    relation: Relation,
    pattern: Seq<char>,
    value: Seq<char>,
    fresh: Seq<u8>,
) -> bool {
    if t == DataType::Regex {
        regex_has_match(pattern, fresh)
    } else if relation == Relation::Exact {
        fresh == hex_bytes(pattern)
    } else {
        relation_holds(t, relation, hex_bytes(value), fresh)
    }
}

/// What read number `i` gave: its bytes, or `None` where it failed or was
/// not made.
pub open spec fn fresh_at(reads: Seq<Option<Seq<u8>>>, i: int) -> Option<Seq<u8>> {
    if 0 <= i < reads.len() {
        reads[i]
    } else {
        None
    }
}

/// Whether the pass breaks off at match `i`: its read succeeded, and its
/// stored value has to be compared but is no hexadecimal text.
pub open spec fn breaks_at(
    t: DataType,
    relation: Relation,
    set: Seq<MatchView>,
    reads: Seq<Option<Seq<u8>>>,
    i: int,
) -> bool {
    reads_stored(t, relation) && fresh_at(reads, i) is Some && !is_hex_text(set[i].value)
}

/// What a pass keeps of the first `n` matches of `set`: each match whose
/// read succeeded and that `keeps` holds of, in order, with the bytes read
/// as its new value.
pub open spec fn kept_below(
    t: DataType,
    relation: Relation,
    pattern: Seq<char>,
    set: Seq<MatchView>,
    reads: Seq<Option<Seq<u8>>>,
    n: int,
) -> Seq<MatchView>
    decreases n,
{
    if n <= 0 {
        Seq::empty()
    } else {
        let head = kept_below(t, relation, pattern, set, reads, n - 1);
        match fresh_at(reads, n - 1) {
            Some(fresh) => if keeps(t, relation, pattern, set[n - 1].value, fresh) {
                head.push(MatchView { address: set[n - 1].address, value: hex_text(fresh) })
            } else {
                head
            },
            None => head,
        }
    }
}

/// What a pass keeps of `set`.
pub open spec fn filter_kept(
    t: DataType,
    relation: Relation,
    pattern: Seq<char>,
    set: Seq<MatchView>,
    reads: Seq<Option<Seq<u8>>>,
) -> Seq<MatchView> {
    kept_below(t, relation, pattern, set, reads, set.len() as int)
}

/// The bytes of each read, or `None` for one that failed.
pub open spec fn read_views(reads: Seq<Option<Vec<u8>>>) -> Seq<Option<Seq<u8>>> {
    reads.map_values(
        |r: Option<Vec<u8>>|
            match r {
                Some(bytes) => Some(bytes@),
                None => None,
            },
    )
}

/// How a filter pass ends, from what stands in the store and what the reads
/// gave: refused without a target, without a result set under the scan id,
/// with a pattern that the pass cannot use, or on a stored value that cannot
/// be read; else the matches kept.
pub open spec fn filter_outcome(
    attached: bool,
    sets: Map<Seq<char>, Seq<MatchView>>,
    request: MemoryFilterRequest,
    reads: Seq<Option<Seq<u8>>>,
) -> Result<Seq<MatchView>, ApiError> {
    let t = DataType::of_name(request.data_type@);
    let relation = Relation::of_name(request.filter_method@);
    if !attached {
        Err(ApiError::NotAttached)
    } else if !sets.contains_key(request.scan_id@) {
        Err(ApiError::UnknownScanId)
    } else if !pattern_ok(t, relation, request.pattern@) {
        Err(ApiError::InvalidPattern)
    } else if exists|i: int|
        0 <= i < sets[request.scan_id@].len() && breaks_at(
            t,
            relation,
            sets[request.scan_id@],
            reads,
            i,
        ) {
        Err(ApiError::InvalidPattern)
    } else {
        Ok(filter_kept(t, relation, request.pattern@, sets[request.scan_id@], reads))
    }
}

/// The text of any bytes is ASCII, so it has as many bytes as characters.
pub proof fn lemma_hex_text_bytes(bytes: Seq<u8>)
    ensures
        is_ascii_chars(hex_text(bytes)),
        encode_utf8(hex_text(bytes)).len() == 2 * bytes.len(),
{
    let text = hex_text(bytes);
    assert forall|i: int| 0 <= i < text.len() implies '\0' <= #[trigger] text[i] <= '\u{7f}' by {
        let b = bytes[i / 2] as int;
        assert(0 <= b / 16 < 16 && 0 <= b % 16 < 16);
        lemma_hex_digit_ascii(b / 16);
        lemma_hex_digit_ascii(b % 16);
    }
    is_ascii_chars_encode_utf8(text);
}

proof fn lemma_hex_digit_ascii(n: int)
    ensures
        '\0' <= hex_digit(n) <= '\u{7f}',
{
}

/// Every match that a pass keeps comes from a stored one whose read
/// succeeded: it has that match's address and the text of the bytes read.
/// Kept matches follow the order of the stored ones.
pub proof fn lemma_kept_below(
    t: DataType,
    relation: Relation,
    pattern: Seq<char>,
    set: Seq<MatchView>,
    reads: Seq<Option<Seq<u8>>>,
    n: int,
)
    requires
        0 <= n <= set.len(),
    ensures
        kept_below(t, relation, pattern, set, reads, n).len() <= n,
        forall|k: int|
            0 <= k < kept_below(t, relation, pattern, set, reads, n).len() ==> (exists|i: int|
                {
                    &&& 0 <= i < n
                    &&& fresh_at(reads, i) is Some
                    &&& keeps(t, relation, pattern, set[i].value, fresh_at(reads, i).unwrap())
                    &&& (#[trigger] kept_below(t, relation, pattern, set, reads, n)[k])
                        == (MatchView {
                        address: set[i].address,
                        value: hex_text(#[trigger] fresh_at(reads, i).unwrap()),
                    })
                }),
    decreases n,
{
    if n > 0 {
        lemma_kept_below(t, relation, pattern, set, reads, n - 1);
        let head = kept_below(t, relation, pattern, set, reads, n - 1);
        let all = kept_below(t, relation, pattern, set, reads, n);
        assert forall|k: int| 0 <= k < all.len() implies exists|i: int|
            {
                &&& 0 <= i < n
                &&& fresh_at(reads, i) is Some
                &&& keeps(t, relation, pattern, set[i].value, fresh_at(reads, i).unwrap())
                &&& (#[trigger] all[k]) == (MatchView {
                    address: set[i].address,
                    value: hex_text(#[trigger] fresh_at(reads, i).unwrap()),
                })
            } by {
            if k < head.len() {
                assert(all[k] == head[k]);
                let i = choose|i: int|
                    {
                        &&& 0 <= i < n - 1
                        &&& fresh_at(reads, i) is Some
                        &&& keeps(t, relation, pattern, set[i].value, fresh_at(reads, i).unwrap())
                        &&& head[k] == (MatchView {
                            address: set[i].address,
                            value: hex_text(#[trigger] fresh_at(reads, i).unwrap()),
                        })
                    };
                assert(0 <= i < n);
            } else {
                let i = n - 1;
                assert(fresh_at(reads, i) is Some);
                assert(all[k] == (MatchView {
                    address: set[i].address,
                    value: hex_text(fresh_at(reads, i).unwrap()),
                }));
            }
        }
    }
}

/// The reads that a filter pass needs: address and size for each match of
/// the result set, in order. Without a target, or without a result set
/// under the request's scan id, the request is refused.
pub fn filter_reads(context: &TargetContext, store: &ResultStore, request: &MemoryFilterRequest) -> (r:
    Result<Vec<ReadMemoryRequest>, ApiError>)
    ensures
        context.pid is None ==> r == Err::<Vec<ReadMemoryRequest>, ApiError>(
            ApiError::NotAttached,
        ),
        context.pid is Some && !store@.contains_key(request.scan_id@) ==> r == Err::<
            Vec<ReadMemoryRequest>,
            ApiError,
        >(ApiError::UnknownScanId),
        context.pid is Some && store@.contains_key(request.scan_id@) ==> r is Ok && r.unwrap()@
            == read_plan(
            DataType::of_name(request.data_type@),
            request.pattern@,
            store@[request.scan_id@],
        ),
{
    if context.pid.is_none() {
        return Err(ApiError::NotAttached);
    }
    let set = match store.get(request.scan_id.as_str()) {
        Some(set) => set,
        None => {
            return Err(ApiError::UnknownScanId);
        },
    };
    let t = DataType::from_name(request.data_type.as_str());
    let ghost expected = read_plan(t, request.pattern@, views(set@));
    let mut reads: Vec<ReadMemoryRequest> = Vec::new();
    let mut i: usize = 0;
    while i < set.len()
        invariant
            i <= set@.len(),
            t == DataType::of_name(request.data_type@),
            expected == read_plan(t, request.pattern@, views(set@)),
            reads@ == expected.take(i as int),
        decreases set@.len() - i,
    {
        let size = if t == DataType::Regex {
            request.pattern.as_str().as_bytes().len()
        } else {
            set[i].value.as_str().as_bytes().len() / 2
        };
        reads.push(ReadMemoryRequest { address: set[i].address, size });
        proof {
            assert(views(set@)[i as int] == set@[i as int]@);
            assert(expected.take(i + 1) =~= expected.take(i as int).push(expected[i as int]));
        }
        i = i + 1;
    }
    proof {
        assert(expected.take(set@.len() as int) =~= expected);
    }
    Ok(reads)
}

/// Whether the match `stored` is kept for the bytes `fresh` read now, in a
/// pass that is no regex pass; `needle` holds the bytes of the pattern. A
/// stored value that has to be compared and is no hexadecimal text is an
/// error.
pub fn judge(t: DataType, relation: Relation, needle: &[u8], stored: &Match, fresh: &[u8]) -> (r:
    Result<bool, ApiError>)
    requires
        t != DataType::Regex,
    ensures
        relation == Relation::Exact ==> r == Ok::<bool, ApiError>(fresh@ == needle@),
        relation != Relation::Exact && !is_hex_text(stored.value@) ==> r == Err::<bool, ApiError>(
            ApiError::InvalidPattern,
        ),
        relation != Relation::Exact && is_hex_text(stored.value@) ==> r == Ok::<bool, ApiError>(
            relation_holds(t, relation, hex_bytes(stored.value@), fresh@),
        ),
{
    if relation == Relation::Exact {
        Ok(same_bytes(fresh, needle))
    } else {
        match parse_hex(stored.value.as_str()) {
            Some(old) => Ok(compare_values(t, relation, old.as_slice(), fresh)),
            None => Err(ApiError::InvalidPattern),
        }
    }
}

/// Runs a filter pass: `reads` holds, for each match of the result set in
/// order, the bytes read at its address now, or `None` for a read that
/// failed.
///
/// A refused pass leaves the store alone. Otherwise the result set is
/// replaced by the matches kept, and the answer counts them.
pub fn memory_filter_handler(
    context: &TargetContext,
    store: &mut ResultStore,
    request: &MemoryFilterRequest,
    reads: &Vec<Option<Vec<u8>>>,
) -> (r: Result<ScanResponse, ApiError>)
    ensures
        (match filter_outcome(context.pid is Some, old(store)@, *request, read_views(reads@)) {
            Err(e) => r == Err::<ScanResponse, ApiError>(e) && final(store)@ == old(store)@,
            Ok(kept) => {
                &&& r is Ok
                &&& answers(r.unwrap(), kept, kept.len() as int, request.return_as_json)
                &&& final(store)@ == old(store)@.insert(request.scan_id@, kept)
            },
        }),
{
    if context.pid.is_none() {
        return Err(ApiError::NotAttached);
    }
    let scan_id = request.scan_id.as_str();
    let pattern = request.pattern.as_str();
    let t = DataType::from_name(request.data_type.as_str());
    let relation = Relation::from_name(request.filter_method.as_str());
    let set = match store.get(scan_id) {
        Some(set) => set,
        None => {
            return Err(ApiError::UnknownScanId);
        },
    };
    let mut needle: Vec<u8> = Vec::new();
    if t == DataType::Regex {
        match regex_check(pattern) {
            Ok(_) => {},
            Err(_) => {
                return Err(ApiError::InvalidPattern);
            },
        }
    } else if relation == Relation::Exact {
        match parse_hex(pattern) {
            Some(bytes) => {
                needle = bytes;
            },
            None => {
                return Err(ApiError::InvalidPattern);
            },
        }
    }
    let ghost olds = views(set@);
    let ghost fresh = read_views(reads@);
    let mut kept: Vec<Match> = Vec::new();
    let mut i: usize = 0;
    proof {
        assert(views(kept@) =~= Seq::<MatchView>::empty());
    }
    while i < set.len()
        invariant
            i <= set@.len(),
            olds == views(set@),
            fresh == read_views(reads@),
            pattern@ == request.pattern@,
            context.pid is Some,
            t == DataType::of_name(request.data_type@),
            relation == Relation::of_name(request.filter_method@),
            pattern_ok(t, relation, pattern@),
            t != DataType::Regex && relation == Relation::Exact ==> needle@ == hex_bytes(pattern@),
            forall|k: int| 0 <= k < i ==> !breaks_at(t, relation, olds, fresh, k),
            views(kept@) == kept_below(t, relation, pattern@, olds, fresh, i as int),
            store@ == old(store)@,
            old(store)@.contains_key(request.scan_id@),
            olds == old(store)@[request.scan_id@],
        decreases set@.len() - i,
    {
        proof {
            assert(olds[i as int] == set@[i as int]@);
        }
        if i < reads.len() {
            match &reads[i] {
                Some(bytes) => {
                    proof {
                        assert(fresh_at(fresh, i as int) == Some(bytes@));
                    }
                    let keep = if t == DataType::Regex {
                        match regex_is_match(pattern, bytes.as_slice()) {
                            Ok(hit) => hit,
                            Err(_) => false,
                        }
                    } else {
                        match judge(t, relation, needle.as_slice(), &set[i], bytes.as_slice()) {
                            Ok(keep) => keep,
                            Err(e) => {
                                proof {
                                    assert(breaks_at(t, relation, olds, fresh, i as int));
                                }
                                return Err(e);
                            },
                        }
                    };
                    if keep {
                        let item = Match {
                            address: set[i].address,
                            value: hex_encode(bytes.as_slice()),
                        };
                        proof {
                            assert(views(kept@.push(item)) =~= views(kept@).push(item@));
                        }
                        kept.push(item);
                    }
                },
                None => {
                    proof {
                        assert(fresh_at(fresh, i as int) is None);
                    }
                },
            }
        }
        i = i + 1;
    }
    let response = make_response(&kept, kept.len(), request.return_as_json);
    proof {
        assert(views(kept@).len() == kept@.len());
    }
    store.replace(scan_id, kept);
    Ok(response)
}

/// A pass for `Unchanged`, made twice over memory that stays as it is, keeps
/// the same matches the second time as the first.
///
/// `memory` stands for the target: what a read of a number of bytes at an
/// address gives. A read that succeeds gives as many bytes as were asked
/// for. The first pass reads at the matches of `set`, the second at the
/// matches that the first one kept.
pub proof fn lemma_unchanged_twice(
    t: DataType,
    pattern: Seq<char>,
    set: Seq<MatchView>,
    memory: spec_fn(int, int) -> Option<Seq<u8>>,
)
    requires
        forall|address: int, size: int|
            (#[trigger] memory(address, size)) matches Some(bytes) ==> bytes.len() == size,
    ensures
        ({
            let first = filter_kept(
                t,
                Relation::Unchanged,
                pattern,
                set,
                memory_reads(t, pattern, set, memory),
            );
            let second = filter_kept(
                t,
                Relation::Unchanged,
                pattern,
                first,
                memory_reads(t, pattern, first, memory),
            );
            second == first
        }),
{
    let reads = memory_reads(t, pattern, set, memory);
    let first = filter_kept(t, Relation::Unchanged, pattern, set, reads);
    let again = memory_reads(t, pattern, first, memory);
    lemma_kept_below(t, Relation::Unchanged, pattern, set, reads, set.len() as int);
    assert forall|k: int| 0 <= k < first.len() implies (#[trigger] fresh_at(again, k)) is Some
        && hex_text(fresh_at(again, k).unwrap()) == first[k].value && keeps(
        t,
        Relation::Unchanged,
        pattern,
        first[k].value,
        fresh_at(again, k).unwrap(),
    ) by {
        let i = choose|i: int|
            {
                &&& 0 <= i < set.len()
                &&& fresh_at(reads, i) is Some
                &&& keeps(t, Relation::Unchanged, pattern, set[i].value, fresh_at(reads, i).unwrap())
                &&& first[k] == (MatchView {
                    address: set[i].address,
                    value: hex_text(#[trigger] fresh_at(reads, i).unwrap()),
                })
            };
        let bytes = fresh_at(reads, i).unwrap();
        assert(reads[i] == memory(set[i].address, read_size(t, pattern, set[i].value)));
        assert(bytes.len() == read_size(t, pattern, set[i].value));
        lemma_hex_text_bytes(bytes);
        lemma_hex_round_trip(bytes);
        assert(2 * bytes.len() / 2 == bytes.len());
        assert(read_size(t, pattern, first[k].value) == read_size(t, pattern, set[i].value));
        assert(again[k] == memory(first[k].address, read_size(t, pattern, first[k].value)));
        assert(fresh_at(again, k) == Some(bytes));
        if t != DataType::Regex {
            assert(relation_holds(t, Relation::Unchanged, hex_bytes(set[i].value), bytes));
            lemma_kept_stays(t, hex_bytes(set[i].value), bytes);
        }
    }
    lemma_all_kept(t, Relation::Unchanged, pattern, first, again, first.len() as int);
    assert(first.take(first.len() as int) =~= first);
}

/// What reading at every match of `set` gives, in a target whose reads
/// `memory` describes.
pub open spec fn memory_reads(
    t: DataType,
    pattern: Seq<char>,
    set: Seq<MatchView>,
    memory: spec_fn(int, int) -> Option<Seq<u8>>,
) -> Seq<Option<Seq<u8>>> {
    Seq::new(set.len(), |i: int| memory(set[i].address, read_size(t, pattern, set[i].value)))
}

/// Bytes that were found unchanged against a stored value are unchanged
/// against themselves.
proof fn lemma_kept_stays(t: DataType, old: Seq<u8>, new: Seq<u8>)
    requires
        relation_holds(t, Relation::Unchanged, old, new),
    ensures
        relation_holds(t, Relation::Unchanged, new, new),
{
}

/// Where every one of the first `n` matches is read and kept with its own
/// value, the pass keeps those matches as they are.
proof fn lemma_all_kept(
    t: DataType,
    relation: Relation,
    pattern: Seq<char>,
    set: Seq<MatchView>,
    reads: Seq<Option<Seq<u8>>>,
    n: int,
)
    requires
        0 <= n <= set.len(),
        forall|k: int|
            0 <= k < n ==> (#[trigger] fresh_at(reads, k)) is Some && hex_text(
                fresh_at(reads, k).unwrap(),
            ) == set[k].value && keeps(t, relation, pattern, set[k].value, fresh_at(reads, k).unwrap()),
    ensures
        kept_below(t, relation, pattern, set, reads, n) == set.take(n),
    decreases n,
{
    if n > 0 {
        lemma_all_kept(t, relation, pattern, set, reads, n - 1);
        assert(fresh_at(reads, n - 1) is Some);
        assert(set.take(n) =~= set.take(n - 1).push(set[n - 1]));
    } else {
        assert(set.take(0) =~= Seq::<MatchView>::empty());
    }
}

} // verus!
