//! Searching a byte buffer: every occurrence of a byte string, and the
//! matches of a regular expression.

use vstd::prelude::*;

verus! {

/// Whether `needle` stands in `hay` at offset `at`.
pub open spec fn occurs_at(hay: Seq<u8>, needle: Seq<u8>, at: int) -> bool {
    &&& 0 <= at
    &&& at + needle.len() <= hay.len()
    &&& hay.subrange(at, at + needle.len()) == needle
}

/// The offsets below `limit` at which `needle` stands in `hay`, ascending.
pub open spec fn occurrences_below(hay: Seq<u8>, needle: Seq<u8>, limit: int) -> Seq<int>
    decreases limit,
{
    if limit <= 0 {
        Seq::empty()
    } else if occurs_at(hay, needle, limit - 1) {
        occurrences_below(hay, needle, limit - 1).push(limit - 1)
    } else {
        occurrences_below(hay, needle, limit - 1)
    }
}

/// Every offset at which `needle` stands in `hay`, ascending. Occurrences
/// may overlap; the empty string stands at every offset, the end included.
pub open spec fn occurrences(hay: Seq<u8>, needle: Seq<u8>) -> Seq<int> {
    occurrences_below(hay, needle, hay.len() as int + 1)
}

/// The stretch of `hay` that each occurrence of `needle` covers, as start
/// and end offsets.
pub open spec fn literal_spans(hay: Seq<u8>, needle: Seq<u8>) -> Seq<(int, int)> {
    occurrences(hay, needle).map_values(|at: int| (at, at + needle.len()))
}

/// Start and end offsets as integers.
pub open spec fn span_views(spans: Seq<(usize, usize)>) -> Seq<(int, int)> {
    spans.map_values(|s: (usize, usize)| (s.0 as int, s.1 as int))
}

/// Whether every span lies inside a buffer of `len` bytes, start before end.
pub open spec fn spans_within(spans: Seq<(int, int)>, len: int) -> bool {
    forall|i: int| 0 <= i < spans.len() ==> 0 <= (#[trigger] spans[i]).0 <= spans[i].1 <= len
}

/// Where nothing occurs between two limits, the occurrences below them are
/// the same.
pub proof fn lemma_occurrences_gap(hay: Seq<u8>, needle: Seq<u8>, low: int, high: int)
    requires
        low <= high,
        forall|j: int| low <= j < high ==> !occurs_at(hay, needle, j),
    ensures
        occurrences_below(hay, needle, high) == occurrences_below(hay, needle, low),
    decreases high - low,
{
    if low < high {
        lemma_occurrences_gap(hay, needle, low, high - 1);
    }
}

/// The occurrences are exactly the offsets at which the needle stands, each
/// once, in ascending order.
pub proof fn lemma_occurrences_below(hay: Seq<u8>, needle: Seq<u8>, limit: int)
    ensures
        forall|i: int|
            0 <= i < occurrences_below(hay, needle, limit).len() ==> ({
                let at = #[trigger] occurrences_below(hay, needle, limit)[i];
                0 <= at < limit && occurs_at(hay, needle, at)
            }),
        forall|i: int, j: int|
            0 <= i < j < occurrences_below(hay, needle, limit).len() ==> occurrences_below(
                hay,
                needle,
                limit,
            )[i] < occurrences_below(hay, needle, limit)[j],
        forall|at: int|
            0 <= at < limit && occurs_at(hay, needle, at) ==> occurrences_below(
                hay,
                needle,
                limit,
            ).contains(at),
    decreases limit,
{
    if limit > 0 {
        lemma_occurrences_below(hay, needle, limit - 1);
        let before = occurrences_below(hay, needle, limit - 1);
        let now = occurrences_below(hay, needle, limit);
        assert forall|at: int| 0 <= at < limit && occurs_at(hay, needle, at) implies now.contains(
            at,
        ) by {
            if at == limit - 1 {
                assert(now[now.len() - 1] == at);
            } else {
                assert(before.contains(at));
                let i = choose|i: int| 0 <= i < before.len() && before[i] == at;
                assert(now[i] == at);
            }
        }
    }
}

/// `memchr::memmem::find`: the offset of the first occurrence of `needle` in
/// `hay`, or `None` where it occurs nowhere. The empty needle occurs at 0.
#[verifier::external_body]
pub(crate) fn find_first(hay: &[u8], needle: &[u8]) -> (r: Option<usize>)
    ensures
        r matches Some(at) ==> occurs_at(hay@, needle@, at as int) && forall|j: int|
            0 <= j < at ==> !occurs_at(hay@, needle@, j),
        r is None ==> forall|j: int| !occurs_at(hay@, needle@, j),
{
    memchr::memmem::find(hay, needle)
}

/// Every stretch of `hay` that holds `needle`, by ascending start;
/// overlapping ones too.
pub fn find_all(hay: &[u8], needle: &[u8]) -> (spans: Vec<(usize, usize)>)
    ensures
        span_views(spans@) == literal_spans(hay@, needle@),
        spans_within(span_views(spans@), hay@.len() as int),
{
    let n = needle.len();
    let len = hay.len();
    let mut spans: Vec<(usize, usize)> = Vec::new();
    let mut pos: usize = 0;
    let mut open = true;
    let ghost width = needle@.len() as int;
    let ghost as_span = |at: int| (at, at + width);
    proof {
        assert(span_views(spans@) =~= occurrences_below(hay@, needle@, 0).map_values(as_span));
    }
    while open
        invariant
            pos <= len,
            len == hay@.len(),
            n == needle@.len(),
            width == needle@.len(),
            as_span == |at: int| (at, at + width),
            span_views(spans@) == occurrences_below(
                hay@,
                needle@,
                if open {
                    pos as int
                } else {
                    len + 1
                },
            ).map_values(as_span),
            spans_within(span_views(spans@), len as int),
        decreases
                if open {
                    len - pos + 1
                } else {
                    0
                },
    {
        let rest = vstd::slice::slice_subrange(hay, pos, len);
        let ghost tail = hay@.subrange(pos as int, len as int);
        proof {
            assert forall|j: int| occurs_at(tail, needle@, j) == occurs_at(
                hay@,
                needle@,
                pos + j,
            ) || j < 0 by {
                if 0 <= j && j + width <= tail.len() {
                    assert(tail.subrange(j, j + width) =~= hay@.subrange(pos + j, pos + j + width));
                }
            }
        }
        match find_first(rest, needle) {
            Some(at) => {
                let start = pos + at;
                proof {
                    assert(occurs_at(tail, needle@, at as int));
                    assert(occurs_at(hay@, needle@, start as int));
                    assert forall|j: int| pos <= j < start implies !occurs_at(hay@, needle@, j) by {
                        assert(!occurs_at(tail, needle@, j - pos));
                    }
                    lemma_occurrences_gap(hay@, needle@, pos as int, start as int);
                    let before = occurrences_below(hay@, needle@, start as int);
                    assert(occurrences_below(hay@, needle@, start + 1) == before.push(start as int));
                    assert(before.push(start as int).map_values(as_span) =~= before.map_values(
                        as_span,
                    ).push((start as int, start + width)));
                    assert(span_views(spans@.push((start, (start + n) as usize))) =~= span_views(
                        spans@,
                    ).push((start as int, start + width)));
                }
                spans.push((start, start + n));
                if start == len {
                    open = false;
                } else {
                    pos = start + 1;
                }
            },
            None => {
                proof {
                    assert forall|j: int| pos <= j < len + 1 implies !occurs_at(hay@, needle@, j) by {
                        assert(!occurs_at(tail, needle@, j - pos));
                    }
                    lemma_occurrences_gap(hay@, needle@, pos as int, len + 1);
                }
                open = false;
            },
        }
    }
    spans
}

/// The error of `regex::bytes::Regex::new`, carried through unread.
#[verifier::external_type_specification]
#[verifier::external_body]
pub struct ExRegexError(regex::Error);

/// Whether `regex::bytes::Regex::new` accepts `pattern`.
pub uninterp spec fn regex_compiles(pattern: Seq<char>) -> bool;

/// What `regex::bytes::Regex::is_match` says of `hay` for the regular
/// expression `pattern`.
pub uninterp spec fn regex_has_match(pattern: Seq<char>, hay: Seq<u8>) -> bool;

/// The successive matches of the regular expression `pattern` in `hay`, as
/// `regex::bytes::Regex::captures_iter` yields them: start and end offset of
/// each whole match.
pub uninterp spec fn regex_spans(pattern: Seq<char>, hay: Seq<u8>) -> Seq<(int, int)>;

/// `regex::bytes::Regex::new`, for its verdict alone: `Ok` where the pattern
/// compiles, the crate's error where it does not.
#[verifier::external_body]
pub(crate) fn regex_check(pattern: &str) -> (r: Result<(), regex::Error>)
    ensures
        r is Ok <==> regex_compiles(pattern@),
{
    match regex::bytes::Regex::new(pattern) {
        Ok(_) => Ok(()),
        Err(e) => Err(e),
    }
}

/// `regex::bytes::Regex::is_match` of the expression compiled from
/// `pattern`: whether it matches anywhere in `hay`. The error is that of
/// `Regex::new`.
#[verifier::external_body]
pub(crate) fn regex_is_match(pattern: &str, hay: &[u8]) -> (r: Result<bool, regex::Error>)
    ensures
        r is Ok <==> regex_compiles(pattern@),
        r matches Ok(hit) ==> hit == regex_has_match(pattern@, hay@),
{
    match regex::bytes::Regex::new(pattern) {
        Ok(re) => Ok(re.is_match(hay)),
        Err(e) => Err(e),
    }
}

/// `regex::bytes::Regex::captures_iter` of the expression compiled from
/// `pattern`: start and end of group 0 of each successive match in `hay`.
/// Each lies inside `hay`, start before end. The error is that of
/// `Regex::new`.
#[verifier::external_body]
pub(crate) fn regex_find_spans(pattern: &str, hay: &[u8]) -> (r: Result<
    Vec<(usize, usize)>,
    regex::Error,
>)
    ensures
        r is Ok <==> regex_compiles(pattern@),
        r matches Ok(spans) ==> span_views(spans@) == regex_spans(pattern@, hay@) && spans_within(
            span_views(spans@),
            hay@.len() as int,
        ),
{
    match regex::bytes::Regex::new(pattern) {
        Ok(re) => Ok(re.captures_iter(hay).map(|c| c.get(0).unwrap()).map(|m| (m.start(), m.end())).collect()),
        Err(e) => Err(e),
    }
}

} // verus!
