//! The listing of the target's memory regions: one region to a line, as
//! `<start>-<end> <protection> [<path>]`, the fields parted by whitespace.
//!
//! The listing is UTF-8 text, read as bytes. Whitespace is every character
//! that Unicode counts as white space; each is known by the bytes of its
//! encoding, which in well-formed text stand for nothing else.

use crate::target::{ApiError, TargetContext};
use vstd::prelude::*;
use vstd::utf8::{
    encode_scalar, has_width_1_encoding, has_width_2_encoding, has_width_3_encoding,
    has_width_4_encoding, is_scalar, last_continuation_byte, leading_byte_width_1,
    leading_byte_width_2, leading_byte_width_3, leading_byte_width_4,
    second_last_continuation_byte, valid_utf8,
};

verus! {

/// What parts the pieces of a text: line feeds part lines, whitespace parts
/// words.
#[derive(Clone, Copy, Debug, PartialEq, Eq, Structural)]
pub enum Parting {
    Lines,
    Words,
}

/// Whether `b` is ASCII whitespace: a space, a tab, a line feed, a vertical
/// tab, a form feed or a carriage return.
pub open spec fn is_space(b: u8) -> bool {
    b == 0x20 || (0x09 <= b && b <= 0x0d)
}

/// Whether the bytes `a`, `b`, `c` encode a whitespace character of three
/// bytes: U+1680, U+2000 to U+200A, U+2028, U+2029, U+202F, U+205F or U+3000.
pub open spec fn wide_space(a: u8, b: u8, c: u8) -> bool {
    ||| a == 0xe1 && b == 0x9a && c == 0x80
    ||| a == 0xe2 && b == 0x80 && ((0x80 <= c && c <= 0x8a) || c == 0xa8 || c == 0xa9 || c == 0xaf)
    ||| a == 0xe2 && b == 0x81 && c == 0x9f
    ||| a == 0xe3 && b == 0x80 && c == 0x80
}

/// The number of bytes of the whitespace character whose encoding starts at
/// offset `at`, or 0 where none starts there: 1 for ASCII whitespace, 2 for
/// U+0085 and U+00A0, 3 for the others.
pub open spec fn space_at(s: Seq<u8>, at: int) -> int {
    if at < 0 || at >= s.len() {
        0
    } else if is_space(s[at]) {
        1
    } else if at + 1 < s.len() && s[at] == 0xc2 && (s[at + 1] == 0x85 || s[at + 1] == 0xa0) {
        2
    } else if at + 2 < s.len() && wide_space(s[at], s[at + 1], s[at + 2]) {
        3
    } else {
        0
    }
}

/// Whether `v` is the code point of a character that Unicode counts as
/// white space.
pub open spec fn is_white_space(v: u32) -> bool {
    ||| 0x09 <= v && v <= 0x0d
    ||| v == 0x20
    ||| v == 0x85
    ||| v == 0xa0
    ||| v == 0x1680
    ||| 0x2000 <= v && v <= 0x200a
    ||| v == 0x2028
    ||| v == 0x2029
    ||| v == 0x202f
    ||| v == 0x205f
    ||| v == 0x3000
}

/// Where the encoding of a character starts, a whitespace character is
/// found exactly if the character is white space, and then it is as long as
/// the encoding; whatever bytes follow.
pub proof fn lemma_space_is_white_space(v: u32, rest: Seq<u8>)
    requires
        is_scalar(v),
    ensures
        space_at(encode_scalar(v) + rest, 0) == (if is_white_space(v) {
            encode_scalar(v).len() as int
        } else {
            0
        }),
{
    let s = encode_scalar(v) + rest;
    assert(has_width_1_encoding(v) ==> (leading_byte_width_1(v) == v && leading_byte_width_1(v)
        < 0x80)) by (bit_vector);
    assert(has_width_2_encoding(v) ==> {
        &&& 0xc0 <= leading_byte_width_2(v) && leading_byte_width_2(v) <= 0xdf
        &&& (leading_byte_width_2(v) == 0xc2 && (last_continuation_byte(v) == 0x85
            || last_continuation_byte(v) == 0xa0)) == (v == 0x85 || v == 0xa0)
    }) by (bit_vector);
    assert(has_width_3_encoding(v) ==> {
        &&& 0xe0 <= leading_byte_width_3(v) && leading_byte_width_3(v) <= 0xef
        &&& wide_space(
            leading_byte_width_3(v),
            second_last_continuation_byte(v),
            last_continuation_byte(v),
        ) == (v == 0x1680 || (0x2000 <= v && v <= 0x200a) || v == 0x2028 || v == 0x2029 || v
            == 0x202f || v == 0x205f || v == 0x3000)
    }) by (bit_vector);
    assert(has_width_4_encoding(v) ==> leading_byte_width_4(v) >= 0xf0) by (bit_vector);
    if has_width_1_encoding(v) {
        assert(s[0] == leading_byte_width_1(v));
    } else if has_width_2_encoding(v) {
        assert(s[0] == leading_byte_width_2(v));
        assert(s[1] == last_continuation_byte(v));
    } else if has_width_3_encoding(v) {
        assert(s[0] == leading_byte_width_3(v));
        assert(s[1] == second_last_continuation_byte(v));
        assert(s[2] == last_continuation_byte(v));
    } else {
        assert(s[0] == leading_byte_width_4(v));
    }
}

/// Whether the byte at offset `at` parts two pieces: a line feed parts
/// lines, and every byte of a whitespace character parts words.
pub open spec fn parts(s: Seq<u8>, parting: Parting, at: int) -> bool {
    match parting {
        Parting::Lines => 0 <= at < s.len() && s[at] == 0x0a,
        Parting::Words => space_at(s, at) >= 1 || space_at(s, at - 1) >= 2 || space_at(s, at - 2)
            >= 3,
    }
}

/// Where the piece that holds offset `from` ends: the offset of the first
/// parting byte at or after `from`, or the end of the text.
pub open spec fn piece_end(s: Seq<u8>, parting: Parting, from: int) -> int
    decreases s.len() - from,
{
    if from >= s.len() || parts(s, parting, from) {
        from
    } else {
        piece_end(s, parting, from + 1)
    }
}

/// Whether a piece starts at offset `at`: the byte there parts nothing, and
/// the byte before it, if there is one, does.
pub open spec fn piece_starts(s: Seq<u8>, parting: Parting, at: int) -> bool {
    &&& 0 <= at < s.len()
    &&& !parts(s, parting, at)
    &&& (at == 0 || parts(s, parting, at - 1))
}

/// The pieces that start below `limit`, in order, each as its start and end
/// offset. A piece is a longest stretch without a parting byte; it is never
/// empty.
pub open spec fn pieces_below(s: Seq<u8>, parting: Parting, limit: int) -> Seq<(int, int)>
    decreases limit,
{
    if limit <= 0 {
        Seq::empty()
    } else if piece_starts(s, parting, limit - 1) {
        pieces_below(s, parting, limit - 1).push((limit - 1, piece_end(s, parting, limit - 1)))
    } else {
        pieces_below(s, parting, limit - 1)
    }
}

/// The pieces of `s`.
pub open spec fn pieces(s: Seq<u8>, parting: Parting) -> Seq<(int, int)> {
    pieces_below(s, parting, s.len() as int)
}

/// The first offset at or after `from` at which a hyphen stands, or the end
/// of the text.
pub open spec fn hyphen_from(s: Seq<u8>, from: int) -> int
    decreases s.len() - from,
{
    if from >= s.len() || s[from] == 0x2d {
        from
    } else {
        hyphen_from(s, from + 1)
    }
}

/// A region as contracts see it.
pub struct RegionView {
    pub start_address: Seq<u8>,
    pub end_address: Seq<u8>,
    pub protection: Seq<u8>,
    pub file_path: Option<Seq<u8>>,
}

/// One region of the target's memory, its fields as they stand in the
/// listing.
#[derive(Debug, PartialEq, Eq)]
pub struct Region {
    pub start_address: Vec<u8>,
    pub end_address: Vec<u8>,
    pub protection: Vec<u8>,
    pub file_path: Option<Vec<u8>>,
}

impl View for Region {
    type V = RegionView;

    open spec fn view(&self) -> RegionView {
        RegionView {
            start_address: self.start_address@,
            end_address: self.end_address@,
            protection: self.protection@,
            file_path: match self.file_path {
                Some(path) => Some(path@),
                None => None,
            },
        }
    }
}

/// The views of a sequence of regions, in order.
pub open spec fn region_views(regions: Seq<Region>) -> Seq<RegionView> {
    regions.map_values(|r: Region| r@)
}

/// The region that a line describes. The line needs two words, and in the
/// first exactly one hyphen: what stands before it is the start address,
/// what stands after it the end address. The second word is the protection,
/// a third the path; further words are ignored.
pub open spec fn region_of(line: Seq<u8>) -> Option<RegionView> {
    let words = pieces(line, Parting::Words);
    if words.len() < 2 {
        None
    } else {
        let range = line.subrange(words[0].0, words[0].1);
        let hyphen = hyphen_from(range, 0);
        if hyphen < range.len() && hyphen_from(range, hyphen + 1) == range.len() {
            Some(
                RegionView {
                    start_address: range.take(hyphen),
                    end_address: range.skip(hyphen + 1),
                    protection: line.subrange(words[1].0, words[1].1),
                    file_path: if words.len() >= 3 {
                        Some(line.subrange(words[2].0, words[2].1))
                    } else {
                        None
                    },
                },
            )
        } else {
            None
        }
    }
}

/// The regions of the first `n` lines of a listing: one for each line that
/// describes a region, in order.
pub open spec fn regions_below(listing: Seq<u8>, n: int) -> Seq<RegionView>
    decreases n,
{
    if n <= 0 {
        Seq::empty()
    } else {
        let head = regions_below(listing, n - 1);
        let line = pieces(listing, Parting::Lines)[n - 1];
        match region_of(listing.subrange(line.0, line.1)) {
            Some(region) => head.push(region),
            None => head,
        }
    }
}

/// The regions of a listing.
pub open spec fn regions_of(listing: Seq<u8>) -> Seq<RegionView> {
    regions_below(listing, pieces(listing, Parting::Lines).len() as int)
}

/// A piece ends inside the text, at or after its start; nothing parts inside
/// it, and at its end a parting byte stands or the text ends.
pub proof fn lemma_piece_end(s: Seq<u8>, parting: Parting, from: int)
    requires
        0 <= from <= s.len(),
    ensures
        from <= piece_end(s, parting, from) <= s.len(),
        forall|j: int|
            from <= j < piece_end(s, parting, from) ==> !(#[trigger] parts(s, parting, j)),
        piece_end(s, parting, from) < s.len() ==> parts(s, parting, piece_end(s, parting, from)),
    decreases s.len() - from,
{
    if from < s.len() && !parts(s, parting, from) {
        lemma_piece_end(s, parting, from + 1);
    }
}

/// Where no piece starts between two limits, the pieces below them are the
/// same.
proof fn lemma_pieces_gap(s: Seq<u8>, parting: Parting, low: int, high: int)
    requires
        low <= high,
        forall|j: int| low <= j < high ==> !piece_starts(s, parting, j),
    ensures
        pieces_below(s, parting, high) == pieces_below(s, parting, low),
    decreases high - low,
{
    if low < high {
        lemma_pieces_gap(s, parting, low, high - 1);
    }
}

/// Every piece lies inside the text and is not empty.
pub proof fn lemma_pieces_within(s: Seq<u8>, parting: Parting, limit: int)
    requires
        limit <= s.len(),
    ensures
        forall|i: int|
            0 <= i < pieces_below(s, parting, limit).len() ==> 0 <= (#[trigger] pieces_below(
                s,
                parting,
                limit,
            )[i]).0 < pieces_below(s, parting, limit)[i].1 <= s.len(),
    decreases limit,
{
    if limit > 0 {
        lemma_pieces_within(s, parting, limit - 1);
        let before = pieces_below(s, parting, limit - 1);
        let now = pieces_below(s, parting, limit);
        lemma_piece_end(s, parting, limit);
        assert forall|i: int| 0 <= i < now.len() implies 0 <= (#[trigger] now[i]).0 < now[i].1
            <= s.len() by {
            if i < before.len() {
                assert(now[i] == before[i]);
            }
        }
    }
}

/// The number of bytes of the whitespace character that starts at offset
/// `at` of `s`, or 0.
fn space_len(s: &[u8], at: usize) -> (n: usize)
    requires
        at < s@.len(),
    ensures
        n == space_at(s@, at as int),
{
    let left = s.len() - at;
    let a = s[at];
    if a == 0x20 || (0x09 <= a && a <= 0x0d) {
        1
    } else if a == 0xc2 {
        if left > 1 && (s[at + 1] == 0x85 || s[at + 1] == 0xa0) {
            2
        } else {
            0
        }
    } else if left > 2 {
        let b = s[at + 1];
        let c = s[at + 2];
        if (a == 0xe1 && b == 0x9a && c == 0x80) || (a == 0xe2 && b == 0x80 && ((0x80 <= c && c
            <= 0x8a) || c == 0xa8 || c == 0xa9 || c == 0xaf)) || (a == 0xe2 && b == 0x81 && c
            == 0x9f) || (a == 0xe3 && b == 0x80 && c == 0x80) {
            3
        } else {
            0
        }
    } else {
        0
    }
}

/// Whether the byte at offset `at` of `s` parts two pieces.
fn is_parting(s: &[u8], parting: Parting, at: usize) -> (r: bool)
    requires
        at < s@.len(),
    ensures
        r == parts(s@, parting, at as int),
{
    match parting {
        Parting::Lines => s[at] == 0x0a,
        Parting::Words => space_len(s, at) >= 1 || (at >= 1 && space_len(s, at - 1) >= 2) || (at
            >= 2 && space_len(s, at - 2) >= 3),
    }
}

/// The pieces of `s`, each as its start and end offset.
pub fn split(s: &[u8], parting: Parting) -> (found: Vec<(usize, usize)>)
    ensures
        found@.map_values(|p: (usize, usize)| (p.0 as int, p.1 as int)) == pieces(s@, parting),
        forall|i: int| 0 <= i < found@.len() ==> (#[trigger] found@[i]).0 < found@[i].1 <= s@.len(),
{
    let len = s.len();
    let ghost as_ints = |p: (usize, usize)| (p.0 as int, p.1 as int);
    let mut found: Vec<(usize, usize)> = Vec::new();
    let mut i: usize = 0;
    proof {
        assert(found@.map_values(as_ints) =~= pieces_below(s@, parting, 0));
    }
    while i < len
        invariant
            i <= len,
            len == s@.len(),
            as_ints == |p: (usize, usize)| (p.0 as int, p.1 as int),
            found@.map_values(as_ints) == pieces_below(s@, parting, i as int),
            i == 0 || i == len || parts(s@, parting, i - 1) || parts(s@, parting, i as int),
            forall|k: int| 0 <= k < found@.len() ==> (#[trigger] found@[k]).0 < found@[k].1 <= len,
        decreases len - i,
    {
        if is_parting(s, parting, i) {
            i = i + 1;
        } else {
            assert(piece_starts(s@, parting, i as int));
            let mut end: usize = i + 1;
            while end < len && !is_parting(s, parting, end)
                invariant
                    i < end <= len,
                    len == s@.len(),
                    piece_end(s@, parting, i as int) == piece_end(s@, parting, end as int),
                    forall|j: int| i <= j < end ==> !(#[trigger] parts(s@, parting, j)),
                decreases len - end,
            {
                end = end + 1;
            }
            proof {
                assert(piece_end(s@, parting, end as int) == end);
                assert forall|j: int| i + 1 <= j < end implies !piece_starts(s@, parting, j) by {
                    assert(!parts(s@, parting, j - 1));
                }
                lemma_pieces_gap(s@, parting, i + 1, end as int);
                assert(found@.push((i, end)).map_values(as_ints) =~= found@.map_values(
                    as_ints,
                ).push((i as int, end as int)));
            }
            found.push((i, end));
            i = end;
        }
    }
    found
}

/// The first offset at or after `from` at which a hyphen stands in `s`, or
/// its length.
fn find_hyphen(s: &[u8], from: usize) -> (at: usize)
    requires
        from <= s@.len(),
    ensures
        at == hyphen_from(s@, from as int),
        from <= at <= s@.len(),
{
    let mut at: usize = from;
    while at < s.len() && s[at] != 0x2d
        invariant
            from <= at <= s@.len(),
            hyphen_from(s@, from as int) == hyphen_from(s@, at as int),
        decreases s@.len() - at,
    {
        at = at + 1;
    }
    at
}

/// The region that `line` describes, or `None` where it describes none.
pub fn parse_region_line(line: &[u8]) -> (r: Option<Region>)
    ensures
        r is Some <==> region_of(line@) is Some,
        r matches Some(region) ==> region@ == region_of(line@).unwrap(),
{
    let words = split(line, Parting::Words);
    let ghost spans = pieces(line@, Parting::Words);
    proof {
        assert forall|k: int| 0 <= k < words@.len() implies spans[k] == (
            words@[k].0 as int,
            words@[k].1 as int,
        ) by {
            assert(words@.map_values(|p: (usize, usize)| (p.0 as int, p.1 as int))[k] == spans[k]);
        }
        assert(words@.len() == spans.len());
    }
    if words.len() < 2 {
        return None;
    }
    let range = vstd::slice::slice_subrange(line, words[0].0, words[0].1);
    let hyphen = find_hyphen(range, 0);
    if hyphen >= range.len() {
        return None;
    }
    if find_hyphen(range, hyphen + 1) != range.len() {
        return None;
    }
    let start_address = vstd::slice::slice_to_vec(vstd::slice::slice_subrange(range, 0, hyphen));
    let end_address = vstd::slice::slice_to_vec(
        vstd::slice::slice_subrange(range, hyphen + 1, range.len()),
    );
    let protection = vstd::slice::slice_to_vec(
        vstd::slice::slice_subrange(line, words[1].0, words[1].1),
    );
    let file_path = if words.len() >= 3 {
        Some(vstd::slice::slice_to_vec(vstd::slice::slice_subrange(line, words[2].0, words[2].1)))
    } else {
        None
    };
    Some(Region { start_address, end_address, protection, file_path })
}

/// The regions of a listing: one for each line that describes a region, in
/// the order of the lines.
pub fn parse_regions(listing: &[u8]) -> (regions: Vec<Region>)
    ensures
        region_views(regions@) == regions_of(listing@),
{
    let lines = split(listing, Parting::Lines);
    let ghost spans = pieces(listing@, Parting::Lines);
    let mut regions: Vec<Region> = Vec::new();
    let mut n: usize = 0;
    proof {
        assert(lines@.len() == spans.len()) by {
            assert(lines@.map_values(|p: (usize, usize)| (p.0 as int, p.1 as int)).len()
                == lines@.len());
        }
        assert(region_views(regions@) =~= regions_below(listing@, 0));
    }
    while n < lines.len()
        invariant
            n <= lines@.len(),
            lines@.len() == spans.len(),
            spans == pieces(listing@, Parting::Lines),
            lines@.map_values(|p: (usize, usize)| (p.0 as int, p.1 as int)) == spans,
            forall|i: int|
                0 <= i < lines@.len() ==> (#[trigger] lines@[i]).0 < lines@[i].1 <= listing@.len(),
            region_views(regions@) == regions_below(listing@, n as int),
        decreases lines@.len() - n,
    {
        let (start, end) = lines[n];
        proof {
            assert(lines@.map_values(|p: (usize, usize)| (p.0 as int, p.1 as int))[n as int]
                == spans[n as int]);
        }
        match parse_region_line(vstd::slice::slice_subrange(listing, start, end)) {
            Some(region) => {
                proof {
                    assert(region_views(regions@.push(region)) =~= region_views(regions@).push(
                        region@,
                    ));
                }
                regions.push(region);
            },
            None => {},
        }
        n = n + 1;
    }
    regions
}

/// The answer to a request for the regions of the target: `listing` is the
/// text that the target's enumeration wrote, well-formed UTF-8. Without a
/// target the request is refused.
pub fn enumerate_regions_handler(context: &TargetContext, listing: &[u8]) -> (r: Result<
    Vec<Region>,
    ApiError,
>)
    requires
        valid_utf8(listing@),
    ensures
        context.pid is None ==> r == Err::<Vec<Region>, ApiError>(ApiError::NotAttached),
        context.pid is Some ==> r is Ok && region_views(r.unwrap()@) == regions_of(listing@),
{
    if context.pid.is_none() {
        return Err(ApiError::NotAttached);
    }
    Ok(parse_regions(listing))
}

} // verus!
