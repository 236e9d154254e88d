//! Searching one chunk of the target's memory.
//!
//! A chunk is a buffer read at a base address. A search yields candidate
//! stretches of it: the occurrences of a byte pattern, the matches of a
//! regular expression, or every value-sized slot of a snapshot. Of these the
//! ones at aligned addresses become matches.

use crate::hexcode::{hex_bytes, hex_encode, hex_text, is_hex_text, lemma_hex_round_trip, parse_hex};
use crate::model::{views, DataType, FindMode, Match, MatchView};
use crate::numeric::{
    le_read_u16, le_read_u32, le_read_u64, le_value, lemma_le_bytes_of_value, write_unsigned,
};
use crate::search::{
    find_all, literal_spans, regex_compiles, regex_find_spans, regex_spans, span_views,
    spans_within,
};
use vstd::prelude::*;

verus! {

/// The value that a match over `span` of `data` carries: `echo` where there
/// is one, else the hexadecimal text of the bytes in the span.
pub open spec fn span_value(data: Seq<u8>, span: (int, int), echo: Option<Seq<char>>) -> Seq<char> {
    match echo {
        Some(text) => text,
        None => hex_text(data.subrange(span.0, span.1)),
    }
}

/// The matches that `spans` give in a chunk `data` read at address `base`:
/// one for each span whose start address is a multiple of `align`, in the
/// order of the spans.
pub open spec fn span_matches(
    spans: Seq<(int, int)>,
    data: Seq<u8>,
    base: int,
    align: int,
    echo: Option<Seq<char>>,
) -> Seq<MatchView>
    decreases spans.len(),
{
    if spans.len() == 0 {
        Seq::empty()
    } else {
        let head = span_matches(spans.drop_last(), data, base, align, echo);
        let span = spans.last();
        if (base + span.0) % align == 0 {
            head.push(MatchView { address: base + span.0, value: span_value(data, span, echo) })
        } else {
            head
        }
    }
}

/// The slots of a snapshot: a buffer of `len` bytes cut into stretches of
/// `width` bytes from its start; what is left over at the end is no slot.
pub open spec fn slot_spans(len: nat, width: nat) -> Seq<(int, int)> {
    Seq::new(len / width, |k: int| (k * width, k * width + width))
}

/// The matches of one chunk `data` read at address `base`.
///
/// An exact scan for a regular expression reports its matches with the bytes
/// matched; for any other type it reads `pattern` as hexadecimal bytes and
/// reports every occurrence with `pattern` itself as value. A pattern that
/// is no regular expression, or no hexadecimal text, finds nothing. A
/// snapshot reports every slot of the type's width with the bytes in it.
pub open spec fn chunk_matches(
    mode: FindMode,
    t: DataType,
    pattern: Seq<char>,
    align: int,
    base: int,
    data: Seq<u8>,
) -> Seq<MatchView> {
    match mode {
        FindMode::Exact => if t == DataType::Regex {
            if regex_compiles(pattern) {
                span_matches(regex_spans(pattern, data), data, base, align, None)
            } else {
                Seq::empty()
            }
        } else if is_hex_text(pattern) {
            span_matches(
                literal_spans(data, hex_bytes(pattern)),
                data,
                base,
                align,
                Some(pattern),
            )
        } else {
            Seq::empty()
        },
        FindMode::Unknown => span_matches(
            slot_spans(data.len(), t.step_width()),
            data,
            base,
            align,
            None,
        ),
        FindMode::Other => Seq::empty(),
    }
}

/// Every match made from spans stands for one of them: it is at an aligned
/// address, at the start of its span, with that span's value; and there are
/// no more matches than spans.
pub proof fn lemma_span_matches(
    spans: Seq<(int, int)>,
    data: Seq<u8>,
    base: int,
    align: int,
    echo: Option<Seq<char>>,
)
    ensures
        span_matches(spans, data, base, align, echo).len() <= spans.len(),
        forall|i: int|
            0 <= i < span_matches(spans, data, base, align, echo).len() ==> ({
                let m = #[trigger] span_matches(spans, data, base, align, echo)[i];
                &&& m.address % align == 0
                &&& exists|j: int|
                    0 <= j < spans.len() && m.address == base + (#[trigger] spans[j]).0 && m.value
                        == span_value(data, spans[j], echo)
            }),
    decreases spans.len(),
{
    if spans.len() > 0 {
        let front = spans.drop_last();
        lemma_span_matches(front, data, base, align, echo);
        let head = span_matches(front, data, base, align, echo);
        let all = span_matches(spans, data, base, align, echo);
        assert forall|i: int| 0 <= i < all.len() implies {
            let m = #[trigger] all[i];
            &&& m.address % align == 0
            &&& exists|j: int|
                0 <= j < spans.len() && m.address == base + (#[trigger] spans[j]).0 && m.value
                    == span_value(data, spans[j], echo)
        } by {
            let m = all[i];
            if i < head.len() {
                assert(m == head[i]);
                let j = choose|j: int|
                    0 <= j < front.len() && m.address == base + (#[trigger] front[j]).0 && m.value
                        == span_value(data, front[j], echo);
                assert(spans[j] == front[j]);
            } else {
                assert(m.address == base + spans[spans.len() - 1].0);
            }
        }
    }
}

/// Spans with one more at the end give the same matches, and one more where
/// the new span starts at an aligned address.
proof fn lemma_span_matches_push(
    spans: Seq<(int, int)>,
    span: (int, int),
    data: Seq<u8>,
    base: int,
    align: int,
    echo: Option<Seq<char>>,
)
    ensures
        span_matches(spans.push(span), data, base, align, echo) == (if (base + span.0) % align
            == 0 {
            span_matches(spans, data, base, align, echo).push(
                MatchView { address: base + span.0, value: span_value(data, span, echo) },
            )
        } else {
            span_matches(spans, data, base, align, echo)
        }),
{
    assert(spans.push(span).drop_last() =~= spans);
}

/// The matches that `spans` give in the chunk `data` read at `base`: for
/// each span at an aligned address a match with `echo` as value, or, without
/// an `echo`, the hexadecimal text of the span's bytes.
pub fn matches_of_spans(
    spans: &Vec<(usize, usize)>,
    data: &[u8],
    base: usize,
    align: usize,
    echo: Option<&str>,
) -> (found: Vec<Match>)
    requires
        align > 0,
        base + data@.len() <= usize::MAX,
        spans_within(span_views(spans@), data@.len() as int),
    ensures
        views(found@) == span_matches(
            span_views(spans@),
            data@,
            base as int,
            align as int,
            match echo {
                Some(text) => Some(text@),
                None => None,
            },
        ),
{
    let ghost echoed: Option<Seq<char>> = match echo {
        Some(text) => Some(text@),
        None => None,
    };
    let ghost all = span_views(spans@);
    let mut found: Vec<Match> = Vec::new();
    let mut i: usize = 0;
    proof {
        assert(all.take(0) =~= Seq::<(int, int)>::empty());
        assert(views(found@) =~= Seq::<MatchView>::empty());
    }
    while i < spans.len()
        invariant
            i <= spans@.len(),
            align > 0,
            base + data@.len() <= usize::MAX,
            all == span_views(spans@),
            spans_within(all, data@.len() as int),
            echoed == match echo {
                Some(text) => Some(text@),
                None => None,
            },
            views(found@) == span_matches(all.take(i as int), data@, base as int, align as int, echoed),
        decreases spans@.len() - i,
    {
        let (start, end) = spans[i];
        proof {
            assert(all[i as int] == (start as int, end as int));
            assert(all.take(i + 1) =~= all.take(i as int).push(all[i as int]));
            lemma_span_matches_push(
                all.take(i as int),
                all[i as int],
                data@,
                base as int,
                align as int,
                echoed,
            );
        }
        let address = base + start;
        if address % align == 0 {
            let value = match echo {
                Some(text) => text.to_owned(),
                None => hex_encode(vstd::slice::slice_subrange(data, start, end)),
            };
            let item = Match { address, value };
            proof {
                assert(views(found@.push(item)) =~= views(found@).push(item@));
            }
            found.push(item);
        }
        i = i + 1;
    }
    proof {
        assert(all.take(spans@.len() as int) =~= all);
    }
    found
}

/// The number in one slot of a snapshot, least significant byte first.
fn slot_number(slot: &[u8]) -> (value: u64)
    requires
        slot@.len() == 1 || slot@.len() == 2 || slot@.len() == 4 || slot@.len() == 8,
    ensures
        value == le_value(slot@),
{
    proof {
        assert(slot@.subrange(0, slot@.len() as int) =~= slot@);
        reveal_with_fuel(le_value, 2);
    }
    if slot.len() == 2 {
        le_read_u16(slot) as u64
    } else if slot.len() == 4 {
        le_read_u32(slot) as u64
    } else if slot.len() == 8 {
        le_read_u64(slot)
    } else {
        proof {
            assert(slot@.drop_first() =~= Seq::<u8>::empty());
        }
        slot[0] as u64
    }
}

/// The matches of a snapshot of the chunk `data` read at `base`: every slot
/// of `width` bytes at an aligned address, valued by the number in it,
/// written out again at the same width.
pub fn snapshot(data: &[u8], base: usize, align: usize, width: usize) -> (found: Vec<Match>)
    requires
        align > 0,
        base + data@.len() <= usize::MAX,
        width == 1 || width == 2 || width == 4 || width == 8,
    ensures
        views(found@) == span_matches(
            slot_spans(data@.len(), width as nat),
            data@,
            base as int,
            align as int,
            None,
        ),
{
    let len = data.len();
    let count = len / width;
    let ghost all = slot_spans(data@.len(), width as nat);
    let mut found: Vec<Match> = Vec::new();
    let mut k: usize = 0;
    let mut offset: usize = 0;
    proof {
        assert(all.take(0) =~= Seq::<(int, int)>::empty());
        assert(views(found@) =~= Seq::<MatchView>::empty());
        assert(count * width <= len) by (nonlinear_arith)
            requires
                count == len / width,
                width > 0,
        ;
    }
    while k < count
        invariant
            k <= count,
            count == len / width,
            count * width <= len,
            len == data@.len(),
            offset == k * width,
            align > 0,
            base + data@.len() <= usize::MAX,
            width == 1 || width == 2 || width == 4 || width == 8,
            all == slot_spans(data@.len(), width as nat),
            views(found@) == span_matches(all.take(k as int), data@, base as int, align as int, None),
        decreases count - k,
    {
        proof {
            assert((k + 1) * width <= count * width) by (nonlinear_arith)
                requires
                    k + 1 <= count,
                    width > 0,
            ;
            assert((k + 1) * width == k * width + width) by (nonlinear_arith);
            assert(all[k as int] == (offset as int, offset + width));
            assert(all.take(k + 1) =~= all.take(k as int).push(all[k as int]));
            lemma_span_matches_push(
                all.take(k as int),
                all[k as int],
                data@,
                base as int,
                align as int,
                None,
            );
        }
        let address = base + offset;
        if address % align == 0 {
            let slot = vstd::slice::slice_subrange(data, offset, offset + width);
            let number = slot_number(slot);
            let bytes = write_unsigned(number, width);
            proof {
                lemma_le_bytes_of_value(slot@);
            }
            let item = Match { address, value: hex_encode(bytes.as_slice()) };
            proof {
                assert(views(found@.push(item)) =~= views(found@).push(item@));
            }
            found.push(item);
        }
        offset = offset + width;
        k = k + 1;
    }
    proof {
        assert(all.take(count as int) =~= all);
    }
    found
}

/// The matches of one chunk: the buffer `data`, read at address `base`,
/// searched as `mode` and `t` say, and only at multiples of `align`.
pub fn scan_chunk(
    mode: FindMode,
    t: DataType,
    pattern: &str,
    align: usize,
    base: usize,
    data: &[u8],
) -> (found: Vec<Match>)
    requires
        align > 0,
        base + data@.len() <= usize::MAX,
    ensures
        views(found@) == chunk_matches(mode, t, pattern@, align as int, base as int, data@),
        forall|i: int| 0 <= i < found@.len() ==> (#[trigger] found@[i]).address % align == 0,
{
    let found = match mode {
        FindMode::Exact => {
            if t == DataType::Regex {
                match regex_find_spans(pattern, data) {
                    Ok(spans) => matches_of_spans(&spans, data, base, align, None),
                    Err(_) => Vec::new(),
                }
            } else {
                match parse_hex(pattern) {
                    Some(needle) => {
                        let spans = find_all(data, needle.as_slice());
                        matches_of_spans(&spans, data, base, align, Some(pattern))
                    },
                    None => Vec::new(),
                }
            }
        },
        FindMode::Unknown => snapshot(data, base, align, t.step()),
        FindMode::Other => Vec::new(),
    };
    proof {
        let expected = chunk_matches(mode, t, pattern@, align as int, base as int, data@);
        assert(found@.len() == 0 ==> views(found@) =~= Seq::<MatchView>::empty());
        lemma_chunk_matches_aligned(mode, t, pattern@, align as int, base as int, data@);
        assert forall|i: int| 0 <= i < found@.len() implies (#[trigger] found@[i]).address % align
            == 0 by {
            assert(views(found@)[i] == found@[i]@);
            assert(expected[i].address % (align as int) == 0);
        }
    }
    found
}

/// Every address that a scan of a chunk reports is a multiple of the
/// alignment, whatever the mode, the type and the pattern.
pub proof fn lemma_chunk_matches_aligned(
    mode: FindMode,
    t: DataType,
    pattern: Seq<char>,
    align: int,
    base: int,
    data: Seq<u8>,
)
    ensures
        forall|i: int|
            0 <= i < chunk_matches(mode, t, pattern, align, base, data).len() ==> (
            #[trigger] chunk_matches(mode, t, pattern, align, base, data)[i]).address % align == 0,
{
    lemma_span_matches(regex_spans(pattern, data), data, base, align, None);
    lemma_span_matches(
        literal_spans(data, hex_bytes(pattern)),
        data,
        base,
        align,
        Some(pattern),
    );
    lemma_span_matches(slot_spans(data.len(), t.step_width()), data, base, align, None);
}

/// Every match of a snapshot carries the bytes of one slot: its value is
/// well-formed hexadecimal text of twice the type's width, it spells the
/// bytes that stand at its address, and so the same number.
pub proof fn lemma_snapshot_values(t: DataType, pattern: Seq<char>, align: int, base: int, data: Seq<u8>)
    ensures
        forall|i: int|
            0 <= i < chunk_matches(FindMode::Unknown, t, pattern, align, base, data).len() ==> ({
                let m = #[trigger] chunk_matches(FindMode::Unknown, t, pattern, align, base, data)[i];
                let at = m.address - base;
                &&& 0 <= at
                &&& at + t.step_width() <= data.len()
                &&& is_hex_text(m.value)
                &&& m.value.len() == 2 * t.step_width()
                &&& hex_bytes(m.value) == data.subrange(at, at + t.step_width())
                &&& le_value(hex_bytes(m.value)) == le_value(data.subrange(at, at + t.step_width()))
            }),
{
    let width = t.step_width();
    let spans = slot_spans(data.len(), width);
    let all = chunk_matches(FindMode::Unknown, t, pattern, align, base, data);
    lemma_span_matches(spans, data, base, align, None);
    assert forall|i: int| 0 <= i < all.len() implies {
        let m = #[trigger] all[i];
        let at = m.address - base;
        &&& 0 <= at
        &&& at + width <= data.len()
        &&& is_hex_text(m.value)
        &&& m.value.len() == 2 * width
        &&& hex_bytes(m.value) == data.subrange(at, at + width)
        &&& le_value(hex_bytes(m.value)) == le_value(data.subrange(at, at + width))
    } by {
        let m = all[i];
        let j = choose|j: int|
            0 <= j < spans.len() && m.address == base + (#[trigger] spans[j]).0 && m.value
                == span_value(data, spans[j], None);
        assert(spans[j] == (j * width, j * width + width));
        assert(0 <= j * width && (j + 1) * width <= data.len()) by (nonlinear_arith)
            requires
                0 <= j < data.len() / width,
                width > 0,
        ;
        assert((j + 1) * width == j * width + width) by (nonlinear_arith);
        lemma_hex_round_trip(data.subrange(j * width, j * width + width));
    }
}

} // verus!
