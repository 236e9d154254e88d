//! Cutting address ranges into chunks: the units in which the target's
//! memory is read and searched.

use vstd::prelude::*;

verus! {

/// The size of a chunk: 512 MiB. The last chunk of a range may be shorter.
pub const CHUNK_SIZE: usize = 0x2000_0000;

/// A stretch of the target's memory to read in one piece.
#[derive(Clone, Copy, Debug, PartialEq, Eq, Structural)]
pub struct Chunk {
    pub start: usize,
    pub len: usize,
}

/// The number of chunks in the range from `start` to `end`: none where the
/// range is empty or its end lies before its start.
pub open spec fn chunk_count(start: int, end: int) -> int {
    if end <= start {
        0
    } else {
        (end - start + CHUNK_SIZE - 1) / (CHUNK_SIZE as int)
    }
}

/// Chunk number `i` of the range from `start` to `end`: it starts `i` chunk
/// sizes into the range and ends with the chunk size or the range.
pub open spec fn chunk_at(start: int, end: int, i: int) -> Chunk {
    let first = start + i * CHUNK_SIZE;
    Chunk {
        start: first as usize,
        len: (if end - first < CHUNK_SIZE {
            end - first
        } else {
            CHUNK_SIZE as int
        }) as usize,
    }
}

/// The chunks of one range, by ascending address.
pub open spec fn range_chunks(start: int, end: int) -> Seq<Chunk> {
    Seq::new(chunk_count(start, end) as nat, |i: int| chunk_at(start, end, i))
}

/// The chunks of all `ranges`, range after range.
pub open spec fn plan(ranges: Seq<(usize, usize)>) -> Seq<Chunk>
    decreases ranges.len(),
{
    if ranges.len() == 0 {
        Seq::empty()
    } else {
        plan(ranges.drop_last()) + range_chunks(ranges.last().0 as int, ranges.last().1 as int)
    }
}

/// Whether every chunk ends inside the address space.
pub open spec fn chunks_fit(chunks: Seq<Chunk>) -> bool {
    forall|i: int| 0 <= i < chunks.len() ==> (#[trigger] chunks[i]).start + chunks[i].len
        <= usize::MAX
}

/// The chunks of a range lie in it end to end: each starts where the one
/// before ends, none is empty, none is longer than the chunk size, and the
/// last ends with the range.
pub proof fn lemma_range_chunks(start: usize, end: usize)
    ensures
        forall|i: int|
            0 <= i < chunk_count(start as int, end as int) ==> ({
                let c = #[trigger] chunk_at(start as int, end as int, i);
                &&& c.start == start + i * CHUNK_SIZE
                &&& 0 < c.len <= CHUNK_SIZE
                &&& c.start + c.len <= end
                &&& (i + 1 < chunk_count(start as int, end as int) ==> c.len == CHUNK_SIZE)
                &&& (i + 1 == chunk_count(start as int, end as int) ==> c.start + c.len == end)
            }),
{
    let n = chunk_count(start as int, end as int);
    assert forall|i: int| 0 <= i < n implies {
        let c = #[trigger] chunk_at(start as int, end as int, i);
        &&& c.start == start + i * CHUNK_SIZE
        &&& 0 < c.len <= CHUNK_SIZE
        &&& c.start + c.len <= end
        &&& (i + 1 < n ==> c.len == CHUNK_SIZE)
        &&& (i + 1 == n ==> c.start + c.len == end)
    } by {
        let size = end - start;
        assert(n == (size + 0x2000_0000 - 1) / 0x2000_0000);
        assert(i * 0x2000_0000 < size);
        assert(size <= n * 0x2000_0000);
    }
}

/// The number of chunks in the range from `start` to `end`.
pub fn count_chunks(start: usize, end: usize) -> (n: usize)
    ensures
        n == chunk_count(start as int, end as int),
{
    if end <= start {
        return 0;
    }
    let size = end - start;
    let whole = size / CHUNK_SIZE;
    if size % CHUNK_SIZE == 0 {
        whole
    } else {
        whole + 1
    }
}

/// Chunk number `i` of the range from `start` to `end`.
pub fn nth_chunk(start: usize, end: usize, i: usize) -> (chunk: Chunk)
    requires
        i < chunk_count(start as int, end as int),
    ensures
        chunk == chunk_at(start as int, end as int, i as int),
        chunk.start + chunk.len <= end,
{
    proof {
        lemma_range_chunks(start, end);
        let c = chunk_at(start as int, end as int, i as int);
        assert(c.start == start + i * CHUNK_SIZE);
    }
    let first = start + i * CHUNK_SIZE;
    let left = end - first;
    Chunk {
        start: first,
        len: if left < CHUNK_SIZE {
            left
        } else {
            CHUNK_SIZE
        },
    }
}

/// The chunks of all `ranges`, range after range.
pub fn plan_chunks(ranges: &Vec<(usize, usize)>) -> (chunks: Vec<Chunk>)
    ensures
        chunks@ == plan(ranges@),
        chunks_fit(chunks@),
{
    let mut chunks: Vec<Chunk> = Vec::new();
    let mut r: usize = 0;
    proof {
        assert(ranges@.take(0) =~= Seq::<(usize, usize)>::empty());
    }
    while r < ranges.len()
        invariant
            r <= ranges@.len(),
            chunks@ == plan(ranges@.take(r as int)),
            chunks_fit(chunks@),
        decreases ranges@.len() - r,
    {
        let (start, end) = ranges[r];
        let n = count_chunks(start, end);
        let ghost before = chunks@;
        let mut i: usize = 0;
        while i < n
            invariant
                i <= n,
                n == chunk_count(start as int, end as int),
                chunks@ == before + range_chunks(start as int, end as int).take(i as int),
                chunks_fit(chunks@),
            decreases n - i,
        {
            let chunk = nth_chunk(start, end, i);
            let ghost so_far = chunks@;
            chunks.push(chunk);
            proof {
                let all = range_chunks(start as int, end as int);
                assert(all.take(i + 1) =~= all.take(i as int).push(all[i as int]));
                assert(chunks@ =~= before + all.take(i + 1));
                assert forall|j: int| 0 <= j < chunks@.len() implies (#[trigger] chunks@[j]).start
                    + chunks@[j].len <= usize::MAX by {
                    if j < so_far.len() {
                        assert(chunks@[j] == so_far[j]);
                    }
                }
            }
            i = i + 1;
        }
        proof {
            let all = range_chunks(start as int, end as int);
            assert(all.take(n as int) =~= all);
            assert(ranges@.take(r + 1).drop_last() =~= ranges@.take(r as int));
            assert(ranges@.take(r + 1).last() == ranges@[r as int]);
        }
        r = r + 1;
    }
    proof {
        assert(ranges@.take(ranges@.len() as int) =~= ranges@);
    }
    chunks
}

} // verus!
