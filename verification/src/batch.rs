//! Batched reads on the wire: one record for each read, in the order of the
//! requests, with nothing between them.
//!
//! A read that succeeded is a record of a flag 1, the length of a block, and
//! the block: the bytes read, compressed. A read that failed is a flag 0 and
//! nothing more. Flag and length are 32-bit numbers, least significant byte
//! first. A reader walks the buffer from its start, record by record.

use crate::filter::read_views;
use crate::numeric::{
    le_bytes, le_value, lemma_le_value_bound, lemma_le_value_of_bytes, lemma_pow256_values,
    read_unsigned, write_unsigned,
};
use crate::target::{ApiError, TargetContext};
use vstd::prelude::*;

verus! {

/// The bytes of one record: for a block, flag 1, the block's length and the
/// block; for a failed read, flag 0.
pub open spec fn record_bytes(block: Option<Seq<u8>>) -> Seq<u8> {
    match block {
        Some(bytes) => le_bytes(1, 4) + le_bytes(bytes.len(), 4) + bytes,
        None => le_bytes(0, 4),
    }
}

/// The bytes of a batch: its records one after the other.
pub open spec fn batch_bytes(blocks: Seq<Option<Seq<u8>>>) -> Seq<u8>
    decreases blocks.len(),
{
    if blocks.len() == 0 {
        Seq::empty()
    } else {
        record_bytes(blocks[0]) + batch_bytes(blocks.drop_first())
    }
}

/// The records that `buf` holds, read from its start: for each a block or
/// the mark of a failed read. `None` where `buf` is no batch: a flag other
/// than 0 and 1, or a record that runs past the end.
pub open spec fn parse_batch(buf: Seq<u8>) -> Option<Seq<Option<Seq<u8>>>>
    decreases buf.len(),
{
    if buf.len() == 0 {
        Some(Seq::empty())
    } else if buf.len() < 4 {
        None
    } else if le_value(buf.subrange(0, 4)) == 0 {
        match parse_batch(buf.skip(4)) {
            Some(rest) => Some(seq![None] + rest),
            None => None,
        }
    } else if le_value(buf.subrange(0, 4)) == 1 && buf.len() >= 8 && buf.len() >= 8 + le_value(
        buf.subrange(4, 8),
    ) {
        let end = 8 + le_value(buf.subrange(4, 8)) as int;
        match parse_batch(buf.skip(end)) {
            Some(rest) => Some(seq![Some(buf.subrange(8, end))] + rest),
            None => None,
        }
    } else {
        None
    }
}

/// Whether every block is short enough for its length to fit the record.
pub open spec fn blocks_fit(blocks: Seq<Option<Seq<u8>>>) -> bool {
    forall|i: int|
        0 <= i < blocks.len() ==> ((#[trigger] blocks[i]) matches Some(bytes) ==> bytes.len()
            <= u32::MAX)
}

/// A record followed by any bytes reads as that record, and the rest reads
/// on from the bytes that follow.
proof fn lemma_parse_record(block: Option<Seq<u8>>, rest: Seq<u8>)
    requires
        block matches Some(bytes) ==> bytes.len() <= u32::MAX,
    ensures
        parse_batch(record_bytes(block) + rest) == (match parse_batch(rest) {
            Some(more) => Some(seq![block] + more),
            None => None,
        }),
{
    let buf = record_bytes(block) + rest;
    lemma_pow256_values();
    match block {
        Some(bytes) => {
            lemma_le_value_of_bytes(1, 4);
            lemma_le_value_of_bytes(bytes.len(), 4);
            assert(buf.subrange(0, 4) =~= le_bytes(1, 4));
            assert(buf.subrange(4, 8) =~= le_bytes(bytes.len(), 4));
            let end = 8 + bytes.len() as int;
            assert(buf.subrange(8, end) =~= bytes);
            assert(buf.skip(end) =~= rest);
        },
        None => {
            lemma_le_value_of_bytes(0, 4);
            assert(buf.subrange(0, 4) =~= le_bytes(0, 4));
            assert(buf.skip(4) =~= rest);
        },
    }
}

/// Reading a batch gives back the records it was written from, in their
/// order: each block as it was, each failed read as a failed read.
pub proof fn lemma_batch_round_trip(blocks: Seq<Option<Seq<u8>>>)
    requires
        blocks_fit(blocks),
    ensures
        parse_batch(batch_bytes(blocks)) == Some(blocks),
    decreases blocks.len(),
{
    if blocks.len() > 0 {
        let rest = blocks.drop_first();
        assert forall|i: int| 0 <= i < rest.len() implies ((#[trigger] rest[i]) matches Some(
            bytes,
        ) ==> bytes.len() <= u32::MAX) by {
            assert(rest[i] == blocks[i + 1]);
        }
        lemma_batch_round_trip(rest);
        lemma_parse_record(blocks[0], batch_bytes(rest));
        assert(seq![blocks[0]] + rest =~= blocks);
    }
}

/// A batch with one more record at its end.
proof fn lemma_batch_push(blocks: Seq<Option<Seq<u8>>>, block: Option<Seq<u8>>)
    ensures
        batch_bytes(blocks.push(block)) == batch_bytes(blocks) + record_bytes(block),
    decreases blocks.len(),
{
    let longer = blocks.push(block);
    if blocks.len() == 0 {
        assert(longer[0] == block);
        assert(longer.drop_first() =~= Seq::<Option<Seq<u8>>>::empty());
        assert(batch_bytes(longer.drop_first()) =~= Seq::<u8>::empty());
        assert(batch_bytes(blocks) =~= Seq::<u8>::empty());
        assert(batch_bytes(longer) =~= batch_bytes(blocks) + record_bytes(block));
    } else {
        lemma_batch_push(blocks.drop_first(), block);
        assert(longer[0] == blocks[0]);
        assert(longer.drop_first() =~= blocks.drop_first().push(block));
        assert(batch_bytes(longer) == record_bytes(blocks[0]) + batch_bytes(longer.drop_first()));
        assert(batch_bytes(longer) =~= batch_bytes(blocks) + record_bytes(block));
    }
}

/// The error of the `lz4::block` functions, carried through unread.
#[verifier::external_type_specification]
#[verifier::external_body]
pub struct ExIoError(std::io::Error);

/// What `lz4::block::decompress` makes of `block`, a block that starts with
/// the length of its content: the content, or `None` where it reports an
/// error.
pub uninterp spec fn lz4_unpacked(block: Seq<u8>) -> Option<Seq<u8>>;

/// The largest number of bytes that the compressor takes in one piece.
pub const MAX_PACKED_INPUT: usize = 0x7E00_0000;

/// The largest number of bytes that a block for `len` bytes can have: the
/// bound that the compressor gives for its output, and four bytes for the
/// length that stands before it.
pub open spec fn block_bound(len: nat) -> nat {
    len + len / 255 + 20
}

/// `lz4::block::compress` in its default mode, with the length of `data`
/// before the compressed bytes. It succeeds exactly on input of at most
/// `MAX_PACKED_INPUT` bytes: longer input it refuses, and for any other its
/// output buffer is as large as the compressor asks for. What it returns is
/// no longer than that buffer, and `lz4::block::decompress` turns it back
/// into `data`. The bytes of the block are not stated: the compressor may
/// choose them differently from one machine to another.
#[verifier::external_body]
pub(crate) fn lz4_pack(data: &[u8]) -> (r: Result<Vec<u8>, std::io::Error>)
    ensures
        r is Ok <==> data@.len() <= MAX_PACKED_INPUT,
        r matches Ok(block) ==> lz4_unpacked(block@) == Some(data@),
        r matches Ok(block) ==> block@.len() <= block_bound(data@.len()),
{
    lz4::block::compress(data, None, true)
}

/// `lz4::block::decompress` of a block that starts with the length of its
/// content.
#[verifier::external_body]
pub(crate) fn lz4_unpack(block: &[u8]) -> (r: Result<Vec<u8>, std::io::Error>)
    ensures
        r matches Ok(data) ==> lz4_unpacked(block@) == Some(data@),
        r is Err ==> lz4_unpacked(block@) is None,
{
    lz4::block::decompress(block, None)
}

/// Adds all of `more` at the end of `out`.
fn extend(out: &mut Vec<u8>, more: &[u8])
    ensures
        final(out)@ == old(out)@ + more@,
{
    let mut i: usize = 0;
    proof {
        assert(out@ =~= old(out)@ + more@.take(0));
    }
    while i < more.len()
        invariant
            i <= more@.len(),
            out@ == old(out)@ + more@.take(i as int),
        decreases more@.len() - i,
    {
        out.push(more[i]);
        proof {
            assert(more@.take(i + 1) =~= more@.take(i as int).push(more@[i as int]));
            assert(out@ =~= old(out)@ + more@.take(i + 1));
        }
        i = i + 1;
    }
    proof {
        assert(more@.take(more@.len() as int) =~= more@);
    }
}

/// The record of a failed read.
pub fn failure_record() -> (record: Vec<u8>)
    ensures
        record@ == record_bytes(None),
{
    write_unsigned(0, 4)
}

/// The record of the block `block`; `None` where the block is too long for
/// its length to fit the record.
pub fn success_record(block: &[u8]) -> (r: Option<Vec<u8>>)
    ensures
        r is Some <==> block@.len() <= u32::MAX,
        r matches Some(record) ==> record@ == record_bytes(Some(block@)),
{
    if block.len() > 0xffff_ffff {
        return None;
    }
    let mut record = write_unsigned(1, 4);
    let length = write_unsigned(block.len() as u64, 4);
    extend(&mut record, length.as_slice());
    extend(&mut record, block);
    Some(record)
}

/// The record of one read: `outcome` is what the read gave.
///
/// A failed read always has its record. Bytes read have theirs unless there
/// are more of them than the compressor takes; the record holds a block
/// that unpacks to them and is no longer than the compressor's bound.
pub fn encode_read(outcome: Option<&[u8]>) -> (r: Result<Vec<u8>, ApiError>)
    ensures
        outcome is None ==> r is Ok && r.unwrap()@ == record_bytes(None),
        outcome matches Some(data) ==> (r is Ok <==> data@.len() <= MAX_PACKED_INPUT),
        r matches Err(e) ==> e == ApiError::PackingFailure,
        outcome matches Some(data) ==> (r matches Ok(record) ==> exists|block: Seq<u8>|
            {
                &&& #[trigger] lz4_unpacked(block) == Some(data@)
                &&& block.len() <= block_bound(data@.len())
                &&& block.len() <= u32::MAX
                &&& record@ == record_bytes(Some(block))
            }),
{
    match outcome {
        None => Ok(failure_record()),
        Some(data) => match lz4_pack(data) {
            Ok(block) => match success_record(block.as_slice()) {
                Some(record) => {
                    proof {
                        assert(lz4_unpacked(block@) == Some(data@));
                    }
                    Ok(record)
                },
                None => Err(ApiError::PackingFailure),
            },
            Err(_) => Err(ApiError::PackingFailure),
        },
    }
}

/// Whether every read that gave bytes gave no more than the compressor
/// takes.
pub open spec fn packable(reads: Seq<Option<Seq<u8>>>) -> bool {
    forall|i: int|
        0 <= i < reads.len() ==> ((#[trigger] reads[i]) matches Some(data) ==> data.len()
            <= MAX_PACKED_INPUT)
}

/// Whether `blocks` pack `reads`: a failed read for each failed read, and
/// for each read that gave bytes a block that unpacks to them and is no
/// longer than the compressor's bound for them.
pub open spec fn packs(blocks: Seq<Option<Seq<u8>>>, reads: Seq<Option<Seq<u8>>>) -> bool {
    &&& blocks.len() == reads.len()
    &&& forall|i: int|
        0 <= i < blocks.len() ==> match #[trigger] blocks[i] {
            Some(block) => reads[i] is Some && lz4_unpacked(block) == reads[i] && block.len()
                <= block_bound(reads[i].unwrap().len()),
            None => reads[i] is None,
        }
}

/// The content of every block; `None` where one does not unpack.
pub open spec fn unpack_all(blocks: Seq<Option<Seq<u8>>>) -> Option<Seq<Option<Seq<u8>>>>
    decreases blocks.len(),
{
    if blocks.len() == 0 {
        Some(Seq::empty())
    } else {
        match unpack_all(blocks.drop_last()) {
            Some(head) => match blocks.last() {
                Some(block) => match lz4_unpacked(block) {
                    Some(data) => Some(head.push(Some(data))),
                    None => None,
                },
                None => Some(head.push(None)),
            },
            None => None,
        }
    }
}

/// What a reader gets out of `buf`: the bytes of each read that succeeded
/// and a mark for each that failed, in the order of the records. `None`
/// where `buf` is no batch or a block does not unpack.
pub open spec fn decoded_batch(buf: Seq<u8>) -> Option<Seq<Option<Seq<u8>>>> {
    match parse_batch(buf) {
        Some(blocks) => unpack_all(blocks),
        None => None,
    }
}

/// Blocks that pack reads unpack to those reads.
pub proof fn lemma_unpack_packed(blocks: Seq<Option<Seq<u8>>>, reads: Seq<Option<Seq<u8>>>)
    requires
        packs(blocks, reads),
    ensures
        unpack_all(blocks) == Some(reads),
    decreases blocks.len(),
{
    if blocks.len() == 0 {
        assert(reads =~= Seq::<Option<Seq<u8>>>::empty());
    } else {
        let front = blocks.drop_last();
        let head = reads.drop_last();
        assert forall|i: int| 0 <= i < front.len() implies match #[trigger] front[i] {
            Some(block) => head[i] is Some && lz4_unpacked(block) == head[i],
            None => head[i] is None,
        } by {
            assert(front[i] == blocks[i]);
            assert(head[i] == reads[i]);
        }
        lemma_unpack_packed(front, head);
        let last = blocks[blocks.len() - 1];
        assert(head.push(reads.last()) =~= reads);
    }
}

/// The answer to a batch of reads: `outcomes` holds what each read gave, in
/// the order of the requests, and the answer holds one record for each.
///
/// Without a target the request is refused. With one, the batch is
/// answered unless a read gave more bytes than the compressor takes. The
/// answer is the records of blocks that pack the outcomes: a flag 0 for
/// each read that failed, and for each that gave bytes a block that unpacks
/// to them and is no longer than the compressor's bound. It reads back as
/// the outcomes, in their order.
pub fn read_memory_multiple_handler(context: &TargetContext, outcomes: &Vec<Option<Vec<u8>>>) -> (r:
    Result<Vec<u8>, ApiError>)
    ensures
        context.pid is None ==> r == Err::<Vec<u8>, ApiError>(ApiError::NotAttached),
        context.pid is Some ==> (r is Ok <==> packable(read_views(outcomes@))),
        context.pid is Some ==> (match r {
            Ok(buf) => {
                &&& decoded_batch(buf@) == Some(read_views(outcomes@))
                &&& exists|blocks: Seq<Option<Seq<u8>>>|
                    #![trigger batch_bytes(blocks)]
                    packs(blocks, read_views(outcomes@)) && blocks_fit(blocks) && buf@
                        == batch_bytes(blocks)
            },
            Err(e) => e == ApiError::PackingFailure,
        }),
{
    if context.pid.is_none() {
        return Err(ApiError::NotAttached);
    }
    let ghost reads = read_views(outcomes@);
    let ghost mut blocks: Seq<Option<Seq<u8>>> = Seq::empty();
    let mut buf: Vec<u8> = Vec::new();
    let mut i: usize = 0;
    proof {
        assert(buf@ =~= batch_bytes(blocks));
    }
    while i < outcomes.len()
        invariant
            i <= outcomes@.len(),
            context.pid is Some,
            reads == read_views(outcomes@),
            blocks.len() == i,
            packs(blocks, reads.take(i as int)),
            packable(reads.take(i as int)),
            blocks_fit(blocks),
            buf@ == batch_bytes(blocks),
        decreases outcomes@.len() - i,
    {
        let outcome: Option<&[u8]> = match &outcomes[i] {
            Some(data) => Some(data.as_slice()),
            None => None,
        };
        let record = match encode_read(outcome) {
            Ok(record) => record,
            Err(e) => {
                proof {
                    assert(reads[i as int] == Some(outcomes@[i as int].unwrap()@));
                }
                return Err(e);
            },
        };
        proof {
            let block: Option<Seq<u8>> = match outcome {
                Some(data) => Some(
                    choose|block: Seq<u8>|
                        {
                            &&& #[trigger] lz4_unpacked(block) == Some(data@)
                            &&& block.len() <= block_bound(data@.len())
                            &&& block.len() <= u32::MAX
                            &&& record@ == record_bytes(Some(block))
                        },
                ),
                None => None,
            };
            let before = blocks;
            lemma_batch_push(before, block);
            blocks = before.push(block);
            assert(reads.take(i + 1) =~= reads.take(i as int).push(reads[i as int]));
            assert forall|k: int| 0 <= k < blocks.len() implies match #[trigger] blocks[k] {
                Some(b) => reads.take(i + 1)[k] is Some && lz4_unpacked(b) == reads.take(i + 1)[k]
                    && b.len() <= block_bound(reads.take(i + 1)[k].unwrap().len()),
                None => reads.take(i + 1)[k] is None,
            } by {
                if k < i {
                    assert(blocks[k] == before[k]);
                    assert(reads.take(i + 1)[k] == reads.take(i as int)[k]);
                }
            }
            assert forall|k: int| 0 <= k < i + 1 implies ((#[trigger] reads.take(i + 1)[k]) matches Some(
                d,
            ) ==> d.len() <= MAX_PACKED_INPUT) by {
                if k < i {
                    assert(reads.take(i + 1)[k] == reads.take(i as int)[k]);
                }
            }
            assert forall|k: int| 0 <= k < blocks.len() implies ((#[trigger] blocks[k]) matches Some(
                b,
            ) ==> b.len() <= u32::MAX) by {
                if k < i {
                    assert(blocks[k] == before[k]);
                }
            }
        }
        extend(&mut buf, record.as_slice());
        i = i + 1;
    }
    proof {
        assert(reads.take(outcomes@.len() as int) =~= reads);
        lemma_batch_round_trip(blocks);
        lemma_unpack_packed(blocks, reads);
    }
    Ok(buf)
}

/// The records that `buf` holds: for each a block or the mark of a failed
/// read; `None` where `buf` is no batch.
pub fn parse_records(buf: &[u8]) -> (r: Option<Vec<Option<Vec<u8>>>>)
    ensures
        r is Some <==> parse_batch(buf@) is Some,
        r matches Some(blocks) ==> read_views(blocks@) == parse_batch(buf@).unwrap(),
{
    let len = buf.len();
    let mut blocks: Vec<Option<Vec<u8>>> = Vec::new();
    let mut at: usize = 0;
    proof {
        assert(buf@.skip(0) =~= buf@);
        assert(read_views(blocks@) =~= Seq::<Option<Seq<u8>>>::empty());
        assert(Seq::<Option<Seq<u8>>>::empty() + parse_batch(buf@).unwrap() =~= parse_batch(
            buf@,
        ).unwrap());
    }
    while at < len
        invariant
            at <= len,
            len == buf@.len(),
            parse_batch(buf@) is Some <==> parse_batch(buf@.skip(at as int)) is Some,
            parse_batch(buf@) is Some ==> parse_batch(buf@).unwrap() == read_views(blocks@)
                + parse_batch(buf@.skip(at as int)).unwrap(),
        decreases len - at,
    {
        let ghost rest = buf@.skip(at as int);
        let ghost so_far = read_views(blocks@);
        if len - at < 4 {
            return None;
        }
        let flag = read_unsigned(vstd::slice::slice_subrange(buf, at, at + 4));
        proof {
            assert(rest.subrange(0, 4) =~= buf@.subrange(at as int, at + 4));
        }
        if flag == 0 {
            proof {
                assert(rest.skip(4) =~= buf@.skip(at + 4));
                assert(read_views(blocks@.push(None)) =~= so_far.push(None));
                let more = parse_batch(rest.skip(4));
                if more is Some {
                    assert(so_far + (seq![None] + more.unwrap()) =~= so_far.push(None)
                        + more.unwrap());
                }
            }
            blocks.push(None);
            at = at + 4;
        } else if flag == 1 {
            if len - at < 8 {
                return None;
            }
            let size = read_unsigned(vstd::slice::slice_subrange(buf, at + 4, at + 8));
            proof {
                assert(rest.subrange(4, 8) =~= buf@.subrange(at + 4, at + 8));
                lemma_le_value_bound(buf@.subrange(at + 4, at + 8));
                lemma_pow256_values();
            }
            if size > (len - at - 8) as u64 {
                return None;
            }
            let end = at + 8 + size as usize;
            let block = vstd::slice::slice_to_vec(vstd::slice::slice_subrange(buf, at + 8, end));
            proof {
                let stop = 8 + size as int;
                assert(rest.subrange(8, stop) =~= buf@.subrange(at + 8, end as int));
                assert(rest.skip(stop) =~= buf@.skip(end as int));
                assert(read_views(blocks@.push(Some(block))) =~= so_far.push(Some(block@)));
                let more = parse_batch(rest.skip(stop));
                if more is Some {
                    assert(so_far + (seq![Some(block@)] + more.unwrap()) =~= so_far.push(
                        Some(block@),
                    ) + more.unwrap());
                }
            }
            blocks.push(Some(block));
            at = end;
        } else {
            return None;
        }
    }
    proof {
        assert(buf@.skip(len as int) =~= Seq::<u8>::empty());
        assert(read_views(blocks@) + Seq::<Option<Seq<u8>>>::empty() =~= read_views(blocks@));
    }
    Some(blocks)
}

/// Reads a batch: the bytes of each read that succeeded and `None` for each
/// that failed, in the order of the records. `None` where `buf` is no batch
/// or a block does not unpack.
pub fn decode_batch(buf: &[u8]) -> (r: Option<Vec<Option<Vec<u8>>>>)
    ensures
        r is Some <==> decoded_batch(buf@) is Some,
        r matches Some(reads) ==> read_views(reads@) == decoded_batch(buf@).unwrap(),
{
    let blocks = match parse_records(buf) {
        Some(blocks) => blocks,
        None => {
            return None;
        },
    };
    let ghost all = read_views(blocks@);
    let mut reads: Vec<Option<Vec<u8>>> = Vec::new();
    let mut i: usize = 0;
    proof {
        assert(all.take(0) =~= Seq::<Option<Seq<u8>>>::empty());
        assert(read_views(reads@) =~= Seq::<Option<Seq<u8>>>::empty());
    }
    while i < blocks.len()
        invariant
            i <= blocks@.len(),
            all == read_views(blocks@),
            parse_batch(buf@) == Some(all),
            unpack_all(all.take(i as int)) == Some(read_views(reads@)),
        decreases blocks@.len() - i,
    {
        proof {
            assert(all.take(i + 1).drop_last() =~= all.take(i as int));
            assert(all.take(i + 1).last() == all[i as int]);
        }
        let read: Option<Vec<u8>> = match &blocks[i] {
            Some(block) => match lz4_unpack(block.as_slice()) {
                Ok(data) => Some(data),
                Err(_) => {
                    proof {
                        lemma_unpack_fails(all, i as int);
                    }
                    return None;
                },
            },
            None => None,
        };
        proof {
            assert(read_views(reads@.push(read)) =~= read_views(reads@).push(
                match read {
                    Some(bytes) => Some(bytes@),
                    None => None,
                },
            ));
        }
        reads.push(read);
        i = i + 1;
    }
    proof {
        assert(all.take(blocks@.len() as int) =~= all);
    }
    Some(reads)
}

/// Where one block does not unpack, the batch does not.
proof fn lemma_unpack_fails(blocks: Seq<Option<Seq<u8>>>, at: int)
    requires
        0 <= at < blocks.len(),
        blocks[at] matches Some(block) && lz4_unpacked(block) is None,
    ensures
        unpack_all(blocks) is None,
    decreases blocks.len(),
{
    if at < blocks.len() - 1 {
        lemma_unpack_fails(blocks.drop_last(), at);
    }
}

} // verus!
