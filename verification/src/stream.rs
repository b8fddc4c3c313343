//! A whole stream at once: the records of a sequence of blocks.

use vstd::prelude::*;
use crate::error::{DecodeError, Reason};
use crate::reassembly::{Item, ItemView, Phase, Poll, RecordIter, Supply, SupplyView};
use crate::record::{Record, RecordView};
use crate::wire::put_slice;

verus! {

/// The records that were read, and the error that ended the stream if one did.
pub type Outcome = (Seq<RecordView>, Option<DecodeError>);

/// `record` in front of what the rest of the stream gave.
pub open spec fn then(record: RecordView, rest: Outcome) -> Outcome {
    (seq![record] + rest.0, rest.1)
}

/// What the machine yields from `phase` on when the supplier holds `blocks`
/// and nothing more: the records up to the end of the blocks or to the first
/// error.
pub open spec fn run_from(phase: Phase, blocks: Seq<Seq<u8>>) -> Outcome
    decreases blocks.len(), phase.pending(),
{
    match phase.poll() {
        (Some(Some(Ok(record))), next) => {
            proof {
                RecordView::lemma_size(phase->rest);
            }
            then(record, run_from(next, blocks))
        },
        (Some(Some(Err(e))), _) => (Seq::empty(), Some(e)),
        (Some(None), _) => (Seq::empty(), None),
        (None, waiting) => if blocks.len() == 0 {
            match waiting.supply(SupplyView::End).0 {
                Some(Err(e)) => (Seq::empty(), Some(e)),
                _ => (Seq::empty(), None),
            }
        } else {
            match waiting.supply(SupplyView::Block(blocks[0])) {
                (Some(Ok(record)), next) => then(record, run_from(next, blocks.drop_first())),
                (Some(Err(e)), _) => (Seq::empty(), Some(e)),
                (None, _) => (Seq::empty(), None),
            }
        },
    }
}

/// What a fresh machine yields from `blocks`.
pub open spec fn run(blocks: Seq<Seq<u8>>) -> Outcome {
    run_from(Phase::Initial, blocks)
}

/// The blocks by their bytes.
pub open spec fn blocks_view(blocks: Seq<Vec<u8>>) -> Seq<Seq<u8>> {
    blocks.map_values(|b: Vec<u8>| b@)
}

/// The records by their views.
pub open spec fn records_view(records: Seq<Record>) -> Seq<RecordView> {
    records.map_values(|r: Record| r@)
}

/// Decodes a stream that is at hand as a whole. The result holds the records
/// in their order and the error that ended the stream, if one did.
pub fn decode_blocks(blocks: &Vec<Vec<u8>>) -> (out: (Vec<Record>, Option<DecodeError>))
    ensures
        records_view(out.0@) == run(blocks_view(blocks@)).0,
        out.1 == run(blocks_view(blocks@)).1,
{
    let ghost all = blocks_view(blocks@);
    let mut it = RecordIter::new();
    let mut records: Vec<Record> = Vec::new();
    let mut i: usize = 0;
    assert(all.skip(0) =~= all);
    assert(records_view(records@) =~= Seq::empty());
    loop
        invariant
            i <= blocks@.len(),
            all == blocks_view(blocks@),
            run(all).0 == records_view(records@) + run_from(it@, all.skip(i as int)).0,
            run(all).1 == run_from(it@, all.skip(i as int)).1,
        decreases blocks@.len() - i, it@.pending(),
    {
        let ghost left = all.skip(i as int);
        let ghost before = it@;
        let ghost done = records_view(records@);
        let item: Item = match it.poll() {
            Poll::Ready(item) => item,
            Poll::NeedBlock => {
                let supply = if i < blocks.len() {
                    let mut block: Vec<u8> = Vec::new();
                    put_slice(&mut block, blocks[i].as_slice());
                    assert(block@ =~= left[0]);
                    assert(left.drop_first() =~= all.skip(i + 1));
                    i = i + 1;
                    Supply::Block(block)
                } else {
                    Supply::End
                };
                match it.supply(supply) {
                    Ok(item) => item,
                    Err(_) => None,
                }
            },
        };
        match item {
            Some(Ok(record)) => {
                proof {
                    if before is Decoding && RecordView::parse(before->rest) is Done {
                        RecordView::lemma_size(before->rest);
                    }
                    let more = run_from(it@, all.skip(i as int));
                    assert(done + (seq![record@] + more.0) =~= (done + seq![record@]) + more.0);
                }
                records.push(record);
                assert(records_view(records@) =~= done + seq![record@]);
            },
            Some(Err(e)) => {
                assert(done + Seq::<RecordView>::empty() =~= done);
                return (records, Some(e));
            },
            None => {
                assert(done + Seq::<RecordView>::empty() =~= done);
                return (records, None);
            },
        }
    }
}

/// The wire forms of the records, one after the other.
pub open spec fn records_wire(records: Seq<RecordView>) -> Seq<u8>
    decreases records.len(),
{
    if records.len() == 0 {
        Seq::empty()
    } else {
        records[0].wire() + records_wire(records.drop_first())
    }
}

/// Every record can be written and read back.
pub open spec fn records_valid(records: Seq<RecordView>) -> bool {
    forall|i: int| 0 <= i < records.len() ==> (#[trigger] records[i]).valid()
}

/// Every byte is zero.
pub open spec fn all_zero(bytes: Seq<u8>) -> bool {
    forall|i: int| 0 <= i < bytes.len() ==> bytes[i] == 0
}

/// `bytes` is the start of the wire form of `record`, but not all of it, and
/// not nothing.
pub open spec fn starts(bytes: Seq<u8>, record: RecordView) -> bool {
    &&& record.valid()
    &&& 0 < bytes.len() < record.wire().len()
    &&& bytes == record.wire().take(bytes.len() as int)
}

/// What may stand behind the last whole record of a block: nothing or
/// padding, which starts with a zero, if `cut` is `None`, and else the start
/// of the record `cut`.
pub open spec fn closes(bytes: Seq<u8>, cut: Option<RecordView>) -> bool {
    match cut {
        None => bytes.len() == 0 || bytes[0] == 0,
        Some(record) => starts(bytes, record),
    }
}

/// The phase in which the machine leaves a block that ends in `bytes`.
pub open spec fn closing(bytes: Seq<u8>, cut: Option<RecordView>) -> Phase {
    match cut {
        None => Phase::BlockDone,
        Some(_) => Phase::Carry { tail: bytes },
    }
}

/// `records` in front of what the rest of the stream gave.
pub open spec fn then_all(records: Seq<RecordView>, rest: Outcome) -> Outcome {
    (records + rest.0, rest.1)
}

/// The wire form of two lists is that of the first followed by that of the second.
pub proof fn lemma_records_wire_concat(a: Seq<RecordView>, b: Seq<RecordView>)
    ensures
        records_wire(a + b) == records_wire(a) + records_wire(b),
    decreases a.len(),
{
    if a.len() == 0 {
        assert(a + b =~= b);
        assert(records_wire(a) + records_wire(b) =~= records_wire(b));
    } else {
        assert((a + b).drop_first() =~= a.drop_first() + b);
        assert((a + b)[0] == a[0]);
        lemma_records_wire_concat(a.drop_first(), b);
        assert(records_wire(a + b) =~= records_wire(a) + records_wire(b));
    }
}

/// Behind a record the machine reads the records that follow in the block and
/// leaves the block as its end tells.
pub proof fn lemma_run_after(
    records: Seq<RecordView>,
    end: Seq<u8>,
    cut: Option<RecordView>,
    blocks: Seq<Seq<u8>>,
)
    requires
        records_valid(records),
        closes(end, cut),
    ensures
        run_from(Phase::after_record(records_wire(records) + end), blocks) == then_all(
            records,
            run_from(closing(end, cut), blocks),
        ),
    decreases records.len(),
{
    let rest = records_wire(records) + end;
    let phase = Phase::after_record(rest);
    if records.len() == 0 {
        assert(rest =~= end);
        let target = run_from(closing(end, cut), blocks);
        assert(then_all(records, target) =~= target);
        if let Some(record) = cut {
            record.lemma_first_byte();
            assert(end[0] == record.wire()[0]);
            record.lemma_prefix(end);
            assert(phase.poll() == (None::<ItemView>, Phase::Carry { tail: end }));
            assert(closing(end, cut).poll() == (None::<ItemView>, Phase::Carry { tail: end }));
        }
    } else {
        let first = records[0];
        let others = records.drop_first();
        let behind = records_wire(others) + end;
        first.lemma_first_byte();
        assert(rest =~= first.wire() + behind);
        assert(rest[0] == first.wire()[0]);
        assert(first.valid());
        first.lemma_roundtrip(behind);
        assert(rest.skip(first.wire().len() as int) =~= behind);
        assert(records_valid(others)) by {
            assert forall|i: int| 0 <= i < others.len() implies (#[trigger] others[i]).valid() by {
                assert(others[i] == records[i + 1]);
            }
        }
        lemma_run_after(others, end, cut, blocks);
        let target = run_from(closing(end, cut), blocks);
        assert(phase.poll() == (
            Some(Some(Ok::<RecordView, DecodeError>(first))),
            Phase::after_record(behind),
        ));
        assert(seq![first] + (others + target.0) =~= records + target.0);
    }
}

/// A block that holds whole records behind what was carried is read to its
/// end: the machine yields the records and leaves the block as its end tells.
pub proof fn lemma_run_block(
    phase: Phase,
    block: Seq<u8>,
    records: Seq<RecordView>,
    end: Seq<u8>,
    cut: Option<RecordView>,
    more: Seq<Seq<u8>>,
)
    requires
        phase.awaits_block(),
        records.len() > 0,
        records_valid(records),
        closes(end, cut),
        phase.carried() + block == records_wire(records) + end,
    ensures
        run_from(phase, seq![block] + more) == then_all(
            records,
            run_from(closing(end, cut), more),
        ),
{
    let blocks = seq![block] + more;
    let first = records[0];
    let others = records.drop_first();
    let behind = records_wire(others) + end;
    let all = phase.carried() + block;
    assert(all =~= first.wire() + behind);
    assert(first.valid());
    first.lemma_roundtrip(behind);
    assert(all.skip(first.wire().len() as int) =~= behind);
    assert(records_valid(others)) by {
        assert forall|i: int| 0 <= i < others.len() implies (#[trigger] others[i]).valid() by {
            assert(others[i] == records[i + 1]);
        }
    }
    assert(blocks[0] == block);
    assert(blocks.drop_first() =~= more);
    lemma_run_after(others, end, cut, more);
    let target = run_from(closing(end, cut), more);
    assert(phase.poll() == (None::<ItemView>, phase));
    assert(phase.supply(SupplyView::Block(block)) == (
        Some(Ok::<RecordView, DecodeError>(first)),
        Phase::after_record(behind),
    ));
    assert(seq![first] + (others + target.0) =~= records + target.0);
}

/// A machine that waits for a block with nothing carried ends the stream
/// normally when there are no more blocks.
pub proof fn lemma_run_end()
    ensures
        run_from(Phase::BlockDone, Seq::empty()) == (Seq::<RecordView>::empty(), None::<DecodeError>),
        run_from(Phase::Initial, Seq::empty()) == (Seq::<RecordView>::empty(), None::<DecodeError>),
{
    assert(Phase::BlockDone.poll() == (None::<ItemView>, Phase::BlockDone));
    assert(Phase::Initial.poll() == (None::<ItemView>, Phase::Initial));
}

/// Zero bytes behind the last record of a block change nothing: the stream
/// yields the same records as without them and ends without an error.
pub proof fn lemma_padding_ignored(records: Seq<RecordView>, padding: Seq<u8>)
    requires
        records.len() > 0,
        records_valid(records),
        all_zero(padding),
    ensures
        run(seq![records_wire(records) + padding]) == (records, None::<DecodeError>),
        run(seq![records_wire(records) + padding]) == run(seq![records_wire(records)]),
{
    let none = Seq::<Seq<u8>>::empty();
    let empty = Seq::<u8>::empty();
    let padded = records_wire(records) + padding;
    let bare = records_wire(records);
    lemma_run_end();
    assert(Phase::Initial.carried() + padded =~= records_wire(records) + padding);
    lemma_run_block(Phase::Initial, padded, records, padding, None, none);
    assert(seq![padded] + none =~= seq![padded]);
    assert(Phase::Initial.carried() + bare =~= records_wire(records) + empty);
    lemma_run_block(Phase::Initial, bare, records, empty, None, none);
    assert(seq![bare] + none =~= seq![bare]);
    assert(records + Seq::<RecordView>::empty() =~= records);
}

/// The wire form of the first `i + 1` records is that of the first `i`
/// followed by that of record `i`.
pub proof fn lemma_records_wire_next(records: Seq<RecordView>, i: int)
    requires
        0 <= i < records.len(),
    ensures
        records_wire(records.take(i + 1)) == records_wire(records.take(i)) + records[i].wire(),
{
    let one = seq![records[i]];
    assert(records.take(i + 1) =~= records.take(i) + one);
    lemma_records_wire_concat(records.take(i), one);
    assert(one.drop_first() =~= Seq::<RecordView>::empty());
    assert(records_wire(Seq::<RecordView>::empty()) =~= Seq::<u8>::empty());
    assert(one[0] == records[i]);
    assert(records_wire(one) =~= records[i].wire());
}

/// The record in which byte `k` of a list's wire form lies, found from
/// record `from` on.
pub proof fn lemma_split_point(records: Seq<RecordView>, k: int, from: int) -> (i: int)
    requires
        0 <= from < records.len(),
        records_wire(records.take(from)).len() <= k < records_wire(records).len(),
    ensures
        from <= i < records.len(),
        records_wire(records.take(i)).len() <= k < records_wire(records.take(i + 1)).len(),
        records_wire(records.take(i + 1)) == records_wire(records.take(i)) + records[i].wire(),
    decreases records.len() - from,
{
    lemma_records_wire_next(records, from);
    if k < records_wire(records.take(from + 1)).len() {
        from
    } else {
        assert(from + 1 < records.len()) by {
            if from + 1 == records.len() {
                assert(records.take(from + 1) =~= records);
            }
        }
        lemma_split_point(records, k, from + 1)
    }
}

/// Cutting a block in two does not change what the stream yields, wherever
/// the cut falls behind the first record and before the end of the last:
/// the records come out as from the whole block, and the stream ends without
/// an error.
pub proof fn lemma_split_equivalence(records: Seq<RecordView>, padding: Seq<u8>, k: int)
    requires
        records.len() > 0,
        records_valid(records),
        all_zero(padding),
        records[0].wire().len() <= k < records_wire(records).len(),
    ensures
        run(
            seq![
                (records_wire(records) + padding).take(k),
                (records_wire(records) + padding).skip(k),
            ],
        ) == run(seq![records_wire(records) + padding]),
        run(seq![records_wire(records) + padding]) == (records, None::<DecodeError>),
{
    let none = Seq::<Seq<u8>>::empty();
    let block = records_wire(records) + padding;
    let front = block.take(k);
    let back = block.skip(k);
    lemma_padding_ignored(records, padding);
    lemma_run_end();
    assert(records_wire(records.take(1)).len() <= k) by {
        lemma_records_wire_next(records, 0);
        assert(records.take(0) =~= Seq::<RecordView>::empty());
    }
    assert(records.len() > 1) by {
        if records.len() == 1 {
            assert(records.take(1) =~= records);
        }
    }
    let i = lemma_split_point(records, k, 1);
    let whole = records.take(i);
    let record = records[i];
    let after = seq![record] + records.skip(i + 1);
    let at = k - records_wire(whole).len();
    let part = record.wire().take(at);
    assert(records =~= whole + after);
    lemma_records_wire_concat(whole, after);
    assert(after.drop_first() =~= records.skip(i + 1));
    assert(records_wire(after) == record.wire() + records_wire(records.skip(i + 1)));
    assert(front =~= records_wire(whole) + part);
    assert(part + back =~= records_wire(after) + padding);
    assert(records_valid(whole));
    assert(records_valid(after)) by {
        assert forall|j: int| 0 <= j < after.len() implies (#[trigger] after[j]).valid() by {
            assert(after[j] == records[i + j]);
        }
    }
    assert(record.valid());
    let cut = if at == 0 {
        None
    } else {
        Some(record)
    };
    let waiting = closing(part, cut);
    assert(waiting.carried() =~= part);
    assert(Phase::Initial.carried() + front =~= records_wire(whole) + part);
    lemma_run_block(Phase::Initial, front, whole, part, cut, seq![back]);
    assert(waiting.carried() + back =~= records_wire(after) + padding);
    lemma_run_block(waiting, back, after, padding, None, none);
    assert(seq![front] + seq![back] =~= seq![front, back]);
    assert(seq![back] + none =~= seq![back]);
    assert(whole + (after + Seq::<RecordView>::empty()) =~= records);
}

/// A stream that ends in the middle of a record ends with an error, behind
/// the records that were whole: the record that was cut is never yielded.
pub proof fn lemma_truncation_detected(records: Seq<RecordView>, cut: RecordView, part: Seq<u8>)
    requires
        records_valid(records),
        starts(part, cut),
    ensures
        run(seq![records_wire(records) + part]) == (
            records,
            Some(
                DecodeError::Malformed(
                    if records.len() == 0 {
                        Reason::RecordLargerThanBlock
                    } else {
                        Reason::TruncatedStream
                    },
                ),
            ),
        ),
{
    let none = Seq::<Seq<u8>>::empty();
    let block = records_wire(records) + part;
    let waiting = Phase::Carry { tail: part };
    assert(Phase::Initial.poll() == (None::<ItemView>, Phase::Initial));
    assert(seq![block] + none =~= seq![block]);
    if records.len() == 0 {
        assert(block =~= part);
        assert(Phase::Initial.carried() + block =~= part);
        cut.lemma_prefix(part);
        assert(records =~= Seq::<RecordView>::empty());
    } else {
        assert(Phase::Initial.carried() + block =~= records_wire(records) + part);
        lemma_run_block(Phase::Initial, block, records, part, Some(cut), none);
        assert(waiting.poll() == (None::<ItemView>, waiting));
        assert(records + Seq::<RecordView>::empty() =~= records);
    }
}

} // verus!
