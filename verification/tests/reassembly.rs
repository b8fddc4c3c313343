use w3replay::error::{DecodeError, Reason};
use w3replay::game::{GameInfo, GameSettings};
use w3replay::player::{PlayerInfo, PlayerInfoRecord};
use w3replay::reassembly::{Poll, RecordIter, Supply};
use w3replay::record::Record;
use w3replay::stream::decode_blocks;
use w3replay::sync::TimeSlotAck;
use w3replay::timeslot::{PlayerAction, TimeSlot};

fn game_info() -> Record {
    Record::GameInfo(GameInfo::new(
        PlayerInfo::new(1, "host"),
        "game",
        GameSettings { flags: 1, map_width: 2, map_height: 3, map_checksum: 4 },
    ))
}

fn records() -> Vec<Record> {
    vec![
        game_info(),
        Record::PlayerInfo(PlayerInfoRecord { player_info: PlayerInfo::new(2, "guest"), unknown: 0 }),
        Record::TimeSlot(TimeSlot {
            time_increment_ms: 100,
            actions: vec![
                PlayerAction { player_id: 1, data: vec![0, 0, 0] },
                PlayerAction { player_id: 2, data: vec![1] },
            ],
        }),
        Record::TimeSlotAck(TimeSlotAck::new(0)),
        Record::TimeSlot(TimeSlot { time_increment_ms: 0, actions: vec![] }),
    ]
}

fn pack(records: &[Record]) -> Vec<u8> {
    let mut sink: Vec<u8> = Vec::new();
    for record in records {
        record.encode(&mut sink);
    }
    sink
}

fn malformed(reason: Reason) -> Option<DecodeError> {
    Some(DecodeError::Malformed(reason))
}

#[test]
fn game_info_then_ack_then_padding() {
    let mut block = pack(&[game_info(), Record::TimeSlotAck(TimeSlotAck::new(0xaabb_ccdd))]);
    block.extend_from_slice(&[0; 16]);
    let mut it = RecordIter::new();
    assert!(it.needs_block());
    assert_eq!(it.poll(), Poll::NeedBlock);
    assert_eq!(it.supply(Supply::Block(block)), Ok(Some(Ok(game_info()))));
    assert!(!it.needs_block());
    match it.poll() {
        Poll::Ready(Some(Ok(Record::TimeSlotAck(ack)))) => assert_eq!(ack.checksum, 0xaabb_ccdd),
        other => panic!("{:?}", other),
    }
    assert!(it.needs_block());
    assert_eq!(it.poll(), Poll::NeedBlock);
    assert_eq!(it.supply(Supply::End), Ok(None));
    assert_eq!(it.poll(), Poll::Ready(None));
    assert_eq!(it.poll(), Poll::Ready(None));
    assert!(!it.needs_block());
}

#[test]
fn a_whole_block_gives_its_records() {
    let all = records();
    assert_eq!(decode_blocks(&vec![pack(&all)]), (all, None));
    assert_eq!(decode_blocks(&vec![]), (vec![], None));
}

#[test]
fn a_cut_behind_the_first_record_changes_nothing() {
    let all = records();
    let block = pack(&all);
    let first: usize = pack(&all[..1]).len();
    for padding in [0usize, 1, 7] {
        let mut padded = block.clone();
        padded.resize(block.len() + padding, 0);
        let whole = decode_blocks(&vec![padded.clone()]);
        assert_eq!(whole, (all.clone(), None));
        for k in first..block.len() {
            let cut = decode_blocks(&vec![padded[..k].to_vec(), padded[k..].to_vec()]);
            assert_eq!(cut, whole, "cut at {}", k);
        }
    }
}

#[test]
fn a_cut_inside_the_first_record_is_an_error() {
    let all = records();
    let block = pack(&all);
    let first: usize = pack(&all[..1]).len();
    for k in 0..first {
        assert_eq!(
            decode_blocks(&vec![block[..k].to_vec(), block[k..].to_vec()]),
            (vec![], malformed(Reason::RecordLargerThanBlock)),
            "cut at {}",
            k
        );
    }
}

#[test]
fn an_empty_block_is_an_error() {
    let all = records();
    assert_eq!(
        decode_blocks(&vec![pack(&all), vec![]]),
        (all, malformed(Reason::RecordLargerThanBlock))
    );
}

#[test]
fn a_block_of_padding_is_an_error() {
    let all = records();
    assert_eq!(
        decode_blocks(&vec![pack(&all), vec![0, 0]]),
        (all, malformed(Reason::UnknownRecordTypeId(0)))
    );
}

#[test]
fn padding_changes_nothing() {
    let all = records();
    let block = pack(&all);
    for padding in 0usize..20 {
        let mut padded = block.clone();
        padded.resize(block.len() + padding, 0);
        assert_eq!(decode_blocks(&vec![padded]), (all.clone(), None));
    }
    // what stands behind the first zero is not looked at
    let mut padded = block.clone();
    padded.extend_from_slice(&[0, 0xff, 0x1f]);
    assert_eq!(decode_blocks(&vec![padded, block]), ([all.clone(), all].concat(), None));
}

#[test]
fn a_stream_that_ends_inside_a_record_is_an_error() {
    let all = records();
    let block = pack(&all);
    let mut bounds: Vec<usize> = vec![0];
    for n in 1..=all.len() {
        bounds.push(pack(&all[..n]).len());
    }
    for k in 1..block.len() {
        let whole: usize = bounds.iter().filter(|b| **b <= k).count() - 1;
        let (got, error) = decode_blocks(&vec![block[..k].to_vec()]);
        if bounds.contains(&k) {
            assert_eq!((got, error), (all[..whole].to_vec(), None));
        } else if whole == 0 {
            assert_eq!((got, error), (vec![], malformed(Reason::RecordLargerThanBlock)));
        } else {
            assert_eq!((got, error), (all[..whole].to_vec(), malformed(Reason::TruncatedStream)));
        }
    }
}

#[test]
fn a_tail_is_carried_over_one_block_only() {
    let all = records();
    let block = pack(&all);
    let first: usize = pack(&all[..1]).len();
    let second: usize = pack(&all[..2]).len();
    // the second record lies in three blocks
    let blocks = vec![
        block[..first + 2].to_vec(),
        block[first + 2..first + 4].to_vec(),
        block[first + 4..].to_vec(),
    ];
    assert!(first + 4 < second);
    assert_eq!(
        decode_blocks(&blocks),
        (all[..1].to_vec(), malformed(Reason::RecordLargerThanBlock))
    );
}

#[test]
fn the_machine_asks_for_a_block_when_a_record_is_cut() {
    let all = records();
    let block = pack(&all);
    let first: usize = pack(&all[..1]).len();
    let mut it = RecordIter::new();
    assert_eq!(it.supply(Supply::Block(block[..first + 3].to_vec())), Ok(Some(Ok(all[0].clone()))));
    assert!(!it.needs_block());
    assert_eq!(it.poll(), Poll::NeedBlock);
    assert!(it.needs_block());
    assert_eq!(it.poll(), Poll::NeedBlock);
    assert_eq!(it.supply(Supply::Block(block[first + 3..].to_vec())), Ok(Some(Ok(all[1].clone()))));
    for record in &all[2..] {
        assert_eq!(it.poll(), Poll::Ready(Some(Ok(record.clone()))));
    }
    assert_eq!(it.poll(), Poll::NeedBlock);
    assert_eq!(it.supply(Supply::End), Ok(None));
}

#[test]
fn the_end_behind_a_carried_tail_is_an_error_that_stays() {
    let all = records();
    let block = pack(&all);
    let first: usize = pack(&all[..1]).len();
    let mut it = RecordIter::new();
    assert_eq!(it.supply(Supply::Block(block[..first + 3].to_vec())), Ok(Some(Ok(all[0].clone()))));
    assert_eq!(it.poll(), Poll::NeedBlock);
    let error = DecodeError::Malformed(Reason::TruncatedStream);
    assert_eq!(it.supply(Supply::End), Ok(Some(Err(error.clone()))));
    assert!(!it.needs_block());
    assert_eq!(it.poll(), Poll::Ready(Some(Err(error.clone()))));
    assert_eq!(it.poll(), Poll::Ready(Some(Err(error))));
    // no further block is taken
    assert_eq!(it.supply(Supply::Block(block.clone())), Err(Supply::Block(block)));
}

#[test]
fn a_supplier_failure_ends_the_sequence() {
    let mut it = RecordIter::new();
    let error = DecodeError::Malformed(Reason::ReadBlock("crc mismatch".to_string()));
    assert_eq!(
        it.supply(Supply::Failed("crc mismatch".to_string())),
        Ok(Some(Err(error.clone())))
    );
    assert_eq!(it.poll(), Poll::Ready(Some(Err(error))));
    assert_eq!(it.supply(Supply::End), Err(Supply::End));
}

#[test]
fn a_malformed_record_ends_the_sequence() {
    let all = records();
    let mut block = pack(&all[..2]);
    block.extend_from_slice(&[0x1c, 9, 0, 0, 0]);
    block.extend_from_slice(&pack(&all[2..]));
    let error = DecodeError::Malformed(Reason::UnexpectedValue { expected: 1, found: 9 });
    assert_eq!(decode_blocks(&vec![block.clone()]), (all[..2].to_vec(), Some(error.clone())));
    let mut it = RecordIter::new();
    assert_eq!(it.supply(Supply::Block(block)), Ok(Some(Ok(all[0].clone()))));
    assert_eq!(it.poll(), Poll::Ready(Some(Ok(all[1].clone()))));
    assert_eq!(it.poll(), Poll::Ready(Some(Err(error.clone()))));
    assert_eq!(it.poll(), Poll::Ready(Some(Err(error))));
}

#[test]
fn a_block_is_not_taken_while_another_is_read() {
    let all = records();
    let block = pack(&all);
    let mut it = RecordIter::new();
    assert_eq!(it.supply(Supply::Block(block.clone())), Ok(Some(Ok(all[0].clone()))));
    assert_eq!(it.supply(Supply::Block(vec![1, 2])), Err(Supply::Block(vec![1, 2])));
    assert_eq!(it.supply(Supply::End), Err(Supply::End));
    assert_eq!(it.poll(), Poll::Ready(Some(Ok(all[1].clone()))));
}

#[test]
fn many_blocks_give_their_records_in_order() {
    let all = records();
    let one = pack(&all);
    let first: usize = pack(&all[..1]).len();
    let mut blocks: Vec<Vec<u8>> = Vec::new();
    let mut expected: Vec<Record> = Vec::new();
    let mut carried: Vec<u8> = Vec::new();
    for round in 0usize..6 {
        let cut: usize = first + (round * 13) % (one.len() - first);
        let mut block = carried.clone();
        block.extend_from_slice(&one[..cut]);
        blocks.push(block);
        carried = one[cut..].to_vec();
        expected.extend(all.iter().cloned());
    }
    let mut last = carried;
    last.extend_from_slice(&one);
    last.extend_from_slice(&[0, 0, 0]);
    blocks.push(last);
    expected.extend(all.iter().cloned());
    assert_eq!(decode_blocks(&blocks), (expected, None));
}
