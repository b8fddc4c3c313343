use w3replay::chat::{ChatMessage, PlayerChatMessage};
use w3replay::cursor::Cursor;
use w3replay::game::{CountDownEnd, CountDownStart, GameInfo, GameSettings, GameStart};
use w3replay::player::{LeaveReason, PlayerInfo, PlayerInfoRecord, PlayerLeft};
use w3replay::reassembly::{Poll, RecordIter, Supply};
use w3replay::record::{Record, RecordTypeId};
use w3replay::slot::{SlotData, SlotInfo};
use w3replay::sync::TimeSlotAck;
use w3replay::timeslot::{PlayerAction, TimeSlot};

fn slot(player_id: u8) -> SlotData {
    SlotData {
        player_id,
        download_status: 100,
        slot_status: 2,
        computer: 0,
        team: player_id - 1,
        color: player_id,
        race: 1,
        computer_type: 1,
        handicap: 100,
    }
}

/// A short game of two players: 4 + 3 + 3 * 40 + 2 records, 80 chunks of actions.
fn game() -> Vec<Record> {
    let mut records: Vec<Record> = vec![
        Record::GameInfo(GameInfo::new(
            PlayerInfo::new(1, "Grubby"),
            "happy",
            GameSettings { flags: 0x4000, map_width: 96, map_height: 96, map_checksum: 0xfeed },
        )),
        Record::PlayerInfo(PlayerInfoRecord { player_info: PlayerInfo::new(2, "Happy"), unknown: 0 }),
        Record::SlotInfo(SlotInfo {
            slots: vec![slot(1), slot(2)],
            random_seed: 0x1234,
            slot_layout: 0,
            num_players: 2,
        }),
        Record::CountDownStart(CountDownStart::default()),
        Record::CountDownEnd(CountDownEnd::default()),
        Record::GameStart(GameStart::default()),
    ];
    for tick in 0u16..40 {
        let size: usize = (tick as usize * 7) % 23;
        records.push(Record::TimeSlot(TimeSlot {
            time_increment_ms: 100 + tick,
            actions: vec![
                PlayerAction { player_id: 1, data: vec![tick as u8; size] },
                PlayerAction { player_id: 2, data: vec![0; 2] },
            ],
        }));
        records.push(Record::TimeSlotAck(TimeSlotAck::new(0x0101_0101 * tick as u32)));
        if tick % 10 == 3 {
            records.push(Record::ChatMessage(PlayerChatMessage {
                player_id: 2,
                message: ChatMessage::Scoped { scope: 0, message: b"gg".to_vec() },
            }));
        }
    }
    records.push(Record::PlayerLeft(PlayerLeft {
        reason: LeaveReason::LeaveLost,
        player_id: 1,
        result: 7,
        unknown: 0,
    }));
    records
}

/// The game in blocks of `size` bytes, the last one filled up with zeros.
/// A block never ends inside the first record that starts in it.
fn blocks(records: &[Record], size: usize) -> Vec<Vec<u8>> {
    let mut blocks: Vec<Vec<u8>> = Vec::new();
    let mut block: Vec<u8> = Vec::new();
    let mut whole_in_block: usize = 0;
    for record in records {
        let mut bytes: Vec<u8> = Vec::new();
        record.encode(&mut bytes);
        if block.len() + bytes.len() <= size || whole_in_block == 0 {
            block.extend_from_slice(&bytes);
            whole_in_block += 1;
            continue;
        }
        let room: usize = size - block.len();
        block.extend_from_slice(&bytes[..room]);
        blocks.push(block);
        block = bytes[room..].to_vec();
        whole_in_block = 0;
        if room > 0 {
            // what was cut is completed by the next block, which makes it whole there
            whole_in_block = 1;
        }
    }
    if block.len() < size {
        block.resize(size, 0);
    }
    blocks.push(block);
    blocks
}

#[test]
fn test_record() {
    let records = game();
    let mut rec_count: usize = 0;
    let mut tail: Vec<u8> = Vec::new();
    for block in blocks(&records, 64) {
        let next_tail: Vec<u8>;
        let mut cur = Cursor::new(&tail, &block);
        loop {
            let pos: usize = cur.remaining_len();
            match Record::decode(&mut cur) {
                Ok(rec) => {
                    assert_eq!(rec, records[rec_count]);
                    rec_count = rec_count + 1;
                }
                Err(e) => {
                    if e.is_incomplete() {
                        next_tail = block[block.len() - pos..].to_vec();
                        break;
                    } else {
                        panic!("{:?}", e)
                    }
                }
            }
            match cur.peek_u8() {
                Some(n) if n != 0 => {}
                // end of block or 0 padding reached
                _ => {
                    next_tail = Vec::new();
                    break;
                }
            }
        }
        tail = next_tail;
    }

    if tail.len() > 0 {
        panic!("extra bytes = {}", tail.len());
    }

    assert_eq!(rec_count, records.len());
}

#[test]
fn test_record_iter() {
    let expected = game();
    let mut supplier = blocks(&expected, 100).into_iter();
    let mut iter = RecordIter::new();
    let mut records: usize = 0;
    let mut actions: usize = 0;
    loop {
        let item = match iter.poll() {
            Poll::Ready(item) => item,
            Poll::NeedBlock => {
                let supply = match supplier.next() {
                    Some(block) => Supply::Block(block),
                    None => Supply::End,
                };
                iter.supply(supply).unwrap()
            }
        };
        let record = match item {
            Some(record) => record,
            None => break,
        };
        match record.unwrap() {
            Record::TimeSlotFragment(_) => {
                unreachable!()
            }
            Record::TimeSlot(slot) => {
                for _chunk in slot.actions {
                    actions += 1;
                }
            }
            _ => {}
        }
        records = records + 1;
    }
    assert_eq!(records, expected.len());
    assert_eq!(actions, 80);
}

#[test]
fn test_game_info() {
    let records = game();
    let mut rec_count: usize = 0;
    let mut seen: Vec<RecordTypeId> = Vec::new();
    let mut tail: Vec<u8> = Vec::new();
    for block in blocks(&records, 48) {
        let next_tail: Vec<u8>;
        let mut cur = Cursor::new(&tail, &block);
        loop {
            let pos: usize = cur.remaining_len();
            match Record::decode(&mut cur) {
                Ok(rec) => {
                    match rec.type_id() {
                        RecordTypeId::TimeSlot
                        | RecordTypeId::TimeSlotAck
                        | RecordTypeId::TimeSlotFragment => {}
                        _ => {
                            println!("#{}: {:?}", rec_count, rec.type_id());
                            seen.push(rec.type_id());
                        }
                    }
                    rec_count = rec_count + 1;
                    match rec {
                        Record::GameInfo(gameinfo) => {
                            assert_eq!(gameinfo.game_name, b"happy".to_vec());
                            assert_eq!(gameinfo.host_player_info.name, b"Grubby".to_vec());
                        }
                        Record::PlayerInfo(info) => {
                            assert_eq!(info.player_info.name, b"Happy".to_vec());
                        }
                        Record::PlayerLeft(info) => {
                            assert_eq!(info.reason, LeaveReason::LeaveLost);
                        }
                        _ => {}
                    }
                }
                Err(e) => {
                    if e.is_incomplete() {
                        next_tail = block[block.len() - pos..].to_vec();
                        break;
                    } else {
                        panic!("{:?}", e)
                    }
                }
            }
            match cur.peek_u8() {
                Some(n) if n != 0 => {}
                // end of block or 0 padding reached
                _ => {
                    next_tail = Vec::new();
                    break;
                }
            }
        }
        tail = next_tail;
    }

    if tail.len() > 0 {
        panic!("extra bytes = {}", tail.len());
    }

    assert_eq!(rec_count, records.len());
    assert_eq!(
        seen,
        vec![
            RecordTypeId::GameInfo,
            RecordTypeId::PlayerInfo,
            RecordTypeId::SlotInfo,
            RecordTypeId::CountDownStart,
            RecordTypeId::CountDownEnd,
            RecordTypeId::GameStart,
            RecordTypeId::ChatMessage,
            RecordTypeId::ChatMessage,
            RecordTypeId::ChatMessage,
            RecordTypeId::ChatMessage,
            RecordTypeId::PlayerLeft,
        ]
    );
}
