use w3replay::chat::{ChatMessage, PlayerChatMessage};
use w3replay::cursor::Cursor;
use w3replay::error::{Context, DecodeError, Reason};
use w3replay::game::{CountDownEnd, CountDownStart, GameInfo, GameSettings, GameStart, OBS_FULL};
use w3replay::player::{LeaveReason, PlayerInfo, PlayerInfoRecord, PlayerLeft};
use w3replay::protobuf::ProtoBufPayload;
use w3replay::record::{Record, RecordTypeId};
use w3replay::slot::{SlotData, SlotInfo};
use w3replay::sync::{Desync, EndTimer, TimeSlotAck};
use w3replay::timeslot::{PlayerAction, TimeSlot, TimeSlotFragment};

fn settings() -> GameSettings {
    GameSettings { flags: 3, map_width: 116, map_height: 84, map_checksum: 0x1234_5678 }
}

fn game_info() -> GameInfo {
    GameInfo::new(PlayerInfo::new(1, "host"), "game", settings())
}

fn slot(player_id: u8) -> SlotData {
    SlotData {
        player_id,
        download_status: 100,
        slot_status: 2,
        computer: 0,
        team: 1,
        color: 3,
        race: 0x20,
        computer_type: 1,
        handicap: 100,
    }
}

fn samples() -> Vec<Record> {
    vec![
        Record::GameInfo(game_info()),
        Record::PlayerInfo(PlayerInfoRecord { player_info: PlayerInfo::new(2, "guest"), unknown: 7 }),
        Record::PlayerLeft(PlayerLeft {
            reason: LeaveReason::LeaveLost,
            player_id: 2,
            result: 8,
            unknown: 0x0102_0304,
        }),
        Record::PlayerLeft(PlayerLeft {
            reason: LeaveReason::UnknownValue(0x55),
            player_id: 3,
            result: 0,
            unknown: 0,
        }),
        Record::SlotInfo(SlotInfo {
            slots: vec![slot(1), slot(2)],
            random_seed: 0xdead_beef,
            slot_layout: 3,
            num_players: 2,
        }),
        Record::SlotInfo(SlotInfo { slots: vec![], random_seed: 1, slot_layout: 0, num_players: 0 }),
        Record::CountDownStart(CountDownStart::default()),
        Record::CountDownEnd(CountDownEnd::default()),
        Record::GameStart(GameStart::default()),
        Record::TimeSlotFragment(TimeSlotFragment(TimeSlot {
            time_increment_ms: 100,
            actions: vec![PlayerAction { player_id: 1, data: vec![9, 8, 7] }],
        })),
        Record::TimeSlot(TimeSlot { time_increment_ms: 250, actions: vec![] }),
        Record::TimeSlot(TimeSlot {
            time_increment_ms: 0xffff,
            actions: vec![
                PlayerAction { player_id: 1, data: vec![] },
                PlayerAction { player_id: 2, data: vec![0, 0, 1] },
            ],
        }),
        Record::ChatMessage(PlayerChatMessage {
            player_id: 4,
            message: ChatMessage::Scoped { scope: 1, message: b"gl hf".to_vec() },
        }),
        Record::ChatMessage(PlayerChatMessage {
            player_id: 5,
            message: ChatMessage::Lobby { message: vec![] },
        }),
        Record::TimeSlotAck(TimeSlotAck::new(0xaabb_ccdd)),
        Record::Desync(Desync { tick: 77, checksum: 0x0bad_f00d, unknown: 0 }),
        Record::EndTimer(EndTimer { over: true, countdown_sec: 30 }),
        Record::EndTimer(EndTimer { over: false, countdown_sec: 0 }),
        Record::ProtoBuf(ProtoBufPayload { message_type_id: 3, data: vec![1, 2, 3, 4, 5] }),
        Record::ProtoBuf(ProtoBufPayload { message_type_id: 0, data: vec![] }),
    ]
}

fn encode(record: &Record) -> Vec<u8> {
    let mut sink: Vec<u8> = Vec::new();
    record.encode(&mut sink);
    sink
}

fn decode(bytes: &[u8]) -> Result<Record, DecodeError> {
    let mut cur = Cursor::new(bytes, &bytes[bytes.len()..]);
    Record::decode(&mut cur)
}

#[test]
fn every_variant_survives_a_round_trip() {
    for record in samples() {
        let bytes = encode(&record);
        let mut cur = Cursor::new(&bytes, &bytes[bytes.len()..]);
        assert_eq!(Record::decode(&mut cur), Ok(record.clone()));
        assert_eq!(cur.remaining_len(), 0);
    }
}

#[test]
fn round_trip_stops_right_behind_the_record() {
    for record in samples() {
        let mut bytes = encode(&record);
        let len: usize = bytes.len();
        bytes.extend_from_slice(&[0x22, 0xff, 0x00]);
        let mut cur = Cursor::new(&bytes, &bytes[bytes.len()..]);
        assert_eq!(Record::decode(&mut cur), Ok(record.clone()));
        assert_eq!(cur.remaining_len(), bytes.len() - len);
        assert_eq!(cur.peek_u8(), Some(0x22));
    }
}

#[test]
fn every_proper_prefix_is_incomplete() {
    for record in samples() {
        let bytes = encode(&record);
        for k in 0..bytes.len() {
            match decode(&bytes[..k]) {
                Err(e) => assert!(e.is_incomplete(), "{:?} cut at {}: {:?}", record, k, e),
                Ok(other) => panic!("{:?} cut at {} gave {:?}", record, k, other),
            }
        }
    }
}

#[test]
fn a_record_reads_the_same_across_two_ranges() {
    for record in samples() {
        let bytes = encode(&record);
        for k in 0..=bytes.len() {
            let mut cur = Cursor::new(&bytes[..k], &bytes[k..]);
            assert_eq!(Record::decode(&mut cur), Ok(record.clone()));
            assert!(!cur.has(1));
        }
    }
}

#[test]
fn type_ids_have_their_codes() {
    let codes: Vec<(RecordTypeId, u8)> = vec![
        (RecordTypeId::GameInfo, 0x10),
        (RecordTypeId::PlayerInfo, 0x16),
        (RecordTypeId::PlayerLeft, 0x17),
        (RecordTypeId::SlotInfo, 0x19),
        (RecordTypeId::CountDownStart, 0x1a),
        (RecordTypeId::CountDownEnd, 0x1b),
        (RecordTypeId::GameStart, 0x1c),
        (RecordTypeId::TimeSlotFragment, 0x1e),
        (RecordTypeId::TimeSlot, 0x1f),
        (RecordTypeId::ChatMessage, 0x20),
        (RecordTypeId::TimeSlotAck, 0x22),
        (RecordTypeId::Desync, 0x23),
        (RecordTypeId::EndTimer, 0x2f),
        (RecordTypeId::ProtoBuf, 0x39),
    ];
    for (id, code) in codes {
        assert_eq!(id.to_code(), code);
        assert_eq!(RecordTypeId::from_code(code), id);
    }
    assert_eq!(RecordTypeId::from_code(0), RecordTypeId::UnknownValue(0));
    assert_eq!(RecordTypeId::UnknownValue(0x7f).to_code(), 0x7f);
}

#[test]
fn records_report_their_type_id() {
    let ids: Vec<RecordTypeId> = samples().iter().map(|r| r.type_id()).collect();
    assert_eq!(ids[0], RecordTypeId::GameInfo);
    assert_eq!(ids[1], RecordTypeId::PlayerInfo);
    assert_eq!(ids[2], RecordTypeId::PlayerLeft);
    assert_eq!(ids[4], RecordTypeId::SlotInfo);
    assert_eq!(ids[6], RecordTypeId::CountDownStart);
    assert_eq!(ids[7], RecordTypeId::CountDownEnd);
    assert_eq!(ids[8], RecordTypeId::GameStart);
    assert_eq!(ids[9], RecordTypeId::TimeSlotFragment);
    assert_eq!(ids[10], RecordTypeId::TimeSlot);
    assert_eq!(ids[12], RecordTypeId::ChatMessage);
    assert_eq!(ids[14], RecordTypeId::TimeSlotAck);
    assert_eq!(ids[15], RecordTypeId::Desync);
    assert_eq!(ids[16], RecordTypeId::EndTimer);
    assert_eq!(ids[18], RecordTypeId::ProtoBuf);
    for record in samples() {
        assert_eq!(encode(&record)[0], record.type_id().to_code());
    }
}

#[test]
fn time_slot_ack_bytes() {
    assert_eq!(
        encode(&Record::TimeSlotAck(TimeSlotAck::new(0xaabb_ccdd))),
        vec![0x22, 0x04, 0xdd, 0xcc, 0xbb, 0xaa]
    );
    assert_eq!(TimeSlotAck::new(5).checksum, 5);
}

#[test]
fn time_slot_bytes() {
    let slot = TimeSlot {
        time_increment_ms: 0x0102,
        actions: vec![
            PlayerAction { player_id: 7, data: vec![0xa1, 0xa2] },
            PlayerAction { player_id: 8, data: vec![] },
        ],
    };
    let mut sink: Vec<u8> = vec![0xee];
    slot.encode(&mut sink);
    // span = 2 + (3 + 2) + (3 + 0) = 10
    assert_eq!(
        sink,
        vec![0xee, 10, 0, 0x02, 0x01, 7, 2, 0, 0xa1, 0xa2, 8, 0, 0]
    );
    let empty = TimeSlot { time_increment_ms: 1, actions: vec![] };
    let mut sink: Vec<u8> = Vec::new();
    empty.encode(&mut sink);
    assert_eq!(sink, vec![2, 0, 1, 0]);
}

#[test]
fn game_info_bytes() {
    let info = game_info();
    assert_eq!(info.num_of_host_records, 1);
    assert_eq!(info.player_count, 24);
    assert_eq!(info.game_flags, OBS_FULL);
    assert_eq!(info.language_id, 0);
    assert_eq!(info.game_name, b"game".to_vec());
    assert_eq!(info.host_player_info.additional_data, vec![0, 0]);
    let expected: Vec<u8> = vec![
        0x10, // type
        1, 0, 0, 0, // host records
        1, b'h', b'o', b's', b't', 0, 2, 0, 0, // host
        b'g', b'a', b'm', b'e', 0, // name
        0, // tag
        3, 0, 0, 0, 116, 0, 84, 0, 0x78, 0x56, 0x34, 0x12, // settings
        24, 0, 0, 0, // players
        0, 0, 0x10, 0, // flags
        0, 0, 0, 0, // language
    ];
    assert_eq!(encode(&Record::GameInfo(info)), expected);
}

#[test]
fn names_lose_their_zero_bytes() {
    let player = PlayerInfo::new(9, "a\0b\0");
    assert_eq!(player.id, 9);
    assert_eq!(player.name, b"ab".to_vec());
    let info = GameInfo::new(player, "\0x\0", settings());
    assert_eq!(info.game_name, b"x".to_vec());
    let record = Record::GameInfo(info);
    assert_eq!(decode(&encode(&record)), Ok(record));
}

#[test]
fn other_payload_bytes() {
    let left = PlayerLeft { reason: LeaveReason::LeaveWon, player_id: 2, result: 9, unknown: 1 };
    assert_eq!(
        encode(&Record::PlayerLeft(left)),
        vec![0x17, 9, 0, 0, 0, 2, 9, 0, 0, 0, 1, 0, 0, 0]
    );
    assert_eq!(encode(&Record::GameStart(GameStart::default())), vec![0x1c, 1, 0, 0, 0]);
    assert_eq!(encode(&Record::CountDownStart(CountDownStart::default())), vec![0x1a, 1, 0, 0, 0]);
    assert_eq!(encode(&Record::CountDownEnd(CountDownEnd::default())), vec![0x1b, 1, 0, 0, 0]);
    assert_eq!(
        encode(&Record::EndTimer(EndTimer { over: true, countdown_sec: 0x0100 })),
        vec![0x2f, 1, 0, 1, 0, 0]
    );
    assert_eq!(
        encode(&Record::Desync(Desync { tick: 1, checksum: 2, unknown: 3 })),
        vec![0x23, 1, 0, 0, 0, 4, 2, 0, 0, 0, 3]
    );
    assert_eq!(
        encode(&Record::ProtoBuf(ProtoBufPayload { message_type_id: 3, data: vec![7, 8] })),
        vec![0x39, 3, 2, 0, 0, 0, 7, 8]
    );
    assert_eq!(
        encode(&Record::ChatMessage(PlayerChatMessage {
            player_id: 4,
            message: ChatMessage::Scoped { scope: 2, message: b"hi".to_vec() },
        })),
        vec![0x20, 4, 8, 0, 0x20, 2, 0, 0, 0, b'h', b'i', 0]
    );
    assert_eq!(
        encode(&Record::ChatMessage(PlayerChatMessage {
            player_id: 4,
            message: ChatMessage::Lobby { message: b"hi".to_vec() },
        })),
        vec![0x20, 4, 4, 0, 0x10, b'h', b'i', 0]
    );
    assert_eq!(
        encode(&Record::SlotInfo(SlotInfo {
            slots: vec![slot(5)],
            random_seed: 0x0403_0201,
            slot_layout: 3,
            num_players: 1,
        })),
        vec![0x19, 16, 0, 1, 5, 100, 2, 0, 1, 3, 0x20, 1, 100, 1, 2, 3, 4, 3, 1]
    );
    assert_eq!(
        encode(&Record::PlayerInfo(PlayerInfoRecord {
            player_info: PlayerInfo { id: 2, name: b"p".to_vec(), additional_data: vec![9] },
            unknown: 0,
        })),
        vec![0x16, 2, b'p', 0, 1, 9, 0, 0, 0, 0]
    );
}

#[test]
fn leave_reasons_have_their_codes() {
    let codes: Vec<(LeaveReason, u32)> = vec![
        (LeaveReason::LeaveDisconnect, 1),
        (LeaveReason::LeaveLost, 7),
        (LeaveReason::LeaveLostBuildings, 8),
        (LeaveReason::LeaveWon, 9),
        (LeaveReason::LeaveDraw, 10),
        (LeaveReason::LeaveObserver, 11),
        (LeaveReason::LeaveLobby, 13),
        (LeaveReason::UnknownValue(12), 12),
    ];
    for (reason, code) in codes {
        assert_eq!(reason.to_code(), code);
        assert_eq!(LeaveReason::from_code(code), reason);
    }
}

#[test]
fn chat_message_lengths() {
    let lobby = ChatMessage::Lobby { message: b"abc".to_vec() };
    assert_eq!(lobby.encode_len(), 5);
    assert!(lobby.fills(5));
    assert!(!lobby.fills(4));
    assert!(!lobby.fills(1));
    let scoped = ChatMessage::Scoped { scope: 0, message: vec![] };
    assert_eq!(scoped.encode_len(), 6);
    assert!(scoped.fills(6));
    assert!(!scoped.fills(5));
}

#[test]
fn end_timer_takes_any_nonzero_flag_as_over() {
    assert_eq!(
        decode(&[0x2f, 2, 5, 0, 0, 0]),
        Ok(Record::EndTimer(EndTimer { over: true, countdown_sec: 5 }))
    );
}

#[test]
fn lengths_too_large_for_their_field_are_cut() {
    let action = PlayerAction { player_id: 1, data: vec![0; 0x10001] };
    let slot = TimeSlot { time_increment_ms: 0, actions: vec![action] };
    let mut sink: Vec<u8> = Vec::new();
    slot.encode(&mut sink);
    // span = 2 + 3 + 0x10001 = 0x10006, of which the low 16 bits are written
    assert_eq!(&sink[..7], &[6, 0, 0, 0, 1, 1, 0]);
    assert_eq!(sink.len(), 4 + 3 + 0x10001);
    let player = PlayerInfo { id: 1, name: vec![], additional_data: vec![7; 257] };
    let mut sink: Vec<u8> = Vec::new();
    player.encode(&mut sink);
    assert_eq!(&sink[..4], &[1, 0, 1, 7]);
}

#[test]
fn incomplete_contexts() {
    assert_eq!(decode(&[]), Err(DecodeError::Incomplete(Context::Field)));
    assert_eq!(decode(&[0x1f, 9, 0, 1]), Err(DecodeError::Incomplete(Context::Field)));
    assert_eq!(decode(&[0x1f, 9, 0, 1, 0]), Err(DecodeError::Incomplete(Context::ActionData)));
    // the span is at hand, but ends behind the first action, where no header follows
    assert_eq!(
        decode(&[0x1f, 6, 0, 1, 0, 1, 0, 0, 5]),
        Err(DecodeError::Incomplete(Context::PlayerActionHeader))
    );
    assert_eq!(
        decode(&[0x1f, 1, 0, 1, 0]),
        Err(DecodeError::Incomplete(Context::PlayerActionHeader))
    );
    assert!(DecodeError::Incomplete(Context::Field).is_incomplete());
    assert!(!DecodeError::Malformed(Reason::TruncatedStream).is_incomplete());
}

#[test]
fn what_was_decoded_encodes_to_the_bytes_it_took() {
    let mut stream: Vec<u8> = Vec::new();
    for record in samples() {
        record.encode(&mut stream);
    }
    let mut cur = Cursor::new(&stream[..10], &stream[10..]);
    let mut at: usize = 0;
    let mut count: usize = 0;
    while cur.has(1) {
        let record = Record::decode(&mut cur).unwrap();
        let end: usize = stream.len() - cur.remaining_len();
        assert_eq!(encode(&record), stream[at..end].to_vec());
        at = end;
        count += 1;
    }
    assert_eq!(count, samples().len());
}
