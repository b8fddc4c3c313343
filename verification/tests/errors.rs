use w3replay::cursor::Cursor;
use w3replay::error::{Context, DecodeError, Reason};
use w3replay::record::{Record, RecordTypeId};
use w3replay::timeslot::{PlayerAction, TimeSlot};

fn decode(bytes: &[u8]) -> Result<Record, DecodeError> {
    let mut cur = Cursor::new(bytes, &bytes[bytes.len()..]);
    Record::decode(&mut cur)
}

fn malformed(reason: Reason) -> Result<Record, DecodeError> {
    Err(DecodeError::Malformed(reason))
}

#[test]
fn unknown_type_code_is_malformed_for_every_code_outside_the_set() {
    let known: [u8; 14] =
        [0x10, 0x16, 0x17, 0x19, 0x1a, 0x1b, 0x1c, 0x1e, 0x1f, 0x20, 0x22, 0x23, 0x2f, 0x39];
    let mut unknown: u32 = 0;
    for code in 0..=255u8 {
        if known.contains(&code) {
            assert!(!matches!(RecordTypeId::from_code(code), RecordTypeId::UnknownValue(_)));
            continue;
        }
        unknown += 1;
        assert_eq!(decode(&[code]), malformed(Reason::UnknownRecordTypeId(code)));
        assert_eq!(decode(&[code, 1, 2, 3, 4, 5, 6, 7]), malformed(Reason::UnknownRecordTypeId(code)));
    }
    assert_eq!(unknown, 242);
}

#[test]
fn fixed_values_are_checked() {
    assert_eq!(
        decode(&[0x1c, 2, 0, 0, 0]),
        malformed(Reason::UnexpectedValue { expected: 1, found: 2 })
    );
    assert_eq!(
        decode(&[0x1a, 1, 1, 0, 0]),
        malformed(Reason::UnexpectedValue { expected: 1, found: 0x101 })
    );
    assert_eq!(
        decode(&[0x1b, 0, 0, 0, 0]),
        malformed(Reason::UnexpectedValue { expected: 1, found: 0 })
    );
    assert_eq!(
        decode(&[0x22, 5, 1, 2, 3, 4]),
        malformed(Reason::UnexpectedValue { expected: 4, found: 5 })
    );
    assert_eq!(decode(&[0x22, 8]), malformed(Reason::UnexpectedValue { expected: 4, found: 8 }));
    assert_eq!(
        decode(&[0x23, 1, 0, 0, 0, 3, 2, 0, 0, 0, 0]),
        malformed(Reason::UnexpectedValue { expected: 4, found: 3 })
    );
    // the byte between the game name and the settings must be zero
    let mut info: Vec<u8> = vec![0x10, 1, 0, 0, 0, 1, b'h', 0, 0, b'g', 0, 9];
    info.extend_from_slice(&[0; 24]);
    assert_eq!(decode(&info), malformed(Reason::UnexpectedValue { expected: 0, found: 9 }));
    info[11] = 0;
    assert!(decode(&info).is_ok());
}

#[test]
fn a_span_that_ends_inside_an_action_is_malformed() {
    let slot = TimeSlot {
        time_increment_ms: 100,
        actions: vec![
            PlayerAction { player_id: 1, data: vec![1, 2, 3, 4] },
            PlayerAction { player_id: 2, data: vec![5, 6] },
        ],
    };
    let mut honest: Vec<u8> = vec![0x1f];
    slot.encode(&mut honest);
    assert_eq!(&honest[1..3], &[14, 0]);
    assert_eq!(decode(&honest), Ok(Record::TimeSlot(slot)));
    // the ends that fall between two actions: 2, 2 + 7 and 2 + 7 + 5
    for span in 0..14u8 {
        let mut bytes = honest.clone();
        bytes[1] = span;
        let result = decode(&bytes);
        if span == 2 {
            assert_eq!(
                result,
                Ok(Record::TimeSlot(TimeSlot { time_increment_ms: 100, actions: vec![] }))
            );
        } else if span == 9 {
            assert_eq!(
                result,
                Ok(Record::TimeSlot(TimeSlot {
                    time_increment_ms: 100,
                    actions: vec![PlayerAction { player_id: 1, data: vec![1, 2, 3, 4] }],
                }))
            );
        } else {
            assert_eq!(result, malformed(Reason::InvalidActionDataLength), "span {}", span);
        }
    }
}

#[test]
fn an_action_longer_than_the_bytes_at_hand_is_malformed() {
    // span 12 is at hand, the action announces 200 bytes
    assert_eq!(
        decode(&[0x1f, 12, 0, 1, 0, 1, 200, 0, 1, 2, 3, 4, 5, 6, 7]),
        malformed(Reason::InvalidActionDataLength)
    );
}

#[test]
fn a_chat_message_must_fill_its_length() {
    let honest: Vec<u8> = vec![0x20, 4, 4, 0, 0x10, b'h', b'i', 0];
    assert!(decode(&honest).is_ok());
    let mut longer = honest.clone();
    longer[2] = 6;
    longer.extend_from_slice(&[0, 0]);
    assert_eq!(decode(&longer), malformed(Reason::UnexpectedChatMessageLength));
    let mut shorter = honest.clone();
    shorter[2] = 3;
    assert_eq!(decode(&shorter), malformed(Reason::UnexpectedChatMessageLength));
    // the announced bytes are not all there yet
    longer.truncate(8);
    assert_eq!(decode(&longer), Err(DecodeError::Incomplete(Context::Field)));
}

#[test]
fn a_chat_message_needs_a_known_flag() {
    assert_eq!(
        decode(&[0x20, 4, 4, 0, 0x30, b'h', b'i', 0]),
        malformed(Reason::UnknownChatFlag(0x30))
    );
}

#[test]
fn a_slot_table_must_fill_its_length() {
    let honest: Vec<u8> = vec![0x19, 7, 0, 0, 1, 2, 3, 4, 5, 6];
    assert!(decode(&honest).is_ok());
    // too short for the fixed part
    assert_eq!(
        decode(&[0x19, 6, 0, 0, 1, 2, 3, 4, 5]),
        malformed(Reason::UnexpectedSlotDataLength)
    );
    // one slot announced, none within the length
    assert_eq!(
        decode(&[0x19, 7, 0, 1, 1, 2, 3, 4, 5, 6]),
        malformed(Reason::UnexpectedSlotDataLength)
    );
    // length for one slot, none announced
    let mut wide: Vec<u8> = vec![0x19, 16, 0, 0];
    wide.extend_from_slice(&[1; 15]);
    assert_eq!(decode(&wide), malformed(Reason::UnexpectedSlotDataLength));
}

#[test]
fn errors_can_be_copied() {
    let errors: Vec<DecodeError> = vec![
        DecodeError::Incomplete(Context::Field),
        DecodeError::Incomplete(Context::ActionData),
        DecodeError::Incomplete(Context::PlayerActionHeader),
        DecodeError::Malformed(Reason::UnknownRecordTypeId(3)),
        DecodeError::Malformed(Reason::UnexpectedValue { expected: 1, found: 2 }),
        DecodeError::Malformed(Reason::InvalidActionDataLength),
        DecodeError::Malformed(Reason::UnexpectedChatMessageLength),
        DecodeError::Malformed(Reason::UnknownChatFlag(1)),
        DecodeError::Malformed(Reason::UnexpectedSlotDataLength),
        DecodeError::Malformed(Reason::RecordLargerThanBlock),
        DecodeError::Malformed(Reason::TruncatedStream),
        DecodeError::Malformed(Reason::ReadBlock("disk".to_string())),
    ];
    for e in errors {
        assert_eq!(e.duplicate(), e);
        assert_eq!(e.is_incomplete(), matches!(e, DecodeError::Incomplete(_)));
        if let DecodeError::Malformed(reason) = &e {
            assert_eq!(&reason.duplicate(), reason);
        }
    }
}

#[test]
fn errors_have_words() {
    assert_eq!(Reason::UnknownRecordTypeId(3).message(), "unknown record type id");
    assert_eq!(Reason::UnexpectedValue { expected: 1, found: 2 }.message(), "unexpected value");
    assert_eq!(Reason::InvalidActionDataLength.message(), "invalid action data length");
    assert_eq!(Reason::UnexpectedChatMessageLength.message(), "unexpected chat message length");
    assert_eq!(Reason::UnknownChatFlag(1).message(), "unknown chat message flag");
    assert_eq!(Reason::UnexpectedSlotDataLength.message(), "unexpected slot data length");
    assert_eq!(Reason::RecordLargerThanBlock.message(), "record larger than the block");
    assert_eq!(Reason::TruncatedStream.message(), "stream truncated mid-record");
    assert_eq!(Reason::ReadBlock("x".to_string()).message(), "read block");
    assert_eq!(Context::Field.label(), "Field");
    assert_eq!(Context::ActionData.label(), "Action data");
    assert_eq!(Context::PlayerActionHeader.label(), "PlayerAction header");
}

#[test]
fn more_bytes_do_not_mend_a_malformed_input() {
    let inputs: Vec<Vec<u8>> = vec![
        vec![0x00],
        vec![0x1c, 2, 0, 0, 0],
        vec![0x22, 5],
        vec![0x23, 1, 0, 0, 0, 3],
        vec![0x1f, 5, 0, 1, 0, 1, 9, 0],
        vec![0x1f, 1, 0, 1, 0, 1, 0, 0],
        vec![0x20, 4, 3, 0, 0x10, b'h', b'i', 0],
        vec![0x20, 4, 2, 0, 0x77, 0],
        vec![0x19, 7, 0, 1, 1, 2, 3, 4, 5, 6],
        vec![0x10, 1, 0, 0, 0, 1, b'h', 0, 0, b'g', 0, 9],
    ];
    for input in inputs {
        let first = decode(&input);
        assert!(matches!(first, Err(DecodeError::Malformed(_))), "{:?}", input);
        for extra in [1usize, 3, 40] {
            let mut longer = input.clone();
            longer.resize(input.len() + extra, 0x2a);
            assert_eq!(decode(&longer), first);
            longer.resize(input.len(), 0);
            longer.resize(input.len() + extra, 0);
            assert_eq!(decode(&longer), first);
        }
    }
}
