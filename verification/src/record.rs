//! The record: one of fourteen kinds, told apart by its first byte.

use vstd::prelude::*;
use crate::chat::{PlayerChatMessage, PlayerChatMessageView};
use crate::cursor::Cursor;
use crate::error::{decodes_as, Context, DecodeError, Parsed, Reason};
use crate::game::{CountDownEnd, CountDownStart, GameInfo, GameInfoView, GameStart};
use crate::player::{PlayerInfoRecord, PlayerInfoRecordView, PlayerLeft};
use crate::protobuf::{ProtoBufPayload, ProtoBufPayloadView};
use crate::slot::{SlotInfo, SlotInfoView};
use crate::sync::{Desync, EndTimer, TimeSlotAck};
use crate::timeslot::{TimeSlot, TimeSlotFragment, TimeSlotView};
use crate::wire::{lemma_same_prefix, lemma_skip_extend, put_u8};

verus! {

/// The kind of a record, as its first byte tells it.
#[derive(Clone, Copy, Debug, PartialEq, Eq)]
pub enum RecordTypeId {
    GameInfo,
    PlayerInfo,
    PlayerLeft,
    SlotInfo,
    CountDownStart,
    CountDownEnd,
    GameStart,
    TimeSlotFragment,
    TimeSlot,
    ChatMessage,
    TimeSlotAck,
    Desync,
    EndTimer,
    ProtoBuf,
    UnknownValue(u8),
}

impl RecordTypeId {
    /// The byte that stands for the kind.
    pub open spec fn code(self) -> u8 {
        match self {
            RecordTypeId::GameInfo => 0x10,
            RecordTypeId::PlayerInfo => 0x16,
            RecordTypeId::PlayerLeft => 0x17,
            RecordTypeId::SlotInfo => 0x19,
            RecordTypeId::CountDownStart => 0x1a,
            RecordTypeId::CountDownEnd => 0x1b,
            RecordTypeId::GameStart => 0x1c,
            RecordTypeId::TimeSlotFragment => 0x1e,
            RecordTypeId::TimeSlot => 0x1f,
            RecordTypeId::ChatMessage => 0x20,
            RecordTypeId::TimeSlotAck => 0x22,
            RecordTypeId::Desync => 0x23,
            RecordTypeId::EndTimer => 0x2f,
            RecordTypeId::ProtoBuf => 0x39,
            RecordTypeId::UnknownValue(code) => code,
        }
    }

    /// The kind that a byte stands for.
    pub open spec fn of_code(code: u8) -> RecordTypeId {
        if code == 0x10 {
            RecordTypeId::GameInfo
        } else if code == 0x16 {
            RecordTypeId::PlayerInfo
        } else if code == 0x17 {
            RecordTypeId::PlayerLeft
        } else if code == 0x19 {
            RecordTypeId::SlotInfo
        } else if code == 0x1a {
            RecordTypeId::CountDownStart
        } else if code == 0x1b {
            RecordTypeId::CountDownEnd
        } else if code == 0x1c {
            RecordTypeId::GameStart
        } else if code == 0x1e {
            RecordTypeId::TimeSlotFragment
        } else if code == 0x1f {
            RecordTypeId::TimeSlot
        } else if code == 0x20 {
            RecordTypeId::ChatMessage
        } else if code == 0x22 {
            RecordTypeId::TimeSlotAck
        } else if code == 0x23 {
            RecordTypeId::Desync
        } else if code == 0x2f {
            RecordTypeId::EndTimer
        } else if code == 0x39 {
            RecordTypeId::ProtoBuf
        } else {
            RecordTypeId::UnknownValue(code)
        }
    }

    /// The kind is one of the fourteen that a record can have.
    pub open spec fn known(self) -> bool {
        !(self is UnknownValue)
    }

    /// The byte that stands for the kind.
    pub fn to_code(self) -> (code: u8)
        ensures
            code == self.code(),
    {
        match self {
            RecordTypeId::GameInfo => 0x10,
            RecordTypeId::PlayerInfo => 0x16,
            RecordTypeId::PlayerLeft => 0x17,
            RecordTypeId::SlotInfo => 0x19,
            RecordTypeId::CountDownStart => 0x1a,
            RecordTypeId::CountDownEnd => 0x1b,
            RecordTypeId::GameStart => 0x1c,
            RecordTypeId::TimeSlotFragment => 0x1e,
            RecordTypeId::TimeSlot => 0x1f,
            RecordTypeId::ChatMessage => 0x20,
            RecordTypeId::TimeSlotAck => 0x22,
            RecordTypeId::Desync => 0x23,
            RecordTypeId::EndTimer => 0x2f,
            RecordTypeId::ProtoBuf => 0x39,
            RecordTypeId::UnknownValue(code) => code,
        }
    }

    /// The kind that a byte stands for.
    pub fn from_code(code: u8) -> (id: RecordTypeId)
        ensures
            id == Self::of_code(code),
    {
        if code == 0x10 {
            RecordTypeId::GameInfo
        } else if code == 0x16 {
            RecordTypeId::PlayerInfo
        } else if code == 0x17 {
            RecordTypeId::PlayerLeft
        } else if code == 0x19 {
            RecordTypeId::SlotInfo
        } else if code == 0x1a {
            RecordTypeId::CountDownStart
        } else if code == 0x1b {
            RecordTypeId::CountDownEnd
        } else if code == 0x1c {
            RecordTypeId::GameStart
        } else if code == 0x1e {
            RecordTypeId::TimeSlotFragment
        } else if code == 0x1f {
            RecordTypeId::TimeSlot
        } else if code == 0x20 {
            RecordTypeId::ChatMessage
        } else if code == 0x22 {
            RecordTypeId::TimeSlotAck
        } else if code == 0x23 {
            RecordTypeId::Desync
        } else if code == 0x2f {
            RecordTypeId::EndTimer
        } else if code == 0x39 {
            RecordTypeId::ProtoBuf
        } else {
            RecordTypeId::UnknownValue(code)
        }
    }
}

/// A record of a replay.
#[derive(Clone, Debug, PartialEq, Eq)]
pub enum Record {
    /// The description of the game.
    GameInfo(GameInfo),
    /// A player that joined after the host.
    PlayerInfo(PlayerInfoRecord),
    /// A player left.
    PlayerLeft(PlayerLeft),
    /// The slot table.
    SlotInfo(SlotInfo),
    /// The countdown begins.
    CountDownStart(CountDownStart),
    /// The countdown is over.
    CountDownEnd(CountDownEnd),
    /// The game starts.
    GameStart(GameStart),
    /// A part of a time slot that goes on in the next record.
    TimeSlotFragment(TimeSlotFragment),
    /// A time slot.
    TimeSlot(TimeSlot),
    /// A chat message.
    ChatMessage(PlayerChatMessage),
    /// The checksum that closes a time slot.
    TimeSlotAck(TimeSlotAck),
    /// The players' states differ.
    Desync(Desync),
    /// The countdown that ends the game by force.
    EndTimer(EndTimer),
    /// A protocol-buffers message.
    ProtoBuf(ProtoBufPayload),
}

pub enum RecordView {
    GameInfo(GameInfoView),
    PlayerInfo(PlayerInfoRecordView),
    PlayerLeft(PlayerLeft),
    SlotInfo(SlotInfoView),
    CountDownStart(CountDownStart),
    CountDownEnd(CountDownEnd),
    GameStart(GameStart),
    TimeSlotFragment(TimeSlotView),
    TimeSlot(TimeSlotView),
    ChatMessage(PlayerChatMessageView),
    TimeSlotAck(TimeSlotAck),
    Desync(Desync),
    EndTimer(EndTimer),
    ProtoBuf(ProtoBufPayloadView),
}

impl View for Record {
    type V = RecordView;

    open spec fn view(&self) -> RecordView {
        match self {
            Record::GameInfo(p) => RecordView::GameInfo(p@),
            Record::PlayerInfo(p) => RecordView::PlayerInfo(p@),
            Record::PlayerLeft(p) => RecordView::PlayerLeft(p@),
            Record::SlotInfo(p) => RecordView::SlotInfo(p@),
            Record::CountDownStart(p) => RecordView::CountDownStart(p@),
            Record::CountDownEnd(p) => RecordView::CountDownEnd(p@),
            Record::GameStart(p) => RecordView::GameStart(p@),
            Record::TimeSlotFragment(p) => RecordView::TimeSlotFragment(p@),
            Record::TimeSlot(p) => RecordView::TimeSlot(p@),
            Record::ChatMessage(p) => RecordView::ChatMessage(p@),
            Record::TimeSlotAck(p) => RecordView::TimeSlotAck(p@),
            Record::Desync(p) => RecordView::Desync(p@),
            Record::EndTimer(p) => RecordView::EndTimer(p@),
            Record::ProtoBuf(p) => RecordView::ProtoBuf(p@),
        }
    }
}

/// The outcome of a record whose payload, behind the type byte, read as `payload`.
pub open spec fn tagged<V>(payload: Parsed<V>, wrap: spec_fn(V) -> RecordView) -> Parsed<
    RecordView,
> {
    match payload {
        Parsed::Done(value, n) => Parsed::Done(wrap(value), 1 + n),
        Parsed::Fail(e) => Parsed::Fail(e),
    }
}

impl RecordView {
    /// The kind of the record.
    pub open spec fn type_id(self) -> RecordTypeId {
        match self {
            RecordView::GameInfo(_) => RecordTypeId::GameInfo,
            RecordView::PlayerInfo(_) => RecordTypeId::PlayerInfo,
            RecordView::PlayerLeft(_) => RecordTypeId::PlayerLeft,
            RecordView::SlotInfo(_) => RecordTypeId::SlotInfo,
            RecordView::CountDownStart(_) => RecordTypeId::CountDownStart,
            RecordView::CountDownEnd(_) => RecordTypeId::CountDownEnd,
            RecordView::GameStart(_) => RecordTypeId::GameStart,
            RecordView::TimeSlotFragment(_) => RecordTypeId::TimeSlotFragment,
            RecordView::TimeSlot(_) => RecordTypeId::TimeSlot,
            RecordView::ChatMessage(_) => RecordTypeId::ChatMessage,
            RecordView::TimeSlotAck(_) => RecordTypeId::TimeSlotAck,
            RecordView::Desync(_) => RecordTypeId::Desync,
            RecordView::EndTimer(_) => RecordTypeId::EndTimer,
            RecordView::ProtoBuf(_) => RecordTypeId::ProtoBuf,
        }
    }

    /// The payload can be written and read back: every length fits its field,
    /// every string is free of zero bytes, every fixed value is in place.
    pub open spec fn valid(self) -> bool {
        match self {
            RecordView::GameInfo(p) => p.valid(),
            RecordView::PlayerInfo(p) => p.valid(),
            RecordView::PlayerLeft(p) => p.valid(),
            RecordView::SlotInfo(p) => p.valid(),
            RecordView::CountDownStart(p) => p.0.valid(),
            RecordView::CountDownEnd(p) => p.0.valid(),
            RecordView::GameStart(p) => p.valid(),
            RecordView::TimeSlotFragment(p) => p.valid(),
            RecordView::TimeSlot(p) => p.valid(),
            RecordView::ChatMessage(p) => p.valid(),
            RecordView::TimeSlotAck(p) => true,
            RecordView::Desync(p) => true,
            RecordView::EndTimer(p) => true,
            RecordView::ProtoBuf(p) => p.valid(),
        }
    }

    /// The wire form of the payload.
    pub open spec fn payload_wire(self) -> Seq<u8> {
        match self {
            RecordView::GameInfo(p) => p.wire(),
            RecordView::PlayerInfo(p) => p.wire(),
            RecordView::PlayerLeft(p) => p.wire(),
            RecordView::SlotInfo(p) => p.wire(),
            RecordView::CountDownStart(p) => p.0.wire(),
            RecordView::CountDownEnd(p) => p.0.wire(),
            RecordView::GameStart(p) => p.wire(),
            RecordView::TimeSlotFragment(p) => p.wire(),
            RecordView::TimeSlot(p) => p.wire(),
            RecordView::ChatMessage(p) => p.wire(),
            RecordView::TimeSlotAck(p) => p.wire(),
            RecordView::Desync(p) => p.wire(),
            RecordView::EndTimer(p) => p.wire(),
            RecordView::ProtoBuf(p) => p.wire(),
        }
    }

    /// The type byte, then the payload.
    #[verifier::opaque]
    pub open spec fn wire(self) -> Seq<u8> {
        seq![self.type_id().code()] + self.payload_wire()
    }

    /// How a byte sequence reads as a record. An empty sequence asks for more;
    /// a first byte that names no kind is malformed, whatever follows it.
    #[verifier::opaque]
    pub open spec fn parse(s: Seq<u8>) -> Parsed<RecordView> {
        if s.len() < 1 {
            Parsed::Fail(DecodeError::Incomplete(Context::Field))
        } else {
            let t = s.skip(1);
            match RecordTypeId::of_code(s[0]) {
                RecordTypeId::GameInfo => tagged(GameInfoView::parse(t), |p: GameInfoView| RecordView::GameInfo(p)),
                RecordTypeId::PlayerInfo => tagged(PlayerInfoRecordView::parse(t), |p: PlayerInfoRecordView| RecordView::PlayerInfo(p)),
                RecordTypeId::PlayerLeft => tagged(PlayerLeft::parse(t), |p: PlayerLeft| RecordView::PlayerLeft(p)),
                RecordTypeId::SlotInfo => tagged(SlotInfoView::parse(t), |p: SlotInfoView| RecordView::SlotInfo(p)),
                RecordTypeId::CountDownStart => tagged(CountDownStart::parse(t), |p: CountDownStart| RecordView::CountDownStart(p)),
                RecordTypeId::CountDownEnd => tagged(CountDownEnd::parse(t), |p: CountDownEnd| RecordView::CountDownEnd(p)),
                RecordTypeId::GameStart => tagged(GameStart::parse(t), |p: GameStart| RecordView::GameStart(p)),
                RecordTypeId::TimeSlotFragment => tagged(TimeSlotView::parse(t), |p: TimeSlotView| RecordView::TimeSlotFragment(p)),
                RecordTypeId::TimeSlot => tagged(TimeSlotView::parse(t), |p: TimeSlotView| RecordView::TimeSlot(p)),
                RecordTypeId::ChatMessage => tagged(PlayerChatMessageView::parse(t), |p: PlayerChatMessageView| RecordView::ChatMessage(p)),
                RecordTypeId::TimeSlotAck => tagged(TimeSlotAck::parse(t), |p: TimeSlotAck| RecordView::TimeSlotAck(p)),
                RecordTypeId::Desync => tagged(Desync::parse(t), |p: Desync| RecordView::Desync(p)),
                RecordTypeId::EndTimer => tagged(EndTimer::parse(t), |p: EndTimer| RecordView::EndTimer(p)),
                RecordTypeId::ProtoBuf => tagged(ProtoBufPayloadView::parse(t), |p: ProtoBufPayloadView| RecordView::ProtoBuf(p)),
                RecordTypeId::UnknownValue(code) => Parsed::Fail(
                    DecodeError::Malformed(Reason::UnknownRecordTypeId(code)),
                ),
            }
        }
    }

    /// The first byte of an encoded record is its type byte, and it is not zero.
    pub proof fn lemma_first_byte(self)
        ensures
            self.wire().len() >= 1,
            self.wire()[0] == self.type_id().code(),
            self.wire()[0] != 0,
            RecordTypeId::of_code(self.type_id().code()) == self.type_id(),
    {
        reveal(RecordView::wire);
    }

    /// Decoding an encoded record gives the record back and stops right behind
    /// it, whatever follows.
    pub proof fn lemma_roundtrip(self, tail: Seq<u8>)
        requires
            self.valid(),
        ensures
            Self::parse(self.wire() + tail) == Parsed::Done(self, self.wire().len() as int),
    {
        reveal(RecordView::wire);
        reveal(RecordView::parse);
        let s = self.wire() + tail;
        self.lemma_first_byte();
        assert(s[0] == self.type_id().code());
        assert(s.skip(1) =~= self.payload_wire() + tail);
        match self {
            RecordView::GameInfo(p) => p.lemma_roundtrip(tail),
            RecordView::PlayerInfo(p) => p.lemma_roundtrip(tail),
            RecordView::PlayerLeft(p) => p.lemma_roundtrip(tail),
            RecordView::SlotInfo(p) => p.lemma_roundtrip(tail),
            RecordView::CountDownStart(p) => p.0.lemma_roundtrip(tail),
            RecordView::CountDownEnd(p) => p.0.lemma_roundtrip(tail),
            RecordView::GameStart(p) => p.lemma_roundtrip(tail),
            RecordView::TimeSlotFragment(p) => p.lemma_roundtrip(tail),
            RecordView::TimeSlot(p) => p.lemma_roundtrip(tail),
            RecordView::ChatMessage(p) => p.lemma_roundtrip(tail),
            RecordView::TimeSlotAck(p) => p.lemma_roundtrip(tail),
            RecordView::Desync(p) => p.lemma_roundtrip(tail),
            RecordView::EndTimer(p) => p.lemma_roundtrip(tail),
            RecordView::ProtoBuf(p) => p.lemma_roundtrip(tail),
        }
    }

    /// A proper prefix of an encoded record asks for more bytes.
    pub proof fn lemma_prefix(self, p: Seq<u8>)
        requires
            self.valid(),
            p.len() < self.wire().len(),
            p == self.wire().take(p.len() as int),
        ensures
            Self::parse(p).wants_more(),
    {
        reveal(RecordView::wire);
        reveal(RecordView::parse);
        self.lemma_first_byte();
        if p.len() >= 1 {
            let q = p.skip(1);
            assert(p[0] == self.wire()[0]);
            assert(q =~= self.payload_wire().take(q.len() as int));
            match self {
                RecordView::GameInfo(x) => x.lemma_prefix(q),
                RecordView::PlayerInfo(x) => x.lemma_prefix(q),
                RecordView::PlayerLeft(x) => x.lemma_prefix(q),
                RecordView::SlotInfo(x) => x.lemma_prefix(q),
                RecordView::CountDownStart(x) => x.0.lemma_prefix(q),
                RecordView::CountDownEnd(x) => x.0.lemma_prefix(q),
                RecordView::GameStart(x) => x.lemma_prefix(q),
                RecordView::TimeSlotFragment(x) => x.lemma_prefix(q),
                RecordView::TimeSlot(x) => x.lemma_prefix(q),
                RecordView::ChatMessage(x) => x.lemma_prefix(q),
                RecordView::TimeSlotAck(x) => x.lemma_prefix(q),
                RecordView::Desync(x) => x.lemma_prefix(q),
                RecordView::EndTimer(x) => x.lemma_prefix(q),
                RecordView::ProtoBuf(x) => x.lemma_prefix(q),
            }
        }
    }

    /// A record that was read is valid: it can be written and read back.
    pub proof fn lemma_parsed_valid(s: Seq<u8>)
        requires
            Self::parse(s) is Done,
        ensures
            Self::parse(s)->Done_0.valid(),
    {
        reveal(RecordView::parse);
        let t = s.skip(1);
        match RecordTypeId::of_code(s[0]) {
            RecordTypeId::GameInfo => GameInfoView::lemma_parsed_valid(t),
            RecordTypeId::PlayerInfo => PlayerInfoRecordView::lemma_parsed_valid(t),
            RecordTypeId::PlayerLeft => PlayerLeft::lemma_parsed_valid(t),
            RecordTypeId::SlotInfo => SlotInfoView::lemma_parsed_valid(t),
            RecordTypeId::CountDownStart => GameStart::lemma_parsed_valid(t),
            RecordTypeId::CountDownEnd => GameStart::lemma_parsed_valid(t),
            RecordTypeId::GameStart => GameStart::lemma_parsed_valid(t),
            RecordTypeId::TimeSlotFragment => TimeSlotView::lemma_parsed_valid(t),
            RecordTypeId::TimeSlot => TimeSlotView::lemma_parsed_valid(t),
            RecordTypeId::ChatMessage => PlayerChatMessageView::lemma_parsed_valid(t),
            RecordTypeId::ProtoBuf => ProtoBufPayloadView::lemma_parsed_valid(t),
            _ => {},
        }
    }

    /// A record that was read took at least one of the bytes at hand.
    pub proof fn lemma_size(s: Seq<u8>)
        requires
            Self::parse(s) is Done,
        ensures
            1 <= Self::parse(s)->Done_1 <= s.len(),
    {
        reveal(RecordView::parse);
        reveal(PlayerLeft::parse);
        reveal(GameStart::parse);
        reveal(TimeSlotAck::parse);
        reveal(Desync::parse);
        reveal(EndTimer::parse);
        let t = s.skip(1);
        match RecordTypeId::of_code(s[0]) {
            RecordTypeId::GameInfo => GameInfoView::lemma_size(t),
            RecordTypeId::PlayerInfo => PlayerInfoRecordView::lemma_size(t),
            RecordTypeId::SlotInfo => SlotInfoView::lemma_size(t),
            RecordTypeId::TimeSlotFragment => TimeSlotView::lemma_size(t),
            RecordTypeId::TimeSlot => TimeSlotView::lemma_size(t),
            RecordTypeId::ChatMessage => PlayerChatMessageView::lemma_size(t),
            RecordTypeId::ProtoBuf => ProtoBufPayloadView::lemma_size(t),
            _ => {},
        }
    }

    /// A record that was read reads the same from any input that agrees on the
    /// bytes it took.
    pub proof fn lemma_local(s: Seq<u8>, z: Seq<u8>)
        requires
            Self::parse(s) is Done,
            z.len() >= Self::parse(s)->Done_1,
            z.take(Self::parse(s)->Done_1) == s.take(Self::parse(s)->Done_1),
        ensures
            Self::parse(z) == Self::parse(s),
    {
        reveal(RecordView::parse);
        reveal(PlayerLeft::parse);
        reveal(GameStart::parse);
        reveal(TimeSlotAck::parse);
        reveal(Desync::parse);
        reveal(EndTimer::parse);
        let n = Self::parse(s)->Done_1;
        let t = s.skip(1);
        let u = z.skip(1);
        Self::lemma_size(s);
        lemma_same_prefix(z, s, n);
        assert(z[0] == s[0]);
        assert(u.take(n - 1) == t.take(n - 1));
        match RecordTypeId::of_code(s[0]) {
            RecordTypeId::GameInfo => GameInfoView::lemma_local(t, u),
            RecordTypeId::PlayerInfo => PlayerInfoRecordView::lemma_local(t, u),
            RecordTypeId::PlayerLeft => PlayerLeft::lemma_local(t, u),
            RecordTypeId::SlotInfo => SlotInfoView::lemma_local(t, u),
            RecordTypeId::CountDownStart => GameStart::lemma_local(t, u),
            RecordTypeId::CountDownEnd => GameStart::lemma_local(t, u),
            RecordTypeId::GameStart => GameStart::lemma_local(t, u),
            RecordTypeId::TimeSlotFragment => TimeSlotView::lemma_local(t, u),
            RecordTypeId::TimeSlot => TimeSlotView::lemma_local(t, u),
            RecordTypeId::ChatMessage => PlayerChatMessageView::lemma_local(t, u),
            RecordTypeId::TimeSlotAck => TimeSlotAck::lemma_local(t, u),
            RecordTypeId::Desync => Desync::lemma_local(t, u),
            RecordTypeId::EndTimer => EndTimer::lemma_local(t, u),
            RecordTypeId::ProtoBuf => ProtoBufPayloadView::lemma_local(t, u),
            RecordTypeId::UnknownValue(_) => {},
        }
    }

    /// An input that is malformed stays so, whatever follows it: more bytes
    /// can only help an input that is incomplete.
    pub proof fn lemma_malformed_final(s: Seq<u8>, t: Seq<u8>)
        requires
            Self::parse(s).rejects(),
        ensures
            Self::parse(s + t) == Self::parse(s),
    {
        reveal(RecordView::parse);
        let z = s + t;
        let p = s.skip(1);
        lemma_skip_extend(s, t, 1);
        assert(z[0] == s[0]);
        match RecordTypeId::of_code(s[0]) {
            RecordTypeId::GameInfo => GameInfoView::lemma_malformed_final(p, t),
            RecordTypeId::PlayerInfo => PlayerInfoRecordView::lemma_never_malformed(p),
            RecordTypeId::PlayerLeft => PlayerLeft::lemma_never_malformed(p),
            RecordTypeId::SlotInfo => SlotInfoView::lemma_malformed_final(p, t),
            RecordTypeId::CountDownStart => GameStart::lemma_malformed_final(p, t),
            RecordTypeId::CountDownEnd => GameStart::lemma_malformed_final(p, t),
            RecordTypeId::GameStart => GameStart::lemma_malformed_final(p, t),
            RecordTypeId::TimeSlotFragment => TimeSlotView::lemma_malformed_final(p, t),
            RecordTypeId::TimeSlot => TimeSlotView::lemma_malformed_final(p, t),
            RecordTypeId::ChatMessage => PlayerChatMessageView::lemma_malformed_final(p, t),
            RecordTypeId::TimeSlotAck => TimeSlotAck::lemma_malformed_final(p, t),
            RecordTypeId::Desync => Desync::lemma_malformed_final(p, t),
            RecordTypeId::EndTimer => EndTimer::lemma_never_malformed(p),
            RecordTypeId::ProtoBuf => ProtoBufPayloadView::lemma_never_malformed(p),
            RecordTypeId::UnknownValue(_) => {},
        }
    }

    /// An input that was read stays read, whatever follows it.
    pub proof fn lemma_done_final(s: Seq<u8>, t: Seq<u8>)
        requires
            Self::parse(s) is Done,
        ensures
            Self::parse(s + t) == Self::parse(s),
    {
        Self::lemma_size(s);
        assert((s + t).take(Self::parse(s)->Done_1) =~= s.take(Self::parse(s)->Done_1));
        Self::lemma_local(s, s + t);
    }

    /// A first byte that names none of the fourteen kinds makes the input
    /// malformed, never incomplete, whatever follows it.
    pub proof fn lemma_unknown_type(s: Seq<u8>)
        requires
            s.len() >= 1,
            !RecordTypeId::of_code(s[0]).known(),
        ensures
            Self::parse(s) == Parsed::<RecordView>::Fail(
                DecodeError::Malformed(Reason::UnknownRecordTypeId(s[0])),
            ),
    {
        reveal(RecordView::parse);
    }
}

impl Record {
    /// The kind of the record.
    pub fn type_id(&self) -> (id: RecordTypeId)
        ensures
            id == self@.type_id(),
    {
        match self {
            Record::GameInfo(_) => RecordTypeId::GameInfo,
            Record::PlayerInfo(_) => RecordTypeId::PlayerInfo,
            Record::PlayerLeft(_) => RecordTypeId::PlayerLeft,
            Record::SlotInfo(_) => RecordTypeId::SlotInfo,
            Record::CountDownStart(_) => RecordTypeId::CountDownStart,
            Record::CountDownEnd(_) => RecordTypeId::CountDownEnd,
            Record::GameStart(_) => RecordTypeId::GameStart,
            Record::TimeSlotFragment(_) => RecordTypeId::TimeSlotFragment,
            Record::TimeSlot(_) => RecordTypeId::TimeSlot,
            Record::ChatMessage(_) => RecordTypeId::ChatMessage,
            Record::TimeSlotAck(_) => RecordTypeId::TimeSlotAck,
            Record::Desync(_) => RecordTypeId::Desync,
            Record::EndTimer(_) => RecordTypeId::EndTimer,
            Record::ProtoBuf(_) => RecordTypeId::ProtoBuf,
        }
    }

    /// Reads one record: the type byte, then the payload of that kind.
    pub fn decode(cur: &mut Cursor) -> (r: Result<Record, DecodeError>)
        ensures
            decodes_as(
                old(cur).remaining(),
                final(cur).remaining(),
                r,
                RecordView::parse(old(cur).remaining()),
            ),
    {
        let ghost s = cur.remaining();
        proof {
            reveal(RecordView::parse);
        }
        if !cur.has(1) {
            return Err(DecodeError::Incomplete(Context::Field));
        }
        let id = RecordTypeId::from_code(cur.get_u8());
        proof {
            reveal(RecordView::parse);
            RecordView::lemma_skip_behind_tag(s);
        }
        match id {
            RecordTypeId::GameInfo => match GameInfo::decode(cur) {
                Ok(p) => Ok(Record::GameInfo(p)),
                Err(e) => Err(e),
            },
            RecordTypeId::PlayerInfo => match PlayerInfoRecord::decode(cur) {
                Ok(p) => Ok(Record::PlayerInfo(p)),
                Err(e) => Err(e),
            },
            RecordTypeId::PlayerLeft => match PlayerLeft::decode(cur) {
                Ok(p) => Ok(Record::PlayerLeft(p)),
                Err(e) => Err(e),
            },
            RecordTypeId::SlotInfo => match SlotInfo::decode(cur) {
                Ok(p) => Ok(Record::SlotInfo(p)),
                Err(e) => Err(e),
            },
            RecordTypeId::CountDownStart => match CountDownStart::decode(cur) {
                Ok(p) => Ok(Record::CountDownStart(p)),
                Err(e) => Err(e),
            },
            RecordTypeId::CountDownEnd => match CountDownEnd::decode(cur) {
                Ok(p) => Ok(Record::CountDownEnd(p)),
                Err(e) => Err(e),
            },
            RecordTypeId::GameStart => match GameStart::decode(cur) {
                Ok(p) => Ok(Record::GameStart(p)),
                Err(e) => Err(e),
            },
            RecordTypeId::TimeSlotFragment => match TimeSlotFragment::decode(cur) {
                Ok(p) => Ok(Record::TimeSlotFragment(p)),
                Err(e) => Err(e),
            },
            RecordTypeId::TimeSlot => match TimeSlot::decode(cur) {
                Ok(p) => Ok(Record::TimeSlot(p)),
                Err(e) => Err(e),
            },
            RecordTypeId::ChatMessage => match PlayerChatMessage::decode(cur) {
                Ok(p) => Ok(Record::ChatMessage(p)),
                Err(e) => Err(e),
            },
            RecordTypeId::TimeSlotAck => match TimeSlotAck::decode(cur) {
                Ok(p) => Ok(Record::TimeSlotAck(p)),
                Err(e) => Err(e),
            },
            RecordTypeId::Desync => match Desync::decode(cur) {
                Ok(p) => Ok(Record::Desync(p)),
                Err(e) => Err(e),
            },
            RecordTypeId::EndTimer => match EndTimer::decode(cur) {
                Ok(p) => Ok(Record::EndTimer(p)),
                Err(e) => Err(e),
            },
            RecordTypeId::ProtoBuf => match ProtoBufPayload::decode(cur) {
                Ok(p) => Ok(Record::ProtoBuf(p)),
                Err(e) => Err(e),
            },
            RecordTypeId::UnknownValue(code) => Err(
                DecodeError::Malformed(Reason::UnknownRecordTypeId(code)),
            ),
        }
    }

    /// Writes the record: the type byte, then the payload.
    pub fn encode(&self, sink: &mut Vec<u8>)
        ensures
            final(sink)@ == old(sink)@ + self@.wire(),
    {
        proof {
            reveal(RecordView::wire);
        }
        put_u8(sink, self.type_id().to_code());
        match self {
            Record::GameInfo(p) => p.encode(sink),
            Record::PlayerInfo(p) => p.encode(sink),
            Record::PlayerLeft(p) => p.encode(sink),
            Record::SlotInfo(p) => p.encode(sink),
            Record::CountDownStart(p) => p.encode(sink),
            Record::CountDownEnd(p) => p.encode(sink),
            Record::GameStart(p) => p.encode(sink),
            Record::TimeSlotFragment(p) => p.encode(sink),
            Record::TimeSlot(p) => p.encode(sink),
            Record::ChatMessage(p) => p.encode(sink),
            Record::TimeSlotAck(p) => p.encode(sink),
            Record::Desync(p) => p.encode(sink),
            Record::EndTimer(p) => p.encode(sink),
            Record::ProtoBuf(p) => p.encode(sink),
        }
        assert(sink@ =~= old(sink)@ + self@.wire());
    }
}

impl RecordView {
    /// Skipping the type byte and then a payload is skipping both at once.
    pub proof fn lemma_skip_behind_tag(s: Seq<u8>)
        ensures
            forall|n: int| 0 <= n < s.len() ==> #[trigger] s.skip(1).skip(n) == s.skip(1 + n),
    {
        assert forall|n: int| 0 <= n < s.len() implies #[trigger] s.skip(1).skip(n) == s.skip(
            1 + n,
        ) by {
            assert(s.skip(1).skip(n) =~= s.skip(1 + n));
        }
    }
}

} // verus!
