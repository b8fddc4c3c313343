//! Player records: who plays, and who left.

use vstd::prelude::*;
use vstd::string::StringSliceAdditionalSpecFns;
use crate::cursor::Cursor;
use crate::error::{decodes_as, Context, DecodeError, Parsed};
use crate::wire::{
    le32, le32_bytes, lemma_le32_roundtrip, lemma_nul_pos, lemma_nul_pos_local,
    lemma_nul_pos_terminated, lemma_nul_pos_unterminated, lemma_same_prefix, nul_pos, put_slice,
    put_u32_le, put_u8, zero_free,
};

verus! {

/// A player: its id, its name, and data of the game vendor that is kept as it came.
#[derive(Clone, Debug, PartialEq, Eq)]
pub struct PlayerInfo {
    pub id: u8,
    pub name: Vec<u8>,
    pub additional_data: Vec<u8>,
}

pub struct PlayerInfoView {
    pub id: u8,
    pub name: Seq<u8>,
    pub additional_data: Seq<u8>,
}

impl View for PlayerInfo {
    type V = PlayerInfoView;

    open spec fn view(&self) -> PlayerInfoView {
        PlayerInfoView { id: self.id, name: self.name@, additional_data: self.additional_data@ }
    }
}

/// The bytes of `text` without its zero bytes.
pub open spec fn without_zeros(text: Seq<u8>) -> Seq<u8> {
    text.filter(|b: u8| b != 0)
}

/// Copies `text`, leaving out zero bytes, so that the result can be written as
/// a zero-terminated string.
pub fn strip_zeros(text: &[u8]) -> (out: Vec<u8>)
    ensures
        out@ == without_zeros(text@),
        zero_free(out@),
{
    let mut out: Vec<u8> = Vec::new();
    let mut i: usize = 0;
    assert(text@.take(0) =~= Seq::empty());
    while i < text.len()
        invariant
            i <= text@.len(),
            out@ == without_zeros(text@.take(i as int)),
            zero_free(out@),
        decreases text@.len() - i,
    {
        let b = text[i];
        proof {
            let next = text@.take(i + 1);
            assert(next.drop_last() =~= text@.take(i as int));
            assert(next.last() == b);
            reveal(Seq::filter);
        }
        if b != 0 {
            out.push(b);
        }
        i = i + 1;
    }
    assert(text@.take(i as int) =~= text@);
    out
}

impl PlayerInfoView {
    /// The name holds no zero byte and the additional data fits its length byte.
    pub open spec fn valid(self) -> bool {
        &&& zero_free(self.name)
        &&& self.additional_data.len() <= 0xff
    }

    /// Id, name, a zero, the length of the additional data, the additional data.
    pub open spec fn wire(self) -> Seq<u8> {
        seq![self.id] + self.name + seq![0u8] + seq![(self.additional_data.len() % 0x100) as u8]
            + self.additional_data
    }

    /// How a byte sequence reads as a player.
    #[verifier::opaque]
    pub open spec fn parse(s: Seq<u8>) -> Parsed<PlayerInfoView> {
        let name_len = nul_pos(s.skip(1));
        let after_name = s.skip(2 + name_len);
        if s.len() < 1 || name_len >= s.len() - 1 || after_name.len() < 1 || after_name.len() - 1
            < after_name[0] {
            Parsed::Fail(DecodeError::Incomplete(Context::Field))
        } else {
            Parsed::Done(
                PlayerInfoView {
                    id: s[0],
                    name: s.subrange(1, 1 + name_len),
                    additional_data: after_name.subrange(1, 1 + after_name[0]),
                },
                3 + name_len + after_name[0],
            )
        }
    }

    /// Decoding what was encoded gives the player back and stops right behind
    /// it, whatever follows.
    pub proof fn lemma_roundtrip(self, tail: Seq<u8>)
        requires
            self.valid(),
        ensures
            Self::parse(self.wire() + tail) == Parsed::Done(self, self.wire().len() as int),
    {
        reveal(PlayerInfoView::parse);
        let s = self.wire() + tail;
        let data_len = self.additional_data.len() as int;
        let rest = seq![data_len as u8] + self.additional_data + tail;
        assert(s.skip(1) =~= self.name + seq![0u8] + rest);
        lemma_nul_pos_terminated(self.name, rest);
        let after_name = s.skip(2 + self.name.len() as int);
        assert(after_name =~= rest);
        assert(s.subrange(1, 1 + self.name.len() as int) =~= self.name);
        assert(after_name.subrange(1, 1 + data_len) =~= self.additional_data);
    }

    /// A proper prefix of an encoded player asks for more bytes.
    pub proof fn lemma_prefix(self, p: Seq<u8>)
        requires
            self.valid(),
            p.len() < self.wire().len(),
            p == self.wire().take(p.len() as int),
        ensures
            Self::parse(p).wants_more(),
    {
        reveal(PlayerInfoView::parse);
        let w = self.wire();
        let data_len = self.additional_data.len() as int;
        if p.len() >= 1 {
            if p.len() < 2 + self.name.len() {
                assert(zero_free(p.skip(1))) by {
                    assert forall|i: int| 0 <= i < p.skip(1).len() implies p.skip(1)[i] != 0 by {
                        assert(p.skip(1)[i] == w[i + 1]);
                        assert(w[i + 1] == self.name[i]);
                    }
                }
                lemma_nul_pos_unterminated(p.skip(1));
            } else {
                let rest = p.skip(2 + self.name.len() as int);
                assert(p.skip(1) =~= self.name + seq![0u8] + rest);
                lemma_nul_pos_terminated(self.name, rest);
                if rest.len() >= 1 {
                    assert(rest[0] == w[2 + self.name.len() as int]);
                }
            }
        }
    }

    /// No input is malformed as a player.
    pub proof fn lemma_never_malformed(s: Seq<u8>)
        ensures
            !Self::parse(s).rejects(),
    {
        reveal(PlayerInfoView::parse);
    }

    /// A player that was read is valid.
    pub proof fn lemma_parsed_valid(s: Seq<u8>)
        requires
            Self::parse(s) is Done,
        ensures
            Self::parse(s)->Done_0.valid(),
    {
        reveal(PlayerInfoView::parse);
        let name_len = nul_pos(s.skip(1));
        lemma_nul_pos(s.skip(1));
        assert(s.subrange(1, 1 + name_len) =~= s.skip(1).take(name_len));
    }

    /// A player that was read took at least three of the bytes at hand.
    pub proof fn lemma_size(s: Seq<u8>)
        requires
            Self::parse(s) is Done,
        ensures
            3 <= Self::parse(s)->Done_1 <= s.len(),
    {
        reveal(PlayerInfoView::parse);
        lemma_nul_pos(s.skip(1));
    }

    /// A player that was read reads the same from any input that agrees on the
    /// bytes it took.
    pub proof fn lemma_local(s: Seq<u8>, z: Seq<u8>)
        requires
            Self::parse(s) is Done,
            z.len() >= Self::parse(s)->Done_1,
            z.take(Self::parse(s)->Done_1) == s.take(Self::parse(s)->Done_1),
        ensures
            Self::parse(z) == Self::parse(s),
    {
        reveal(PlayerInfoView::parse);
        Self::lemma_size(s);
        let n = Self::parse(s)->Done_1;
        let name_len = nul_pos(s.skip(1));
        lemma_nul_pos(s.skip(1));
        lemma_same_prefix(z, s, n);
        assert(z.skip(1).take(name_len + 1) == s.skip(1).take(name_len + 1));
        lemma_nul_pos_local(s.skip(1), z.skip(1));
        let after_s = s.skip(2 + name_len);
        let after_z = z.skip(2 + name_len);
        assert(after_z[0] == after_s[0]);
        assert(z.subrange(1, 1 + name_len) =~= s.subrange(1, 1 + name_len));
        assert(after_z.subrange(1, 1 + after_s[0]) =~= after_s.subrange(1, 1 + after_s[0]));
    }
}

impl PlayerInfo {
    /// A player with the two zero bytes of additional data that the game
    /// writes for a plain player. Zero bytes in `name` are left out.
    pub fn new(id: u8, name: &str) -> (p: PlayerInfo)
        ensures
            p@ == (PlayerInfoView {
                id,
                name: without_zeros(name.spec_bytes()),
                additional_data: seq![0u8, 0u8],
            }),
            p@.valid(),
    {
        let mut additional_data: Vec<u8> = Vec::new();
        additional_data.push(0);
        additional_data.push(0);
        assert(additional_data@ =~= seq![0u8, 0u8]);
        PlayerInfo { id, name: strip_zeros(name.as_bytes()), additional_data }
    }

    /// Reads a player.
    pub fn decode(cur: &mut Cursor) -> (r: Result<PlayerInfo, DecodeError>)
        ensures
            decodes_as(
                old(cur).remaining(),
                final(cur).remaining(),
                r,
                PlayerInfoView::parse(old(cur).remaining()),
            ),
    {
        proof {
            reveal(PlayerInfoView::parse);
        }
        let ghost s = cur.remaining();
        if !cur.has(1) {
            return Err(DecodeError::Incomplete(Context::Field));
        }
        let id = cur.get_u8();
        let name = match cur.get_cstring() {
            Some(name) => name,
            None => {
                return Err(DecodeError::Incomplete(Context::Field));
            },
        };
        proof {
            lemma_nul_pos(s.skip(1));
            assert(s.skip(1).skip(nul_pos(s.skip(1)) + 1) =~= s.skip(2 + nul_pos(s.skip(1))));
            assert(s.skip(1).take(nul_pos(s.skip(1))) =~= s.subrange(1, 1 + nul_pos(s.skip(1))));
        }
        let ghost after_name = cur.remaining();
        if !cur.has(1) {
            return Err(DecodeError::Incomplete(Context::Field));
        }
        let data_len = cur.get_u8();
        if !cur.has(data_len as usize) {
            return Err(DecodeError::Incomplete(Context::Field));
        }
        let additional_data = cur.take(data_len as usize);
        proof {
            assert(after_name.skip(1).take(data_len as int) =~= after_name.subrange(
                1,
                1 + data_len,
            ));
            assert(after_name.skip(1).skip(data_len as int) =~= s.skip(
                3 + nul_pos(s.skip(1)) + data_len,
            ));
        }
        Ok(PlayerInfo { id, name, additional_data })
    }

    /// Writes the player. A length that does not fit its byte is cut to its low
    /// eight bits.
    pub fn encode(&self, sink: &mut Vec<u8>)
        ensures
            final(sink)@ == old(sink)@ + self@.wire(),
    {
        put_u8(sink, self.id);
        put_slice(sink, self.name.as_slice());
        put_u8(sink, 0);
        put_u8(sink, (self.additional_data.len() % 0x100) as u8);
        put_slice(sink, self.additional_data.as_slice());
        assert(sink@ =~= old(sink)@ + self@.wire());
    }
}

/// A player that joined after the host, with a field whose meaning is not known.
#[derive(Clone, Debug, PartialEq, Eq)]
pub struct PlayerInfoRecord {
    pub player_info: PlayerInfo,
    pub unknown: u32,
}

pub struct PlayerInfoRecordView {
    pub player_info: PlayerInfoView,
    pub unknown: u32,
}

impl View for PlayerInfoRecord {
    type V = PlayerInfoRecordView;

    open spec fn view(&self) -> PlayerInfoRecordView {
        PlayerInfoRecordView { player_info: self.player_info@, unknown: self.unknown }
    }
}

impl PlayerInfoRecordView {
    /// The player is valid.
    pub open spec fn valid(self) -> bool {
        self.player_info.valid()
    }

    /// The player, then the unknown field.
    pub open spec fn wire(self) -> Seq<u8> {
        self.player_info.wire() + le32_bytes(self.unknown)
    }

    /// How a byte sequence reads as a player record.
    #[verifier::opaque]
    pub open spec fn parse(s: Seq<u8>) -> Parsed<PlayerInfoRecordView> {
        match PlayerInfoView::parse(s) {
            Parsed::Fail(e) => Parsed::Fail(e),
            Parsed::Done(player_info, n) => if s.len() - n < 4 {
                Parsed::Fail(DecodeError::Incomplete(Context::Field))
            } else {
                Parsed::Done(
                    PlayerInfoRecordView { player_info, unknown: le32(s.skip(n)) },
                    n + 4,
                )
            },
        }
    }

    /// Decoding what was encoded gives the record back and stops right behind
    /// it, whatever follows.
    pub proof fn lemma_roundtrip(self, tail: Seq<u8>)
        requires
            self.valid(),
        ensures
            Self::parse(self.wire() + tail) == Parsed::Done(self, self.wire().len() as int),
    {
        reveal(PlayerInfoRecordView::parse);
        let s = self.wire() + tail;
        let n = self.player_info.wire().len() as int;
        assert(s =~= self.player_info.wire() + (le32_bytes(self.unknown) + tail));
        self.player_info.lemma_roundtrip(le32_bytes(self.unknown) + tail);
        assert(s.skip(n) =~= le32_bytes(self.unknown) + tail);
        lemma_le32_roundtrip(self.unknown, tail);
    }

    /// A proper prefix of an encoded record asks for more bytes.
    pub proof fn lemma_prefix(self, p: Seq<u8>)
        requires
            self.valid(),
            p.len() < self.wire().len(),
            p == self.wire().take(p.len() as int),
        ensures
            Self::parse(p).wants_more(),
    {
        reveal(PlayerInfoRecordView::parse);
        let n = self.player_info.wire().len() as int;
        if p.len() < n {
            assert(p =~= self.player_info.wire().take(p.len() as int));
            self.player_info.lemma_prefix(p);
        } else {
            assert(p =~= self.player_info.wire() + p.skip(n));
            self.player_info.lemma_roundtrip(p.skip(n));
        }
    }

    /// No input is malformed as a player record.
    pub proof fn lemma_never_malformed(s: Seq<u8>)
        ensures
            !Self::parse(s).rejects(),
    {
        reveal(PlayerInfoRecordView::parse);
        PlayerInfoView::lemma_never_malformed(s);
    }

    /// A record that was read is valid.
    pub proof fn lemma_parsed_valid(s: Seq<u8>)
        requires
            Self::parse(s) is Done,
        ensures
            Self::parse(s)->Done_0.valid(),
    {
        reveal(PlayerInfoRecordView::parse);
        PlayerInfoView::lemma_parsed_valid(s);
    }

    /// A record that was read took at least seven of the bytes at hand.
    pub proof fn lemma_size(s: Seq<u8>)
        requires
            Self::parse(s) is Done,
        ensures
            7 <= Self::parse(s)->Done_1 <= s.len(),
    {
        reveal(PlayerInfoRecordView::parse);
        PlayerInfoView::lemma_size(s);
    }

    /// A record that was read reads the same from any input that agrees on the
    /// bytes it took.
    pub proof fn lemma_local(s: Seq<u8>, z: Seq<u8>)
        requires
            Self::parse(s) is Done,
            z.len() >= Self::parse(s)->Done_1,
            z.take(Self::parse(s)->Done_1) == s.take(Self::parse(s)->Done_1),
        ensures
            Self::parse(z) == Self::parse(s),
    {
        reveal(PlayerInfoRecordView::parse);
        let total = Self::parse(s)->Done_1;
        let n = PlayerInfoView::parse(s)->Done_1;
        Self::lemma_size(s);
        PlayerInfoView::lemma_size(s);
        lemma_same_prefix(z, s, total);
        PlayerInfoView::lemma_local(s, z);
        assert(z.skip(n).take(4) == s.skip(n).take(4));
        lemma_same_prefix(z.skip(n), s.skip(n), 4);
    }
}

impl PlayerInfoRecord {
    /// Reads a player record.
    pub fn decode(cur: &mut Cursor) -> (r: Result<PlayerInfoRecord, DecodeError>)
        ensures
            decodes_as(
                old(cur).remaining(),
                final(cur).remaining(),
                r,
                PlayerInfoRecordView::parse(old(cur).remaining()),
            ),
    {
        proof {
            reveal(PlayerInfoRecordView::parse);
        }
        let ghost s = cur.remaining();
        let player_info = match PlayerInfo::decode(cur) {
            Ok(player_info) => player_info,
            Err(e) => {
                return Err(e);
            },
        };
        let ghost n = PlayerInfoView::parse(s)->Done_1;
        if !cur.has(4) {
            return Err(DecodeError::Incomplete(Context::Field));
        }
        let unknown = cur.get_u32_le();
        assert(s.skip(n).skip(4) =~= s.skip(n + 4));
        Ok(PlayerInfoRecord { player_info, unknown })
    }

    /// Writes the player record.
    pub fn encode(&self, sink: &mut Vec<u8>)
        ensures
            final(sink)@ == old(sink)@ + self@.wire(),
    {
        self.player_info.encode(sink);
        put_u32_le(sink, self.unknown);
        assert(sink@ =~= old(sink)@ + self@.wire());
    }
}

/// Why a player is no longer in the game.
#[derive(Clone, Copy, Debug, PartialEq, Eq)]
pub enum LeaveReason {
    LeaveDisconnect,
    LeaveLost,
    LeaveLostBuildings,
    LeaveWon,
    LeaveDraw,
    LeaveObserver,
    LeaveLobby,
    UnknownValue(u32),
}

impl LeaveReason {
    /// The number that stands for the reason on the wire.
    pub open spec fn code(self) -> u32 {
        match self {
            LeaveReason::LeaveDisconnect => 0x01,
            LeaveReason::LeaveLost => 0x07,
            LeaveReason::LeaveLostBuildings => 0x08,
            LeaveReason::LeaveWon => 0x09,
            LeaveReason::LeaveDraw => 0x0a,
            LeaveReason::LeaveObserver => 0x0b,
            LeaveReason::LeaveLobby => 0x0d,
            LeaveReason::UnknownValue(code) => code,
        }
    }

    /// The reason that a number stands for.
    pub open spec fn of_code(code: u32) -> LeaveReason {
        if code == 0x01 {
            LeaveReason::LeaveDisconnect
        } else if code == 0x07 {
            LeaveReason::LeaveLost
        } else if code == 0x08 {
            LeaveReason::LeaveLostBuildings
        } else if code == 0x09 {
            LeaveReason::LeaveWon
        } else if code == 0x0a {
            LeaveReason::LeaveDraw
        } else if code == 0x0b {
            LeaveReason::LeaveObserver
        } else if code == 0x0d {
            LeaveReason::LeaveLobby
        } else {
            LeaveReason::UnknownValue(code)
        }
    }

    /// An unknown value is none of the numbers that have a name.
    pub open spec fn valid(self) -> bool {
        Self::of_code(self.code()) == self
    }

    /// The number that stands for the reason on the wire.
    pub fn to_code(self) -> (code: u32)
        ensures
            code == self.code(),
    {
        match self {
            LeaveReason::LeaveDisconnect => 0x01,
            LeaveReason::LeaveLost => 0x07,
            LeaveReason::LeaveLostBuildings => 0x08,
            LeaveReason::LeaveWon => 0x09,
            LeaveReason::LeaveDraw => 0x0a,
            LeaveReason::LeaveObserver => 0x0b,
            LeaveReason::LeaveLobby => 0x0d,
            LeaveReason::UnknownValue(code) => code,
        }
    }

    /// The reason that a number stands for; it is valid and has that number.
    pub fn from_code(code: u32) -> (reason: LeaveReason)
        ensures
            reason == Self::of_code(code),
            reason.valid(),
            reason.code() == code,
    {
        if code == 0x01 {
            LeaveReason::LeaveDisconnect
        } else if code == 0x07 {
            LeaveReason::LeaveLost
        } else if code == 0x08 {
            LeaveReason::LeaveLostBuildings
        } else if code == 0x09 {
            LeaveReason::LeaveWon
        } else if code == 0x0a {
            LeaveReason::LeaveDraw
        } else if code == 0x0b {
            LeaveReason::LeaveObserver
        } else if code == 0x0d {
            LeaveReason::LeaveLobby
        } else {
            LeaveReason::UnknownValue(code)
        }
    }
}

/// A player left the game.
#[derive(Clone, Copy, Debug, PartialEq, Eq)]
pub struct PlayerLeft {
    pub reason: LeaveReason,
    pub player_id: u8,
    pub result: u32,
    pub unknown: u32,
}

impl View for PlayerLeft {
    type V = PlayerLeft;

    open spec fn view(&self) -> PlayerLeft {
        *self
    }
}

impl PlayerLeft {
    /// The reason is valid.
    pub open spec fn valid(self) -> bool {
        self.reason.valid()
    }

    /// Reason, player id, result, unknown field: thirteen bytes.
    pub open spec fn wire(self) -> Seq<u8> {
        le32_bytes(self.reason.code()) + seq![self.player_id] + le32_bytes(self.result)
            + le32_bytes(self.unknown)
    }

    /// How a byte sequence reads as a leave record.
    #[verifier::opaque]
    pub open spec fn parse(s: Seq<u8>) -> Parsed<PlayerLeft> {
        if s.len() < 13 {
            Parsed::Fail(DecodeError::Incomplete(Context::Field))
        } else {
            Parsed::Done(
                PlayerLeft {
                    reason: LeaveReason::of_code(le32(s)),
                    player_id: s[4],
                    result: le32(s.skip(5)),
                    unknown: le32(s.skip(9)),
                },
                13,
            )
        }
    }

    /// Decoding what was encoded gives the record back and stops right behind
    /// it, whatever follows.
    pub proof fn lemma_roundtrip(self, tail: Seq<u8>)
        requires
            self.valid(),
        ensures
            Self::parse(self.wire() + tail) == Parsed::Done(self, self.wire().len() as int),
    {
        reveal(PlayerLeft::parse);
        let s = self.wire() + tail;
        assert(s =~= le32_bytes(self.reason.code()) + s.skip(4));
        lemma_le32_roundtrip(self.reason.code(), s.skip(4));
        assert(s.skip(5) =~= le32_bytes(self.result) + s.skip(9));
        lemma_le32_roundtrip(self.result, s.skip(9));
        assert(s.skip(9) =~= le32_bytes(self.unknown) + tail);
        lemma_le32_roundtrip(self.unknown, tail);
    }

    /// A proper prefix of an encoded record asks for more bytes.
    pub proof fn lemma_prefix(self, p: Seq<u8>)
        requires
            self.valid(),
            p.len() < self.wire().len(),
            p == self.wire().take(p.len() as int),
        ensures
            Self::parse(p).wants_more(),
    {
        reveal(PlayerLeft::parse);
    }

    /// A record that was read reads the same from any input that agrees on the
    /// bytes it took.
    pub proof fn lemma_local(s: Seq<u8>, z: Seq<u8>)
        requires
            Self::parse(s) is Done,
            z.len() >= Self::parse(s)->Done_1,
            z.take(Self::parse(s)->Done_1) == s.take(Self::parse(s)->Done_1),
        ensures
            Self::parse(z) == Self::parse(s),
    {
        reveal(PlayerLeft::parse);
        lemma_same_prefix(z, s, 13);
    }

    /// No input is malformed as a leave record.
    pub proof fn lemma_never_malformed(s: Seq<u8>)
        ensures
            !Self::parse(s).rejects(),
    {
        reveal(PlayerLeft::parse);
    }

    /// A record that was read is valid.
    pub proof fn lemma_parsed_valid(s: Seq<u8>)
        requires
            Self::parse(s) is Done,
        ensures
            Self::parse(s)->Done_0.valid(),
    {
        reveal(PlayerLeft::parse);
    }

    /// Reads a leave record.
    pub fn decode(cur: &mut Cursor) -> (r: Result<PlayerLeft, DecodeError>)
        ensures
            decodes_as(
                old(cur).remaining(),
                final(cur).remaining(),
                r,
                PlayerLeft::parse(old(cur).remaining()),
            ),
    {
        proof {
            reveal(PlayerLeft::parse);
        }
        let ghost s = cur.remaining();
        if !cur.has(13) {
            return Err(DecodeError::Incomplete(Context::Field));
        }
        let reason = LeaveReason::from_code(cur.get_u32_le());
        let player_id = cur.get_u8();
        let result = cur.get_u32_le();
        let unknown = cur.get_u32_le();
        proof {
            assert(s.skip(4).skip(1) =~= s.skip(5));
            assert(s.skip(5).skip(4) =~= s.skip(9));
            assert(s.skip(9).skip(4) =~= s.skip(13));
        }
        Ok(PlayerLeft { reason, player_id, result, unknown })
    }

    /// Writes the leave record.
    pub fn encode(&self, sink: &mut Vec<u8>)
        ensures
            final(sink)@ == old(sink)@ + self@.wire(),
    {
        put_u32_le(sink, self.reason.to_code());
        put_u8(sink, self.player_id);
        put_u32_le(sink, self.result);
        put_u32_le(sink, self.unknown);
        assert(sink@ =~= old(sink)@ + self@.wire());
    }
}

} // verus!
