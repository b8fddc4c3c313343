//! Records about the game itself: its description and the start of play.

use vstd::prelude::*;
use vstd::string::StringSliceAdditionalSpecFns;
use crate::cursor::Cursor;
use crate::error::{decodes_as, Context, DecodeError, Parsed, Reason};
use crate::player::{strip_zeros, without_zeros, PlayerInfo, PlayerInfoView};
use crate::wire::{
    le16, le16_bytes, le32, le32_bytes, lemma_le16_roundtrip, lemma_le32_roundtrip, lemma_nul_pos,
    lemma_nul_pos_extend, lemma_nul_pos_local, lemma_nul_pos_terminated,
    lemma_nul_pos_unterminated, lemma_same_prefix, lemma_skip_extend,
    nul_pos, put_slice, put_u16_le, put_u32_le, put_u8, zero_free,
};

verus! {

/// The flag of a game that admits observers without restriction.
pub const OBS_FULL: u32 = 0x0010_0000;

/// The settings block of a game: twelve bytes.
#[derive(Clone, Copy, Debug, PartialEq, Eq)]
pub struct GameSettings {
    pub flags: u32,
    pub map_width: u16,
    pub map_height: u16,
    pub map_checksum: u32,
}

impl View for GameSettings {
    type V = GameSettings;

    open spec fn view(&self) -> GameSettings {
        *self
    }
}

impl GameSettings {
    /// Flags, map width, map height, map checksum.
    pub open spec fn wire(self) -> Seq<u8> {
        le32_bytes(self.flags) + le16_bytes(self.map_width) + le16_bytes(self.map_height)
            + le32_bytes(self.map_checksum)
    }

    /// How a byte sequence reads as a settings block.
    #[verifier::opaque]
    pub open spec fn parse(s: Seq<u8>) -> Parsed<GameSettings> {
        if s.len() < 12 {
            Parsed::Fail(DecodeError::Incomplete(Context::Field))
        } else {
            Parsed::Done(
                GameSettings {
                    flags: le32(s),
                    map_width: le16(s.skip(4)),
                    map_height: le16(s.skip(6)),
                    map_checksum: le32(s.skip(8)),
                },
                12,
            )
        }
    }

    /// Decoding what was encoded gives the settings back and stops right
    /// behind them, whatever follows.
    pub proof fn lemma_roundtrip(self, tail: Seq<u8>)
        ensures
            Self::parse(self.wire() + tail) == Parsed::Done(self, 12),
            self.wire().len() == 12,
    {
        reveal(GameSettings::parse);
        let s = self.wire() + tail;
        assert(s =~= le32_bytes(self.flags) + s.skip(4));
        lemma_le32_roundtrip(self.flags, s.skip(4));
        assert(s.skip(4) =~= le16_bytes(self.map_width) + s.skip(6));
        lemma_le16_roundtrip(self.map_width, s.skip(6));
        assert(s.skip(6) =~= le16_bytes(self.map_height) + s.skip(8));
        lemma_le16_roundtrip(self.map_height, s.skip(8));
        assert(s.skip(8) =~= le32_bytes(self.map_checksum) + tail);
        lemma_le32_roundtrip(self.map_checksum, tail);
    }

    /// Settings that were read read the same from any input that agrees on
    /// their twelve bytes.
    pub proof fn lemma_local(s: Seq<u8>, z: Seq<u8>)
        requires
            Self::parse(s) is Done,
            z.len() >= 12,
            z.take(12) == s.take(12),
        ensures
            Self::parse(z) == Self::parse(s),
    {
        reveal(GameSettings::parse);
        lemma_same_prefix(z, s, 12);
    }

    /// Reads a settings block.
    pub fn decode(cur: &mut Cursor) -> (r: Result<GameSettings, DecodeError>)
        ensures
            decodes_as(
                old(cur).remaining(),
                final(cur).remaining(),
                r,
                GameSettings::parse(old(cur).remaining()),
            ),
    {
        proof {
            reveal(GameSettings::parse);
        }
        let ghost s = cur.remaining();
        if !cur.has(12) {
            return Err(DecodeError::Incomplete(Context::Field));
        }
        let flags = cur.get_u32_le();
        let map_width = cur.get_u16_le();
        let map_height = cur.get_u16_le();
        let map_checksum = cur.get_u32_le();
        proof {
            assert(s.skip(4).skip(2) =~= s.skip(6));
            assert(s.skip(6).skip(2) =~= s.skip(8));
            assert(s.skip(8).skip(4) =~= s.skip(12));
        }
        Ok(GameSettings { flags, map_width, map_height, map_checksum })
    }

    /// Writes the settings block.
    pub fn encode(&self, sink: &mut Vec<u8>)
        ensures
            final(sink)@ == old(sink)@ + self@.wire(),
    {
        put_u32_le(sink, self.flags);
        put_u16_le(sink, self.map_width);
        put_u16_le(sink, self.map_height);
        put_u32_le(sink, self.map_checksum);
        assert(sink@ =~= old(sink)@ + self@.wire());
    }
}

/// The description of the game that opens a replay.
#[derive(Clone, Debug, PartialEq, Eq)]
pub struct GameInfo {
    pub num_of_host_records: u32,
    pub host_player_info: PlayerInfo,
    pub game_name: Vec<u8>,
    pub game_settings: GameSettings,
    pub player_count: u32,
    pub game_flags: u32,
    pub language_id: u32,
}

pub struct GameInfoView {
    pub num_of_host_records: u32,
    pub host_player_info: PlayerInfoView,
    pub game_name: Seq<u8>,
    pub game_settings: GameSettings,
    pub player_count: u32,
    pub game_flags: u32,
    pub language_id: u32,
}

impl View for GameInfo {
    type V = GameInfoView;

    open spec fn view(&self) -> GameInfoView {
        GameInfoView {
            num_of_host_records: self.num_of_host_records,
            host_player_info: self.host_player_info@,
            game_name: self.game_name@,
            game_settings: self.game_settings,
            player_count: self.player_count,
            game_flags: self.game_flags,
            language_id: self.language_id,
        }
    }
}

/// How the part of a game description behind the host reads: the game name, a
/// byte that must be zero, the settings, and three 32-bit fields.
pub open spec fn parse_game_tail(
    num_of_host_records: u32,
    host_player_info: PlayerInfoView,
    t: Seq<u8>,
) -> Parsed<GameInfoView> {
    let name_len = nul_pos(t);
    let u = t.skip(name_len + 1);
    if name_len >= t.len() || u.len() < 1 {
        Parsed::Fail(DecodeError::Incomplete(Context::Field))
    } else if u[0] != 0 {
        Parsed::Fail(
            DecodeError::Malformed(Reason::UnexpectedValue { expected: 0, found: u[0] as u32 }),
        )
    } else if u.len() < 25 {
        Parsed::Fail(DecodeError::Incomplete(Context::Field))
    } else {
        Parsed::Done(
            GameInfoView {
                num_of_host_records,
                host_player_info,
                game_name: t.take(name_len),
                game_settings: GameSettings::parse(u.skip(1))->Done_0,
                player_count: le32(u.skip(13)),
                game_flags: le32(u.skip(17)),
                language_id: le32(u.skip(21)),
            },
            name_len + 26,
        )
    }
}

impl GameInfoView {
    /// The host is valid and the game name holds no zero byte.
    pub open spec fn valid(self) -> bool {
        &&& self.host_player_info.valid()
        &&& zero_free(self.game_name)
    }

    /// What follows the host on the wire.
    pub open spec fn tail_wire(self) -> Seq<u8> {
        self.game_name + seq![0u8] + seq![0u8] + self.game_settings.wire() + le32_bytes(
            self.player_count,
        ) + le32_bytes(self.game_flags) + le32_bytes(self.language_id)
    }

    /// Number of host records, host, game name, a zero, a zero byte, settings,
    /// player count, game flags, language id.
    pub open spec fn wire(self) -> Seq<u8> {
        le32_bytes(self.num_of_host_records) + self.host_player_info.wire() + self.tail_wire()
    }

    /// How a byte sequence reads as a game description.
    #[verifier::opaque]
    pub open spec fn parse(s: Seq<u8>) -> Parsed<GameInfoView> {
        if s.len() < 4 {
            Parsed::Fail(DecodeError::Incomplete(Context::Field))
        } else {
            match PlayerInfoView::parse(s.skip(4)) {
                Parsed::Fail(e) => Parsed::Fail(e),
                Parsed::Done(host, n) => match parse_game_tail(le32(s), host, s.skip(4 + n)) {
                    Parsed::Fail(e) => Parsed::Fail(e),
                    Parsed::Done(info, m) => Parsed::Done(info, 4 + n + m),
                },
            }
        }
    }

    proof fn lemma_tail_roundtrip(self, tail: Seq<u8>)
        requires
            self.valid(),
        ensures
            parse_game_tail(
                self.num_of_host_records,
                self.host_player_info,
                self.tail_wire() + tail,
            ) == Parsed::Done(self, self.tail_wire().len() as int),
            self.tail_wire().len() == self.game_name.len() + 26,
    {
        let t = self.tail_wire() + tail;
        let k = self.game_name.len() as int;
        let u = t.skip(k + 1);
        self.game_settings.lemma_roundtrip(u.skip(13));
        assert(t =~= self.game_name + seq![0u8] + u);
        lemma_nul_pos_terminated(self.game_name, u);
        assert(t.take(k) =~= self.game_name);
        assert(u[0] == 0);
        assert(u.skip(1) =~= self.game_settings.wire() + u.skip(13));
        assert(u.skip(13) =~= le32_bytes(self.player_count) + u.skip(17));
        lemma_le32_roundtrip(self.player_count, u.skip(17));
        assert(u.skip(17) =~= le32_bytes(self.game_flags) + u.skip(21));
        lemma_le32_roundtrip(self.game_flags, u.skip(21));
        assert(u.skip(21) =~= le32_bytes(self.language_id) + tail);
        lemma_le32_roundtrip(self.language_id, tail);
    }

    /// Decoding what was encoded gives the description back and stops right
    /// behind it, whatever follows.
    pub proof fn lemma_roundtrip(self, tail: Seq<u8>)
        requires
            self.valid(),
        ensures
            Self::parse(self.wire() + tail) == Parsed::Done(self, self.wire().len() as int),
    {
        reveal(GameInfoView::parse);
        let s = self.wire() + tail;
        let n = self.host_player_info.wire().len() as int;
        assert(s =~= le32_bytes(self.num_of_host_records) + s.skip(4));
        lemma_le32_roundtrip(self.num_of_host_records, s.skip(4));
        assert(s.skip(4) =~= self.host_player_info.wire() + (self.tail_wire() + tail));
        self.host_player_info.lemma_roundtrip(self.tail_wire() + tail);
        assert(s.skip(4 + n) =~= self.tail_wire() + tail);
        self.lemma_tail_roundtrip(tail);
    }

    proof fn lemma_tail_prefix(self, p: Seq<u8>)
        requires
            self.valid(),
            p.len() < self.tail_wire().len(),
            p == self.tail_wire().take(p.len() as int),
        ensures
            parse_game_tail(self.num_of_host_records, self.host_player_info, p).wants_more(),
    {
        let w = self.tail_wire();
        let k = self.game_name.len() as int;
        self.lemma_tail_roundtrip(Seq::empty());
        if p.len() <= k {
            assert(zero_free(p)) by {
                assert forall|i: int| 0 <= i < p.len() implies p[i] != 0 by {
                    assert(p[i] == w[i]);
                    assert(w[i] == self.game_name[i]);
                }
            }
            lemma_nul_pos_unterminated(p);
        } else {
            let u = p.skip(k + 1);
            assert(p =~= self.game_name + seq![0u8] + u);
            lemma_nul_pos_terminated(self.game_name, u);
            if u.len() >= 1 {
                assert(u[0] == w[k + 1]);
            }
        }
    }

    /// A proper prefix of an encoded description asks for more bytes.
    pub proof fn lemma_prefix(self, p: Seq<u8>)
        requires
            self.valid(),
            p.len() < self.wire().len(),
            p == self.wire().take(p.len() as int),
        ensures
            Self::parse(p).wants_more(),
    {
        reveal(GameInfoView::parse);
        let w = self.wire();
        let host = self.host_player_info.wire();
        let n = host.len() as int;
        if p.len() >= 4 {
            assert(w =~= le32_bytes(self.num_of_host_records) + (host + self.tail_wire()));
            let q = p.skip(4);
            if q.len() < n {
                assert(q =~= host.take(q.len() as int));
                self.host_player_info.lemma_prefix(q);
            } else {
                let rest = q.skip(n);
                assert(q =~= host + rest);
                self.host_player_info.lemma_roundtrip(rest);
                assert(rest =~= self.tail_wire().take(rest.len() as int));
                assert(p.skip(4 + n) =~= rest);
                self.lemma_tail_prefix(rest);
            }
        }
    }

    proof fn lemma_tail_local(count: u32, host: PlayerInfoView, t: Seq<u8>, z: Seq<u8>)
        requires
            parse_game_tail(count, host, t) is Done,
            z.len() >= parse_game_tail(count, host, t)->Done_1,
            z.take(parse_game_tail(count, host, t)->Done_1) == t.take(
                parse_game_tail(count, host, t)->Done_1,
            ),
        ensures
            parse_game_tail(count, host, z) == parse_game_tail(count, host, t),
    {
        reveal(GameSettings::parse);
        let m = parse_game_tail(count, host, t)->Done_1;
        let k = nul_pos(t);
        lemma_nul_pos(t);
        lemma_same_prefix(z, t, m);
        lemma_nul_pos_local(t, z);
        let u = t.skip(k + 1);
        let v = z.skip(k + 1);
        assert(v.take(25) == u.take(25));
        lemma_same_prefix(v, u, 25);
        assert(v[0] == u[0]);
        GameSettings::lemma_local(u.skip(1), v.skip(1));
        assert(v.skip(13).take(4) == u.skip(13).take(4));
        assert(v.skip(17).take(4) == u.skip(17).take(4));
        assert(v.skip(21).take(4) == u.skip(21).take(4));
        lemma_same_prefix(v.skip(13), u.skip(13), 4);
        lemma_same_prefix(v.skip(17), u.skip(17), 4);
        lemma_same_prefix(v.skip(21), u.skip(21), 4);
    }

    /// An input that is malformed stays so, whatever follows it.
    pub proof fn lemma_malformed_final(s: Seq<u8>, t: Seq<u8>)
        requires
            Self::parse(s).rejects(),
        ensures
            Self::parse(s + t) == Self::parse(s),
    {
        reveal(GameInfoView::parse);
        let z = s + t;
        PlayerInfoView::lemma_never_malformed(s.skip(4));
        let n = PlayerInfoView::parse(s.skip(4))->Done_1;
        PlayerInfoView::lemma_size(s.skip(4));
        lemma_skip_extend(s, t, 4);
        assert(z.skip(4).take(n) =~= s.skip(4).take(n));
        PlayerInfoView::lemma_local(s.skip(4), z.skip(4));
        let behind = s.skip(4 + n);
        lemma_skip_extend(s, t, 4 + n);
        lemma_nul_pos(behind);
        lemma_nul_pos_extend(behind, t);
        lemma_skip_extend(behind, t, nul_pos(behind) + 1);
    }

    /// A description that was read is valid.
    pub proof fn lemma_parsed_valid(s: Seq<u8>)
        requires
            Self::parse(s) is Done,
        ensures
            Self::parse(s)->Done_0.valid(),
    {
        reveal(GameInfoView::parse);
        let n = PlayerInfoView::parse(s.skip(4))->Done_1;
        PlayerInfoView::lemma_parsed_valid(s.skip(4));
        lemma_nul_pos(s.skip(4 + n));
    }

    /// A description that was read took at least thirty-three of the bytes at hand.
    pub proof fn lemma_size(s: Seq<u8>)
        requires
            Self::parse(s) is Done,
        ensures
            33 <= Self::parse(s)->Done_1 <= s.len(),
    {
        reveal(GameInfoView::parse);
        let n = PlayerInfoView::parse(s.skip(4))->Done_1;
        PlayerInfoView::lemma_size(s.skip(4));
        lemma_nul_pos(s.skip(4 + n));
    }

    /// A description that was read reads the same from any input that agrees
    /// on the bytes it took.
    pub proof fn lemma_local(s: Seq<u8>, z: Seq<u8>)
        requires
            Self::parse(s) is Done,
            z.len() >= Self::parse(s)->Done_1,
            z.take(Self::parse(s)->Done_1) == s.take(Self::parse(s)->Done_1),
        ensures
            Self::parse(z) == Self::parse(s),
    {
        reveal(GameInfoView::parse);
        let total = Self::parse(s)->Done_1;
        let n = PlayerInfoView::parse(s.skip(4))->Done_1;
        let host = PlayerInfoView::parse(s.skip(4))->Done_0;
        Self::lemma_size(s);
        PlayerInfoView::lemma_size(s.skip(4));
        lemma_nul_pos(s.skip(4 + n));
        lemma_same_prefix(z, s, total);
        assert(z.skip(4).take(n) == s.skip(4).take(n));
        PlayerInfoView::lemma_local(s.skip(4), z.skip(4));
        let m = total - 4 - n;
        assert(z.skip(4 + n).take(m) == s.skip(4 + n).take(m));
        Self::lemma_tail_local(le32(s), host, s.skip(4 + n), z.skip(4 + n));
    }
}

impl GameInfo {
    /// The description of a game with one host record, room for twenty-four
    /// players, observers admitted, and language zero. Zero bytes in `name` are
    /// left out.
    pub fn new(host_player_info: PlayerInfo, name: &str, game_settings: GameSettings) -> (g:
        GameInfo)
        ensures
            g@ == (GameInfoView {
                num_of_host_records: 1,
                host_player_info: host_player_info@,
                game_name: without_zeros(name.spec_bytes()),
                game_settings,
                player_count: 24,
                game_flags: OBS_FULL,
                language_id: 0,
            }),
            host_player_info@.valid() ==> g@.valid(),
    {
        GameInfo {
            num_of_host_records: 1,
            host_player_info,
            game_name: strip_zeros(name.as_bytes()),
            game_settings,
            player_count: 24,
            game_flags: OBS_FULL,
            language_id: 0,
        }
    }

    /// Reads a game description. The byte between the game name and the
    /// settings must be zero.
    pub fn decode(cur: &mut Cursor) -> (r: Result<GameInfo, DecodeError>)
        ensures
            decodes_as(
                old(cur).remaining(),
                final(cur).remaining(),
                r,
                GameInfoView::parse(old(cur).remaining()),
            ),
    {
        proof {
            reveal(GameInfoView::parse);
            reveal(GameSettings::parse);
        }
        let ghost s = cur.remaining();
        if !cur.has(4) {
            return Err(DecodeError::Incomplete(Context::Field));
        }
        let num_of_host_records = cur.get_u32_le();
        let host_player_info = match PlayerInfo::decode(cur) {
            Ok(host) => host,
            Err(e) => {
                return Err(e);
            },
        };
        let ghost n = PlayerInfoView::parse(s.skip(4))->Done_1;
        let ghost t = cur.remaining();
        assert(t == s.skip(4 + n)) by {
            assert(s.skip(4).skip(n) =~= s.skip(4 + n));
        }
        let game_name = match cur.get_cstring() {
            Some(name) => name,
            None => {
                return Err(DecodeError::Incomplete(Context::Field));
            },
        };
        let ghost k = nul_pos(t);
        let ghost u = cur.remaining();
        proof {
            lemma_nul_pos(t);
        }
        if !cur.has(1) {
            return Err(DecodeError::Incomplete(Context::Field));
        }
        let tag = cur.get_u8();
        if tag != 0 {
            return Err(
                DecodeError::Malformed(Reason::UnexpectedValue { expected: 0, found: tag as u32 }),
            );
        }
        if !cur.has(24) {
            return Err(DecodeError::Incomplete(Context::Field));
        }
        let game_settings = match GameSettings::decode(cur) {
            Ok(settings) => settings,
            Err(e) => {
                return Err(e);
            },
        };
        let player_count = cur.get_u32_le();
        let game_flags = cur.get_u32_le();
        let language_id = cur.get_u32_le();
        proof {
            assert(u.skip(1).skip(12) =~= u.skip(13));
            assert(u.skip(13).skip(4) =~= u.skip(17));
            assert(u.skip(17).skip(4) =~= u.skip(21));
            assert(u.skip(21).skip(4) =~= u.skip(25));
            assert(t.skip(k + 1).skip(25) =~= t.skip(k + 26));
            assert(s.skip(4 + n).skip(k + 26) =~= s.skip(4 + n + (k + 26)));
        }
        Ok(
            GameInfo {
                num_of_host_records,
                host_player_info,
                game_name,
                game_settings,
                player_count,
                game_flags,
                language_id,
            },
        )
    }

    /// Writes the game description.
    pub fn encode(&self, sink: &mut Vec<u8>)
        ensures
            final(sink)@ == old(sink)@ + self@.wire(),
    {
        put_u32_le(sink, self.num_of_host_records);
        self.host_player_info.encode(sink);
        put_slice(sink, self.game_name.as_slice());
        put_u8(sink, 0);
        put_u8(sink, 0);
        self.game_settings.encode(sink);
        put_u32_le(sink, self.player_count);
        put_u32_le(sink, self.game_flags);
        put_u32_le(sink, self.language_id);
        assert(sink@ =~= old(sink)@ + self@.wire());
    }
}

/// The game starts. The single field always holds one.
#[derive(Clone, Copy, Debug, PartialEq, Eq)]
pub struct GameStart {
    pub unknown: u32,
}

impl View for GameStart {
    type V = GameStart;

    open spec fn view(&self) -> GameStart {
        *self
    }
}

impl Default for GameStart {
    fn default() -> (g: GameStart)
        ensures
            g == (GameStart { unknown: 1 }),
    {
        GameStart { unknown: 1 }
    }
}

impl GameStart {
    /// The field holds one.
    pub open spec fn valid(self) -> bool {
        self.unknown == 1
    }

    /// The field, four bytes.
    pub open spec fn wire(self) -> Seq<u8> {
        le32_bytes(self.unknown)
    }

    /// How a byte sequence reads as a start record.
    #[verifier::opaque]
    pub open spec fn parse(s: Seq<u8>) -> Parsed<GameStart> {
        if s.len() < 4 {
            Parsed::Fail(DecodeError::Incomplete(Context::Field))
        } else if le32(s) != 1 {
            Parsed::Fail(
                DecodeError::Malformed(Reason::UnexpectedValue { expected: 1, found: le32(s) }),
            )
        } else {
            Parsed::Done(GameStart { unknown: 1 }, 4)
        }
    }

    /// Decoding what was encoded gives the record back and stops right behind
    /// it, whatever follows.
    pub proof fn lemma_roundtrip(self, tail: Seq<u8>)
        requires
            self.valid(),
        ensures
            Self::parse(self.wire() + tail) == Parsed::Done(self, self.wire().len() as int),
    {
        reveal(GameStart::parse);
        lemma_le32_roundtrip(self.unknown, tail);
    }

    /// A proper prefix of an encoded record asks for more bytes.
    pub proof fn lemma_prefix(self, p: Seq<u8>)
        requires
            self.valid(),
            p.len() < self.wire().len(),
            p == self.wire().take(p.len() as int),
        ensures
            Self::parse(p).wants_more(),
    {
        reveal(GameStart::parse);
    }

    /// A record that was read reads the same from any input that agrees on its
    /// four bytes.
    pub proof fn lemma_local(s: Seq<u8>, z: Seq<u8>)
        requires
            Self::parse(s) is Done,
            z.len() >= 4,
            z.take(4) == s.take(4),
        ensures
            Self::parse(z) == Self::parse(s),
    {
        reveal(GameStart::parse);
        lemma_same_prefix(z, s, 4);
    }

    /// An input that is malformed stays so, whatever follows it.
    pub proof fn lemma_malformed_final(s: Seq<u8>, t: Seq<u8>)
        requires
            Self::parse(s).rejects(),
        ensures
            Self::parse(s + t) == Self::parse(s),
    {
        reveal(GameStart::parse);
    }

    /// A record that was read is valid.
    pub proof fn lemma_parsed_valid(s: Seq<u8>)
        requires
            Self::parse(s) is Done,
        ensures
            Self::parse(s)->Done_0.valid(),
    {
        reveal(GameStart::parse);
    }

    /// Reads a start record. A field that does not hold one is malformed.
    pub fn decode(cur: &mut Cursor) -> (r: Result<GameStart, DecodeError>)
        ensures
            decodes_as(
                old(cur).remaining(),
                final(cur).remaining(),
                r,
                GameStart::parse(old(cur).remaining()),
            ),
    {
        proof {
            reveal(GameStart::parse);
        }
        if !cur.has(4) {
            return Err(DecodeError::Incomplete(Context::Field));
        }
        let unknown = cur.get_u32_le();
        if unknown != 1 {
            return Err(
                DecodeError::Malformed(Reason::UnexpectedValue { expected: 1, found: unknown }),
            );
        }
        Ok(GameStart { unknown })
    }

    /// Writes the start record.
    pub fn encode(&self, sink: &mut Vec<u8>)
        ensures
            final(sink)@ == old(sink)@ + self@.wire(),
    {
        put_u32_le(sink, self.unknown);
    }
}

/// The countdown to the start of the game begins.
#[derive(Clone, Copy, Debug, PartialEq, Eq)]
pub struct CountDownStart(pub GameStart);

/// The countdown to the start of the game is over.
#[derive(Clone, Copy, Debug, PartialEq, Eq)]
pub struct CountDownEnd(pub GameStart);

impl View for CountDownStart {
    type V = CountDownStart;

    open spec fn view(&self) -> CountDownStart {
        *self
    }
}

impl View for CountDownEnd {
    type V = CountDownEnd;

    open spec fn view(&self) -> CountDownEnd {
        *self
    }
}

impl Default for CountDownStart {
    fn default() -> (c: CountDownStart)
        ensures
            c == CountDownStart(GameStart { unknown: 1 }),
    {
        CountDownStart(GameStart { unknown: 1 })
    }
}

impl Default for CountDownEnd {
    fn default() -> (c: CountDownEnd)
        ensures
            c == CountDownEnd(GameStart { unknown: 1 }),
    {
        CountDownEnd(GameStart { unknown: 1 })
    }
}

impl CountDownStart {
    /// How a byte sequence reads as the begin of the countdown: as a start record.
    pub open spec fn parse(s: Seq<u8>) -> Parsed<CountDownStart> {
        match GameStart::parse(s) {
            Parsed::Done(start, n) => Parsed::Done(CountDownStart(start), n),
            Parsed::Fail(e) => Parsed::Fail(e),
        }
    }

    /// Reads the begin of the countdown.
    pub fn decode(cur: &mut Cursor) -> (r: Result<CountDownStart, DecodeError>)
        ensures
            decodes_as(
                old(cur).remaining(),
                final(cur).remaining(),
                r,
                CountDownStart::parse(old(cur).remaining()),
            ),
    {
        match GameStart::decode(cur) {
            Ok(start) => Ok(CountDownStart(start)),
            Err(e) => Err(e),
        }
    }

    /// Writes the begin of the countdown.
    pub fn encode(&self, sink: &mut Vec<u8>)
        ensures
            final(sink)@ == old(sink)@ + self.0.wire(),
    {
        self.0.encode(sink);
    }
}

impl CountDownEnd {
    /// How a byte sequence reads as the end of the countdown: as a start record.
    pub open spec fn parse(s: Seq<u8>) -> Parsed<CountDownEnd> {
        match GameStart::parse(s) {
            Parsed::Done(start, n) => Parsed::Done(CountDownEnd(start), n),
            Parsed::Fail(e) => Parsed::Fail(e),
        }
    }

    /// Reads the end of the countdown.
    pub fn decode(cur: &mut Cursor) -> (r: Result<CountDownEnd, DecodeError>)
        ensures
            decodes_as(
                old(cur).remaining(),
                final(cur).remaining(),
                r,
                CountDownEnd::parse(old(cur).remaining()),
            ),
    {
        match GameStart::decode(cur) {
            Ok(start) => Ok(CountDownEnd(start)),
            Err(e) => Err(e),
        }
    }

    /// Writes the end of the countdown.
    pub fn encode(&self, sink: &mut Vec<u8>)
        ensures
            final(sink)@ == old(sink)@ + self.0.wire(),
    {
        self.0.encode(sink);
    }
}

} // verus!
