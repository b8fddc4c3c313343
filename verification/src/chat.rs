//! Chat messages.

use vstd::prelude::*;
use crate::cursor::Cursor;
use crate::error::{decodes_as, Context, DecodeError, Parsed, Reason};
use crate::wire::{
    le16, le16_bytes, le32, le32_bytes, lemma_le16_roundtrip, lemma_le32_roundtrip, lemma_nul_pos,
    lemma_nul_pos_local, lemma_nul_pos_terminated, lemma_nul_pos_unterminated, lemma_same_prefix,
    lemma_skip_extend,
    nul_pos, put_slice, put_u16_le, put_u32_le, put_u8, zero_free,
};

verus! {

/// The flag of a message written before the game starts.
pub const CHAT_FLAG_LOBBY: u8 = 0x10;

/// The flag of a message written in the game, which names whom it is for.
pub const CHAT_FLAG_SCOPED: u8 = 0x20;

/// A chat message. The scope of an in-game message is 0 for all players, 1 for
/// allies, 2 for observers, and 3 plus a player's number for that player.
#[derive(Clone, Debug, PartialEq, Eq)]
pub enum ChatMessage {
    Lobby { message: Vec<u8> },
    Scoped { scope: u32, message: Vec<u8> },
}

pub enum ChatMessageView {
    Lobby { message: Seq<u8> },
    Scoped { scope: u32, message: Seq<u8> },
}

impl View for ChatMessage {
    type V = ChatMessageView;

    open spec fn view(&self) -> ChatMessageView {
        match self {
            ChatMessage::Lobby { message } => ChatMessageView::Lobby { message: message@ },
            ChatMessage::Scoped { scope, message } => ChatMessageView::Scoped {
                scope: *scope,
                message: message@,
            },
        }
    }
}

impl ChatMessageView {
    /// The text of the message.
    pub open spec fn text(self) -> Seq<u8> {
        match self {
            ChatMessageView::Lobby { message } => message,
            ChatMessageView::Scoped { message, .. } => message,
        }
    }

    /// The text holds no zero byte.
    pub open spec fn valid(self) -> bool {
        zero_free(self.text())
    }

    /// The flag, the scope if the message has one, the text, a zero.
    pub open spec fn wire(self) -> Seq<u8> {
        match self {
            ChatMessageView::Lobby { message } => seq![CHAT_FLAG_LOBBY] + message + seq![0u8],
            ChatMessageView::Scoped { scope, message } => seq![CHAT_FLAG_SCOPED] + le32_bytes(
                scope,
            ) + message + seq![0u8],
        }
    }

    /// How a byte sequence reads as a chat message.
    #[verifier::opaque]
    pub open spec fn parse(s: Seq<u8>) -> Parsed<ChatMessageView> {
        if s.len() < 1 {
            Parsed::Fail(DecodeError::Incomplete(Context::Field))
        } else if s[0] == CHAT_FLAG_LOBBY {
            let len = nul_pos(s.skip(1));
            if len >= s.len() - 1 {
                Parsed::Fail(DecodeError::Incomplete(Context::Field))
            } else {
                Parsed::Done(ChatMessageView::Lobby { message: s.subrange(1, 1 + len) }, 2 + len)
            }
        } else if s[0] == CHAT_FLAG_SCOPED {
            let len = nul_pos(s.skip(5));
            if s.len() < 5 || len >= s.len() - 5 {
                Parsed::Fail(DecodeError::Incomplete(Context::Field))
            } else {
                Parsed::Done(
                    ChatMessageView::Scoped {
                        scope: le32(s.skip(1)),
                        message: s.subrange(5, 5 + len),
                    },
                    6 + len,
                )
            }
        } else {
            Parsed::Fail(DecodeError::Malformed(Reason::UnknownChatFlag(s[0])))
        }
    }

    /// Decoding what was encoded gives the message back and stops right behind
    /// it, whatever follows.
    pub proof fn lemma_roundtrip(self, tail: Seq<u8>)
        requires
            self.valid(),
        ensures
            Self::parse(self.wire() + tail) == Parsed::Done(self, self.wire().len() as int),
    {
        reveal(ChatMessageView::parse);
        let s = self.wire() + tail;
        match self {
            ChatMessageView::Lobby { message } => {
                assert(s.skip(1) =~= message + seq![0u8] + tail);
                lemma_nul_pos_terminated(message, tail);
                assert(s.subrange(1, 1 + message.len() as int) =~= message);
            },
            ChatMessageView::Scoped { scope, message } => {
                assert(s.skip(1) =~= le32_bytes(scope) + s.skip(5));
                lemma_le32_roundtrip(scope, s.skip(5));
                assert(s.skip(5) =~= message + seq![0u8] + tail);
                lemma_nul_pos_terminated(message, tail);
                assert(s.subrange(5, 5 + message.len() as int) =~= message);
            },
        }
    }

    /// A proper prefix of an encoded message asks for more bytes.
    pub proof fn lemma_prefix(self, p: Seq<u8>)
        requires
            self.valid(),
            p.len() < self.wire().len(),
            p == self.wire().take(p.len() as int),
        ensures
            Self::parse(p).wants_more(),
    {
        reveal(ChatMessageView::parse);
        let w = self.wire();
        if p.len() >= 1 {
            assert(p[0] == w[0]);
            let at: int = if self is Lobby { 1 } else { 5 };
            if p.len() >= at {
                let q = p.skip(at);
                assert(zero_free(q)) by {
                    assert forall|i: int| 0 <= i < q.len() implies q[i] != 0 by {
                        assert(q[i] == w[at + i]);
                        assert(w[at + i] == self.text()[i]);
                    }
                }
                lemma_nul_pos_unterminated(q);
            }
        }
    }

    /// An input that is malformed stays so, whatever follows it.
    pub proof fn lemma_malformed_final(s: Seq<u8>, t: Seq<u8>)
        requires
            Self::parse(s).rejects(),
        ensures
            Self::parse(s + t) == Self::parse(s),
    {
        reveal(ChatMessageView::parse);
    }

    /// A message that was read is valid.
    pub proof fn lemma_parsed_valid(s: Seq<u8>)
        requires
            Self::parse(s) is Done,
        ensures
            Self::parse(s)->Done_0.valid(),
    {
        reveal(ChatMessageView::parse);
        let at: int = if s[0] == CHAT_FLAG_LOBBY { 1 } else { 5 };
        let len = nul_pos(s.skip(at));
        lemma_nul_pos(s.skip(at));
        assert(s.subrange(at, at + len) =~= s.skip(at).take(len));
    }

    /// A message that was read took at least two of the bytes at hand: as many
    /// as its wire form has.
    pub proof fn lemma_size(s: Seq<u8>)
        requires
            Self::parse(s) is Done,
        ensures
            2 <= Self::parse(s)->Done_1 <= s.len(),
            Self::parse(s)->Done_1 == Self::parse(s)->Done_0.wire().len(),
    {
        reveal(ChatMessageView::parse);
        lemma_nul_pos(s.skip(1));
        lemma_nul_pos(s.skip(5));
    }

    /// A message that was read reads the same from any input that agrees on
    /// the bytes it took.
    pub proof fn lemma_local(s: Seq<u8>, z: Seq<u8>)
        requires
            Self::parse(s) is Done,
            z.len() >= Self::parse(s)->Done_1,
            z.take(Self::parse(s)->Done_1) == s.take(Self::parse(s)->Done_1),
        ensures
            Self::parse(z) == Self::parse(s),
    {
        reveal(ChatMessageView::parse);
        let n = Self::parse(s)->Done_1;
        Self::lemma_size(s);
        lemma_same_prefix(z, s, n);
        if s[0] == CHAT_FLAG_LOBBY {
            let len = nul_pos(s.skip(1));
            lemma_nul_pos(s.skip(1));
            assert(z.skip(1).take(len + 1) == s.skip(1).take(len + 1));
            lemma_nul_pos_local(s.skip(1), z.skip(1));
            assert(z.subrange(1, 1 + len) =~= s.subrange(1, 1 + len));
        } else {
            let len = nul_pos(s.skip(5));
            lemma_nul_pos(s.skip(5));
            assert(z.skip(5).take(len + 1) == s.skip(5).take(len + 1));
            lemma_nul_pos_local(s.skip(5), z.skip(5));
            assert(z.subrange(5, 5 + len) =~= s.subrange(5, 5 + len));
            assert(z.skip(1).take(4) == s.skip(1).take(4));
            lemma_same_prefix(z.skip(1), s.skip(1), 4);
        }
    }
}

impl ChatMessage {
    /// Reads a chat message. A flag that is neither of the two known ones is
    /// malformed.
    pub fn decode(cur: &mut Cursor) -> (r: Result<ChatMessage, DecodeError>)
        ensures
            decodes_as(
                old(cur).remaining(),
                final(cur).remaining(),
                r,
                ChatMessageView::parse(old(cur).remaining()),
            ),
    {
        proof {
            reveal(ChatMessageView::parse);
        }
        let ghost s = cur.remaining();
        let flag = match cur.peek_u8() {
            Some(flag) => flag,
            None => {
                return Err(DecodeError::Incomplete(Context::Field));
            },
        };
        if flag == CHAT_FLAG_LOBBY {
            let _ = cur.get_u8();
            proof {
                lemma_nul_pos(s.skip(1));
            }
            match cur.get_cstring() {
                Some(message) => {
                    proof {
                        let len = nul_pos(s.skip(1));
                        assert(s.skip(1).take(len) =~= s.subrange(1, 1 + len));
                        assert(s.skip(1).skip(len + 1) =~= s.skip(2 + len));
                    }
                    Ok(ChatMessage::Lobby { message })
                },
                None => Err(DecodeError::Incomplete(Context::Field)),
            }
        } else if flag == CHAT_FLAG_SCOPED {
            if !cur.has(5) {
                return Err(DecodeError::Incomplete(Context::Field));
            }
            let _ = cur.get_u8();
            let scope = cur.get_u32_le();
            proof {
                assert(s.skip(1).skip(4) =~= s.skip(5));
                lemma_nul_pos(s.skip(5));
            }
            match cur.get_cstring() {
                Some(message) => {
                    proof {
                        let len = nul_pos(s.skip(5));
                        assert(s.skip(5).take(len) =~= s.subrange(5, 5 + len));
                        assert(s.skip(5).skip(len + 1) =~= s.skip(6 + len));
                    }
                    Ok(ChatMessage::Scoped { scope, message })
                },
                None => Err(DecodeError::Incomplete(Context::Field)),
            }
        } else {
            Err(DecodeError::Malformed(Reason::UnknownChatFlag(flag)))
        }
    }

    /// Writes the chat message.
    pub fn encode(&self, sink: &mut Vec<u8>)
        ensures
            final(sink)@ == old(sink)@ + self@.wire(),
    {
        match self {
            ChatMessage::Lobby { message } => {
                put_u8(sink, CHAT_FLAG_LOBBY);
                put_slice(sink, message.as_slice());
                put_u8(sink, 0);
            },
            ChatMessage::Scoped { scope, message } => {
                put_u8(sink, CHAT_FLAG_SCOPED);
                put_u32_le(sink, *scope);
                put_slice(sink, message.as_slice());
                put_u8(sink, 0);
            },
        }
        assert(sink@ =~= old(sink)@ + self@.wire());
    }

    /// The low 16 bits of the number of bytes that `encode` writes.
    pub fn encode_len(&self) -> (n: u16)
        ensures
            n == self@.wire().len() % 0x10000,
    {
        match self {
            ChatMessage::Lobby { message } => {
                let low: usize = message.len() % 0x10000;
                assert((low + 2) % 0x10000 == (message@.len() + 2) % 0x10000);
                ((low + 2) % 0x10000) as u16
            },
            ChatMessage::Scoped { message, .. } => {
                let low: usize = message.len() % 0x10000;
                assert((low + 6) % 0x10000 == (message@.len() + 6) % 0x10000);
                ((low + 6) % 0x10000) as u16
            },
        }
    }

    /// Whether `encode` writes exactly `n` bytes.
    pub fn fills(&self, n: u16) -> (b: bool)
        ensures
            b == (self@.wire().len() == n),
    {
        match self {
            ChatMessage::Lobby { message } => n >= 2 && message.len() == (n - 2) as usize,
            ChatMessage::Scoped { message, .. } => n >= 6 && message.len() == (n - 6) as usize,
        }
    }
}

/// A chat message with the player who wrote it.
#[derive(Clone, Debug, PartialEq, Eq)]
pub struct PlayerChatMessage {
    pub player_id: u8,
    pub message: ChatMessage,
}

pub struct PlayerChatMessageView {
    pub player_id: u8,
    pub message: ChatMessageView,
}

impl View for PlayerChatMessage {
    type V = PlayerChatMessageView;

    open spec fn view(&self) -> PlayerChatMessageView {
        PlayerChatMessageView { player_id: self.player_id, message: self.message@ }
    }
}

impl PlayerChatMessageView {
    /// The message is valid and its length fits the length field.
    pub open spec fn valid(self) -> bool {
        &&& self.message.valid()
        &&& self.message.wire().len() <= 0xffff
    }

    /// Player id, the length of the message, the message. A length too large
    /// for its field is cut to its low 16 bits.
    pub open spec fn wire(self) -> Seq<u8> {
        seq![self.player_id] + le16_bytes((self.message.wire().len() % 0x10000) as u16)
            + self.message.wire()
    }

    /// How a byte sequence reads as a player's chat message. The announced
    /// length must be at hand, and the message must fill it exactly.
    #[verifier::opaque]
    pub open spec fn parse(s: Seq<u8>) -> Parsed<PlayerChatMessageView> {
        if s.len() < 5 || s.len() - 3 < le16(s.skip(1)) {
            Parsed::Fail(DecodeError::Incomplete(Context::Field))
        } else {
            match ChatMessageView::parse(s.skip(3)) {
                Parsed::Fail(e) => Parsed::Fail(e),
                Parsed::Done(message, n) => if n != le16(s.skip(1)) {
                    Parsed::Fail(DecodeError::Malformed(Reason::UnexpectedChatMessageLength))
                } else {
                    Parsed::Done(PlayerChatMessageView { player_id: s[0], message }, 3 + n)
                },
            }
        }
    }

    /// Decoding what was encoded gives the message back and stops right behind
    /// it, whatever follows.
    pub proof fn lemma_roundtrip(self, tail: Seq<u8>)
        requires
            self.valid(),
        ensures
            Self::parse(self.wire() + tail) == Parsed::Done(self, self.wire().len() as int),
    {
        reveal(PlayerChatMessageView::parse);
        let s = self.wire() + tail;
        let len = self.message.wire().len();
        assert(s.skip(1) =~= le16_bytes(len as u16) + s.skip(3));
        lemma_le16_roundtrip(len as u16, s.skip(3));
        assert(s.skip(3) =~= self.message.wire() + tail);
        self.message.lemma_roundtrip(tail);
        self.message.lemma_roundtrip(Seq::empty());
        ChatMessageView::lemma_size(self.message.wire() + Seq::empty());
    }

    /// A proper prefix of an encoded message asks for more bytes.
    pub proof fn lemma_prefix(self, p: Seq<u8>)
        requires
            self.valid(),
            p.len() < self.wire().len(),
            p == self.wire().take(p.len() as int),
        ensures
            Self::parse(p).wants_more(),
    {
        reveal(PlayerChatMessageView::parse);
        let w = self.wire();
        let len = self.message.wire().len();
        if p.len() >= 5 {
            assert(w.skip(1) =~= le16_bytes(len as u16) + w.skip(3));
            lemma_le16_roundtrip(len as u16, w.skip(3));
            assert(p.skip(1)[0] == w.skip(1)[0]);
            assert(p.skip(1)[1] == w.skip(1)[1]);
        }
    }

    /// An input that is malformed stays so, whatever follows it.
    pub proof fn lemma_malformed_final(s: Seq<u8>, t: Seq<u8>)
        requires
            Self::parse(s).rejects(),
        ensures
            Self::parse(s + t) == Self::parse(s),
    {
        reveal(PlayerChatMessageView::parse);
        let z = s + t;
        lemma_skip_extend(s, t, 1);
        lemma_skip_extend(s, t, 3);
        assert(le16(z.skip(1)) == le16(s.skip(1)));
        if ChatMessageView::parse(s.skip(3)) is Done {
            let n = ChatMessageView::parse(s.skip(3))->Done_1;
            ChatMessageView::lemma_size(s.skip(3));
            assert(z.skip(3).take(n) =~= s.skip(3).take(n));
            ChatMessageView::lemma_local(s.skip(3), z.skip(3));
        } else {
            ChatMessageView::lemma_malformed_final(s.skip(3), t);
        }
    }

    /// A message that was read is valid.
    pub proof fn lemma_parsed_valid(s: Seq<u8>)
        requires
            Self::parse(s) is Done,
        ensures
            Self::parse(s)->Done_0.valid(),
    {
        reveal(PlayerChatMessageView::parse);
        ChatMessageView::lemma_parsed_valid(s.skip(3));
        ChatMessageView::lemma_size(s.skip(3));
    }

    /// A message that was read took at least five of the bytes at hand.
    pub proof fn lemma_size(s: Seq<u8>)
        requires
            Self::parse(s) is Done,
        ensures
            5 <= Self::parse(s)->Done_1 <= s.len(),
    {
        reveal(PlayerChatMessageView::parse);
        ChatMessageView::lemma_size(s.skip(3));
    }

    /// A message that was read reads the same from any input that agrees on
    /// the bytes it took.
    pub proof fn lemma_local(s: Seq<u8>, z: Seq<u8>)
        requires
            Self::parse(s) is Done,
            z.len() >= Self::parse(s)->Done_1,
            z.take(Self::parse(s)->Done_1) == s.take(Self::parse(s)->Done_1),
        ensures
            Self::parse(z) == Self::parse(s),
    {
        reveal(PlayerChatMessageView::parse);
        let n = Self::parse(s)->Done_1;
        Self::lemma_size(s);
        lemma_same_prefix(z, s, n);
        assert(z.skip(1).take(2) == s.skip(1).take(2));
        lemma_same_prefix(z.skip(1), s.skip(1), 2);
        assert(z.skip(3).take(n - 3) == s.skip(3).take(n - 3));
        ChatMessageView::lemma_local(s.skip(3), z.skip(3));
    }
}

impl PlayerChatMessage {
    /// Reads a player's chat message and checks the message against the
    /// length that was announced for it.
    pub fn decode(cur: &mut Cursor) -> (r: Result<PlayerChatMessage, DecodeError>)
        ensures
            decodes_as(
                old(cur).remaining(),
                final(cur).remaining(),
                r,
                PlayerChatMessageView::parse(old(cur).remaining()),
            ),
    {
        proof {
            reveal(PlayerChatMessageView::parse);
        }
        let ghost s = cur.remaining();
        if !cur.has(5) {
            return Err(DecodeError::Incomplete(Context::Field));
        }
        let player_id = cur.get_u8();
        let len: u16 = cur.get_u16_le();
        if !cur.has(len as usize) {
            return Err(DecodeError::Incomplete(Context::Field));
        }
        assert(cur.remaining() == s.skip(3)) by {
            assert(s.skip(1).skip(2) =~= s.skip(3));
        }
        let message = match ChatMessage::decode(cur) {
            Ok(message) => message,
            Err(e) => {
                return Err(e);
            },
        };
        proof {
            ChatMessageView::lemma_size(s.skip(3));
            let n = ChatMessageView::parse(s.skip(3))->Done_1;
            assert(s.skip(3).skip(n) =~= s.skip(3 + n));
        }
        if !message.fills(len) {
            return Err(DecodeError::Malformed(Reason::UnexpectedChatMessageLength));
        }
        Ok(PlayerChatMessage { player_id, message })
    }

    /// Writes the player's chat message.
    pub fn encode(&self, sink: &mut Vec<u8>)
        ensures
            final(sink)@ == old(sink)@ + self@.wire(),
    {
        put_u8(sink, self.player_id);
        put_u16_le(sink, self.message.encode_len());
        self.message.encode(sink);
        assert(sink@ =~= old(sink)@ + self@.wire());
    }
}

} // verus!
