//! A protocol-buffers message carried in a record, kept in its encoded form.

use vstd::prelude::*;
use crate::cursor::Cursor;
use crate::error::{decodes_as, Context, DecodeError, Parsed};
use crate::wire::{
    le32, le32_bytes, lemma_le32_roundtrip, lemma_same_prefix, put_slice, put_u32_le, put_u8,
};

verus! {

/// The kind of a message and its encoded bytes.
#[derive(Clone, Debug, PartialEq, Eq)]
pub struct ProtoBufPayload {
    pub message_type_id: u8,
    pub data: Vec<u8>,
}

pub struct ProtoBufPayloadView {
    pub message_type_id: u8,
    pub data: Seq<u8>,
}

impl View for ProtoBufPayload {
    type V = ProtoBufPayloadView;

    open spec fn view(&self) -> ProtoBufPayloadView {
        ProtoBufPayloadView { message_type_id: self.message_type_id, data: self.data@ }
    }
}

impl ProtoBufPayloadView {
    /// The length of the data fits its 32-bit field.
    pub open spec fn valid(self) -> bool {
        self.data.len() <= 0xffff_ffff
    }

    /// Kind, length of the data, data. A length too large for its field is cut
    /// to its low 32 bits.
    pub open spec fn wire(self) -> Seq<u8> {
        seq![self.message_type_id] + le32_bytes((self.data.len() % 0x1_0000_0000) as u32)
            + self.data
    }

    /// How a byte sequence reads as a payload.
    #[verifier::opaque]
    pub open spec fn parse(s: Seq<u8>) -> Parsed<ProtoBufPayloadView> {
        if s.len() < 5 || s.len() - 5 < le32(s.skip(1)) {
            Parsed::Fail(DecodeError::Incomplete(Context::Field))
        } else {
            let len = le32(s.skip(1)) as int;
            Parsed::Done(
                ProtoBufPayloadView { message_type_id: s[0], data: s.subrange(5, 5 + len) },
                5 + len,
            )
        }
    }

    /// Decoding what was encoded gives the payload back and stops right behind
    /// it, whatever follows.
    pub proof fn lemma_roundtrip(self, tail: Seq<u8>)
        requires
            self.valid(),
        ensures
            Self::parse(self.wire() + tail) == Parsed::Done(self, self.wire().len() as int),
    {
        reveal(ProtoBufPayloadView::parse);
        let s = self.wire() + tail;
        let len = self.data.len();
        assert(s.skip(1) =~= le32_bytes(len as u32) + s.skip(5));
        lemma_le32_roundtrip(len as u32, s.skip(5));
        assert(s.subrange(5, 5 + len as int) =~= self.data);
    }

    /// A proper prefix of an encoded payload asks for more bytes.
    pub proof fn lemma_prefix(self, p: Seq<u8>)
        requires
            self.valid(),
            p.len() < self.wire().len(),
            p == self.wire().take(p.len() as int),
        ensures
            Self::parse(p).wants_more(),
    {
        reveal(ProtoBufPayloadView::parse);
        let w = self.wire();
        let len = self.data.len();
        if p.len() >= 5 {
            assert(w.skip(1) =~= le32_bytes(len as u32) + w.skip(5));
            lemma_le32_roundtrip(len as u32, w.skip(5));
            assert(p.skip(1).take(4) =~= w.skip(1).take(4));
            lemma_same_prefix(p.skip(1), w.skip(1), 4);
        }
    }

    /// No input is malformed as a payload.
    pub proof fn lemma_never_malformed(s: Seq<u8>)
        ensures
            !Self::parse(s).rejects(),
    {
        reveal(ProtoBufPayloadView::parse);
    }

    /// A payload that was read is valid.
    pub proof fn lemma_parsed_valid(s: Seq<u8>)
        requires
            Self::parse(s) is Done,
        ensures
            Self::parse(s)->Done_0.valid(),
    {
        reveal(ProtoBufPayloadView::parse);
    }

    /// A payload that was read took at least five of the bytes at hand.
    pub proof fn lemma_size(s: Seq<u8>)
        requires
            Self::parse(s) is Done,
        ensures
            5 <= Self::parse(s)->Done_1 <= s.len(),
    {
        reveal(ProtoBufPayloadView::parse);
    }

    /// A payload that was read reads the same from any input that agrees on
    /// the bytes it took.
    pub proof fn lemma_local(s: Seq<u8>, z: Seq<u8>)
        requires
            Self::parse(s) is Done,
            z.len() >= Self::parse(s)->Done_1,
            z.take(Self::parse(s)->Done_1) == s.take(Self::parse(s)->Done_1),
        ensures
            Self::parse(z) == Self::parse(s),
    {
        reveal(ProtoBufPayloadView::parse);
        let n = Self::parse(s)->Done_1;
        lemma_same_prefix(z, s, n);
        assert(z.skip(1).take(4) == s.skip(1).take(4));
        lemma_same_prefix(z.skip(1), s.skip(1), 4);
        assert(z.subrange(5, n) =~= s.subrange(5, n));
    }
}

impl ProtoBufPayload {
    /// Reads a payload.
    pub fn decode(cur: &mut Cursor) -> (r: Result<ProtoBufPayload, DecodeError>)
        ensures
            decodes_as(
                old(cur).remaining(),
                final(cur).remaining(),
                r,
                ProtoBufPayloadView::parse(old(cur).remaining()),
            ),
    {
        proof {
            reveal(ProtoBufPayloadView::parse);
        }
        let ghost s = cur.remaining();
        if !cur.has(5) {
            return Err(DecodeError::Incomplete(Context::Field));
        }
        let message_type_id = cur.get_u8();
        let len: u32 = cur.get_u32_le();
        assert(cur.remaining() == s.skip(5)) by {
            assert(s.skip(1).skip(4) =~= s.skip(5));
        }
        if !cur.has(len as usize) {
            return Err(DecodeError::Incomplete(Context::Field));
        }
        let data = cur.take(len as usize);
        proof {
            assert(s.skip(5).take(len as int) =~= s.subrange(5, 5 + len));
            assert(s.skip(5).skip(len as int) =~= s.skip(5 + len));
        }
        Ok(ProtoBufPayload { message_type_id, data })
    }

    /// Writes the payload.
    pub fn encode(&self, sink: &mut Vec<u8>)
        ensures
            final(sink)@ == old(sink)@ + self@.wire(),
    {
        put_u8(sink, self.message_type_id);
        put_u32_le(sink, (self.data.len() as u64 % 0x1_0000_0000) as u32);
        put_slice(sink, self.data.as_slice());
        assert(sink@ =~= old(sink)@ + self@.wire());
    }
}

} // verus!
