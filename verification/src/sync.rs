//! Fixed-size records that keep the players in step.

use vstd::prelude::*;
use crate::cursor::Cursor;
use crate::error::{decodes_as, Context, DecodeError, Parsed, Reason};
use crate::wire::{
    le32, le32_bytes, lemma_le32_roundtrip, lemma_same_prefix, put_u32_le, put_u8,
};

verus! {

/// The width in bytes of a checksum, which the records that hold one announce.
pub const CHECKSUM_SIZE: u8 = 4;

/// The checksum that closes a time slot.
#[derive(Clone, Copy, Debug, PartialEq, Eq)]
pub struct TimeSlotAck {
    pub checksum: u32,
}

impl View for TimeSlotAck {
    type V = TimeSlotAck;

    open spec fn view(&self) -> TimeSlotAck {
        *self
    }
}

impl TimeSlotAck {
    /// The width of the checksum, then the checksum.
    pub open spec fn wire(self) -> Seq<u8> {
        seq![CHECKSUM_SIZE] + le32_bytes(self.checksum)
    }

    /// How a byte sequence reads as an acknowledgement.
    #[verifier::opaque]
    pub open spec fn parse(s: Seq<u8>) -> Parsed<TimeSlotAck> {
        if s.len() < 1 {
            Parsed::Fail(DecodeError::Incomplete(Context::Field))
        } else if s[0] != CHECKSUM_SIZE {
            Parsed::Fail(
                DecodeError::Malformed(
                    Reason::UnexpectedValue { expected: CHECKSUM_SIZE as u32, found: s[0] as u32 },
                ),
            )
        } else if s.len() < 5 {
            Parsed::Fail(DecodeError::Incomplete(Context::Field))
        } else {
            Parsed::Done(TimeSlotAck { checksum: le32(s.skip(1)) }, 5)
        }
    }

    /// Decoding what was encoded gives the record back and stops right behind
    /// it, whatever follows.
    pub proof fn lemma_roundtrip(self, tail: Seq<u8>)
        ensures
            Self::parse(self.wire() + tail) == Parsed::Done(self, 5),
            self.wire().len() == 5,
    {
        reveal(TimeSlotAck::parse);
        let s = self.wire() + tail;
        assert(s.skip(1) =~= le32_bytes(self.checksum) + tail);
        lemma_le32_roundtrip(self.checksum, tail);
    }

    /// A proper prefix of an encoded record asks for more bytes.
    pub proof fn lemma_prefix(self, p: Seq<u8>)
        requires
            p.len() < self.wire().len(),
            p == self.wire().take(p.len() as int),
        ensures
            Self::parse(p).wants_more(),
    {
        reveal(TimeSlotAck::parse);
        if p.len() >= 1 {
            assert(p[0] == self.wire()[0]);
        }
    }

    /// A record that was read reads the same from any input that agrees on its
    /// five bytes.
    pub proof fn lemma_local(s: Seq<u8>, z: Seq<u8>)
        requires
            Self::parse(s) is Done,
            z.len() >= 5,
            z.take(5) == s.take(5),
        ensures
            Self::parse(z) == Self::parse(s),
    {
        reveal(TimeSlotAck::parse);
        lemma_same_prefix(z, s, 5);
    }

    /// An input that is malformed stays so, whatever follows it.
    pub proof fn lemma_malformed_final(s: Seq<u8>, t: Seq<u8>)
        requires
            Self::parse(s).rejects(),
        ensures
            Self::parse(s + t) == Self::parse(s),
    {
        reveal(TimeSlotAck::parse);
    }

    /// The acknowledgement with the given checksum.
    pub fn new(checksum: u32) -> (ack: TimeSlotAck)
        ensures
            ack.checksum == checksum,
    {
        TimeSlotAck { checksum }
    }

    /// Reads an acknowledgement. A first byte other than four is malformed.
    pub fn decode(cur: &mut Cursor) -> (r: Result<TimeSlotAck, DecodeError>)
        ensures
            decodes_as(
                old(cur).remaining(),
                final(cur).remaining(),
                r,
                TimeSlotAck::parse(old(cur).remaining()),
            ),
    {
        proof {
            reveal(TimeSlotAck::parse);
        }
        let ghost s = cur.remaining();
        let size = match cur.peek_u8() {
            Some(size) => size,
            None => {
                return Err(DecodeError::Incomplete(Context::Field));
            },
        };
        if size != CHECKSUM_SIZE {
            return Err(
                DecodeError::Malformed(
                    Reason::UnexpectedValue { expected: CHECKSUM_SIZE as u32, found: size as u32 },
                ),
            );
        }
        if !cur.has(5) {
            return Err(DecodeError::Incomplete(Context::Field));
        }
        let _ = cur.get_u8();
        let checksum = cur.get_u32_le();
        assert(s.skip(1).skip(4) =~= s.skip(5));
        Ok(TimeSlotAck { checksum })
    }

    /// Writes the acknowledgement.
    pub fn encode(&self, sink: &mut Vec<u8>)
        ensures
            final(sink)@ == old(sink)@ + self@.wire(),
    {
        put_u8(sink, CHECKSUM_SIZE);
        put_u32_le(sink, self.checksum);
        assert(sink@ =~= old(sink)@ + self@.wire());
    }
}

/// The players' states differ: a tick, the checksum, and a trailing byte.
#[derive(Clone, Copy, Debug, PartialEq, Eq)]
pub struct Desync {
    pub tick: u32,
    pub checksum: u32,
    pub unknown: u8,
}

impl View for Desync {
    type V = Desync;

    open spec fn view(&self) -> Desync {
        *self
    }
}

impl Desync {
    /// Tick, the width of the checksum, the checksum, the trailing byte.
    pub open spec fn wire(self) -> Seq<u8> {
        le32_bytes(self.tick) + seq![CHECKSUM_SIZE] + le32_bytes(self.checksum) + seq![
            self.unknown,
        ]
    }

    /// How a byte sequence reads as a desync record.
    #[verifier::opaque]
    pub open spec fn parse(s: Seq<u8>) -> Parsed<Desync> {
        if s.len() < 5 {
            Parsed::Fail(DecodeError::Incomplete(Context::Field))
        } else if s[4] != CHECKSUM_SIZE {
            Parsed::Fail(
                DecodeError::Malformed(
                    Reason::UnexpectedValue { expected: CHECKSUM_SIZE as u32, found: s[4] as u32 },
                ),
            )
        } else if s.len() < 10 {
            Parsed::Fail(DecodeError::Incomplete(Context::Field))
        } else {
            Parsed::Done(Desync { tick: le32(s), checksum: le32(s.skip(5)), unknown: s[9] }, 10)
        }
    }

    /// Decoding what was encoded gives the record back and stops right behind
    /// it, whatever follows.
    pub proof fn lemma_roundtrip(self, tail: Seq<u8>)
        ensures
            Self::parse(self.wire() + tail) == Parsed::Done(self, 10),
            self.wire().len() == 10,
    {
        reveal(Desync::parse);
        let s = self.wire() + tail;
        assert(s =~= le32_bytes(self.tick) + s.skip(4));
        lemma_le32_roundtrip(self.tick, s.skip(4));
        assert(s.skip(5) =~= le32_bytes(self.checksum) + s.skip(9));
        lemma_le32_roundtrip(self.checksum, s.skip(9));
    }

    /// A proper prefix of an encoded record asks for more bytes.
    pub proof fn lemma_prefix(self, p: Seq<u8>)
        requires
            p.len() < self.wire().len(),
            p == self.wire().take(p.len() as int),
        ensures
            Self::parse(p).wants_more(),
    {
        reveal(Desync::parse);
        if p.len() >= 5 {
            assert(p[4] == self.wire()[4]);
        }
    }

    /// A record that was read reads the same from any input that agrees on its
    /// ten bytes.
    pub proof fn lemma_local(s: Seq<u8>, z: Seq<u8>)
        requires
            Self::parse(s) is Done,
            z.len() >= 10,
            z.take(10) == s.take(10),
        ensures
            Self::parse(z) == Self::parse(s),
    {
        reveal(Desync::parse);
        lemma_same_prefix(z, s, 10);
    }

    /// An input that is malformed stays so, whatever follows it.
    pub proof fn lemma_malformed_final(s: Seq<u8>, t: Seq<u8>)
        requires
            Self::parse(s).rejects(),
        ensures
            Self::parse(s + t) == Self::parse(s),
    {
        reveal(Desync::parse);
    }

    /// Reads a desync record. A checksum width other than four is malformed.
    pub fn decode(cur: &mut Cursor) -> (r: Result<Desync, DecodeError>)
        ensures
            decodes_as(
                old(cur).remaining(),
                final(cur).remaining(),
                r,
                Desync::parse(old(cur).remaining()),
            ),
    {
        proof {
            reveal(Desync::parse);
        }
        let ghost s = cur.remaining();
        if !cur.has(5) {
            return Err(DecodeError::Incomplete(Context::Field));
        }
        let tick = cur.get_u32_le();
        let size = cur.get_u8();
        if size != CHECKSUM_SIZE {
            return Err(
                DecodeError::Malformed(
                    Reason::UnexpectedValue { expected: CHECKSUM_SIZE as u32, found: size as u32 },
                ),
            );
        }
        assert(cur.remaining() == s.skip(5)) by {
            assert(s.skip(4).skip(1) =~= s.skip(5));
        }
        if !cur.has(5) {
            return Err(DecodeError::Incomplete(Context::Field));
        }
        let checksum = cur.get_u32_le();
        let unknown = cur.get_u8();
        proof {
            assert(s.skip(5).skip(4) =~= s.skip(9));
            assert(s.skip(9).skip(1) =~= s.skip(10));
        }
        Ok(Desync { tick, checksum, unknown })
    }

    /// Writes the desync record.
    pub fn encode(&self, sink: &mut Vec<u8>)
        ensures
            final(sink)@ == old(sink)@ + self@.wire(),
    {
        put_u32_le(sink, self.tick);
        put_u8(sink, CHECKSUM_SIZE);
        put_u32_le(sink, self.checksum);
        put_u8(sink, self.unknown);
        assert(sink@ =~= old(sink)@ + self@.wire());
    }
}

/// The countdown that ends a game by force: whether it is over, and the
/// seconds left.
#[derive(Clone, Copy, Debug, PartialEq, Eq)]
pub struct EndTimer {
    pub over: bool,
    pub countdown_sec: u32,
}

impl View for EndTimer {
    type V = EndTimer;

    open spec fn view(&self) -> EndTimer {
        *self
    }
}

impl EndTimer {
    /// One byte that is one if the countdown is over and zero if not, then the
    /// seconds.
    pub open spec fn wire(self) -> Seq<u8> {
        seq![if self.over { 1u8 } else { 0u8 }] + le32_bytes(self.countdown_sec)
    }

    /// How a byte sequence reads as an end timer. Any first byte but zero
    /// means that the countdown is over.
    #[verifier::opaque]
    pub open spec fn parse(s: Seq<u8>) -> Parsed<EndTimer> {
        if s.len() < 5 {
            Parsed::Fail(DecodeError::Incomplete(Context::Field))
        } else {
            Parsed::Done(EndTimer { over: s[0] != 0, countdown_sec: le32(s.skip(1)) }, 5)
        }
    }

    /// Decoding what was encoded gives the record back and stops right behind
    /// it, whatever follows.
    pub proof fn lemma_roundtrip(self, tail: Seq<u8>)
        ensures
            Self::parse(self.wire() + tail) == Parsed::Done(self, 5),
            self.wire().len() == 5,
    {
        reveal(EndTimer::parse);
        let s = self.wire() + tail;
        assert(s.skip(1) =~= le32_bytes(self.countdown_sec) + tail);
        lemma_le32_roundtrip(self.countdown_sec, tail);
    }

    /// A proper prefix of an encoded record asks for more bytes.
    pub proof fn lemma_prefix(self, p: Seq<u8>)
        requires
            p.len() < self.wire().len(),
            p == self.wire().take(p.len() as int),
        ensures
            Self::parse(p).wants_more(),
    {
        reveal(EndTimer::parse);
    }

    /// A record that was read reads the same from any input that agrees on its
    /// five bytes.
    pub proof fn lemma_local(s: Seq<u8>, z: Seq<u8>)
        requires
            Self::parse(s) is Done,
            z.len() >= 5,
            z.take(5) == s.take(5),
        ensures
            Self::parse(z) == Self::parse(s),
    {
        reveal(EndTimer::parse);
        lemma_same_prefix(z, s, 5);
    }

    /// No input is malformed as an end timer.
    pub proof fn lemma_never_malformed(s: Seq<u8>)
        ensures
            !Self::parse(s).rejects(),
    {
        reveal(EndTimer::parse);
    }

    /// Reads an end timer.
    pub fn decode(cur: &mut Cursor) -> (r: Result<EndTimer, DecodeError>)
        ensures
            decodes_as(
                old(cur).remaining(),
                final(cur).remaining(),
                r,
                EndTimer::parse(old(cur).remaining()),
            ),
    {
        proof {
            reveal(EndTimer::parse);
        }
        let ghost s = cur.remaining();
        if !cur.has(5) {
            return Err(DecodeError::Incomplete(Context::Field));
        }
        let over = cur.get_u8() != 0;
        let countdown_sec = cur.get_u32_le();
        assert(s.skip(1).skip(4) =~= s.skip(5));
        Ok(EndTimer { over, countdown_sec })
    }

    /// Writes the end timer.
    pub fn encode(&self, sink: &mut Vec<u8>)
        ensures
            final(sink)@ == old(sink)@ + self@.wire(),
    {
        put_u8(sink, if self.over { 1 } else { 0 });
        put_u32_le(sink, self.countdown_sec);
        assert(sink@ =~= old(sink)@ + self@.wire());
    }
}

} // verus!
