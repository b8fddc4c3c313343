//! The slot table: who sits where when the game starts.

use vstd::prelude::*;
use crate::cursor::Cursor;
use crate::error::{decodes_as, Context, DecodeError, Parsed, Reason};
use crate::wire::{
    le16, le16_bytes, le32, le32_bytes, lemma_le16_roundtrip, lemma_le32_roundtrip,
    lemma_same_prefix, put_u16_le, put_u32_le, put_u8,
};

verus! {

/// One slot of the table: nine bytes, kept as they come.
#[derive(Clone, Copy, Debug, PartialEq, Eq)]
pub struct SlotData {
    pub player_id: u8,
    pub download_status: u8,
    pub slot_status: u8,
    pub computer: u8,
    pub team: u8,
    pub color: u8,
    pub race: u8,
    pub computer_type: u8,
    pub handicap: u8,
}

impl SlotData {
    /// The nine fields in their order.
    pub open spec fn wire(self) -> Seq<u8> {
        seq![
            self.player_id,
            self.download_status,
            self.slot_status,
            self.computer,
            self.team,
            self.color,
            self.race,
            self.computer_type,
            self.handicap,
        ]
    }

    /// The slot that the nine bytes from `at` on stand for.
    pub open spec fn at(s: Seq<u8>, at: int) -> SlotData {
        SlotData {
            player_id: s[at],
            download_status: s[at + 1],
            slot_status: s[at + 2],
            computer: s[at + 3],
            team: s[at + 4],
            color: s[at + 5],
            race: s[at + 6],
            computer_type: s[at + 7],
            handicap: s[at + 8],
        }
    }
}

/// The slots one after the other, nine bytes each.
pub open spec fn slots_wire(slots: Seq<SlotData>) -> Seq<u8>
    decreases slots.len(),
{
    if slots.len() == 0 {
        Seq::empty()
    } else {
        slots_wire(slots.drop_last()) + slots.last().wire()
    }
}

/// The slots that `count` groups of nine bytes from `at` on stand for.
pub open spec fn slots_at(s: Seq<u8>, at: int, count: int) -> Seq<SlotData> {
    Seq::new(count as nat, |i: int| SlotData::at(s, at + 9 * i))
}

/// Slot `i` of a table lies at byte `9 * i` of its wire form.
pub proof fn lemma_slots_wire(slots: Seq<SlotData>)
    ensures
        slots_wire(slots).len() == 9 * slots.len(),
        forall|i: int|
            0 <= i < slots.len() ==> SlotData::at(slots_wire(slots), 9 * i) == #[trigger] slots[i],
    decreases slots.len(),
{
    if slots.len() > 0 {
        let front = slots.drop_last();
        lemma_slots_wire(front);
        let w = slots_wire(slots);
        assert forall|i: int| 0 <= i < slots.len() implies SlotData::at(w, 9 * i)
            == #[trigger] slots[i] by {
            if i < front.len() {
                assert(front[i] == slots[i]);
                assert(SlotData::at(w, 9 * i) == SlotData::at(slots_wire(front), 9 * i));
            } else {
                let base = 9 * front.len() as int;
                assert(w[base] == slots.last().wire()[0]);
                assert(w[base + 1] == slots.last().wire()[1]);
                assert(w[base + 2] == slots.last().wire()[2]);
                assert(w[base + 3] == slots.last().wire()[3]);
                assert(w[base + 4] == slots.last().wire()[4]);
                assert(w[base + 5] == slots.last().wire()[5]);
                assert(w[base + 6] == slots.last().wire()[6]);
                assert(w[base + 7] == slots.last().wire()[7]);
                assert(w[base + 8] == slots.last().wire()[8]);
            }
        }
    }
}

/// A table that lies between two byte sequences is found at the end of the first.
pub proof fn lemma_slots_embedded(slots: Seq<SlotData>, front: Seq<u8>, back: Seq<u8>)
    ensures
        slots_at(front + slots_wire(slots) + back, front.len() as int, slots.len() as int)
            == slots,
{
    let table = slots_wire(slots);
    let s = front + table + back;
    let base = front.len() as int;
    lemma_slots_wire(slots);
    assert forall|i: int| 0 <= i < slots.len() implies SlotData::at(s, base + 9 * i)
        == slots[i] by {
        let at = 9 * i;
        assert(SlotData::at(table, at) == slots[i]);
        assert(s[base + at] == table[at]);
        assert(s[base + at + 1] == table[at + 1]);
        assert(s[base + at + 2] == table[at + 2]);
        assert(s[base + at + 3] == table[at + 3]);
        assert(s[base + at + 4] == table[at + 4]);
        assert(s[base + at + 5] == table[at + 5]);
        assert(s[base + at + 6] == table[at + 6]);
        assert(s[base + at + 7] == table[at + 7]);
        assert(s[base + at + 8] == table[at + 8]);
    }
    assert(slots_at(s, base, slots.len() as int) =~= slots);
}

/// The slot table with the seed and the layout of the game.
#[derive(Clone, Debug, PartialEq, Eq)]
pub struct SlotInfo {
    pub slots: Vec<SlotData>,
    pub random_seed: u32,
    pub slot_layout: u8,
    pub num_players: u8,
}

pub struct SlotInfoView {
    pub slots: Seq<SlotData>,
    pub random_seed: u32,
    pub slot_layout: u8,
    pub num_players: u8,
}

impl View for SlotInfo {
    type V = SlotInfoView;

    open spec fn view(&self) -> SlotInfoView {
        SlotInfoView {
            slots: self.slots@,
            random_seed: self.random_seed,
            slot_layout: self.slot_layout,
            num_players: self.num_players,
        }
    }
}

impl SlotInfoView {
    /// The number of slots fits its byte.
    pub open spec fn valid(self) -> bool {
        self.slots.len() <= 0xff
    }

    /// The number that the length field announces: all that follows it.
    pub open spec fn span(self) -> int {
        7 + 9 * self.slots.len() as int
    }

    /// Length of what follows, number of slots, the slots, the seed, the
    /// layout, the number of players. A number too large for its field is cut
    /// to the field's width.
    pub open spec fn wire(self) -> Seq<u8> {
        le16_bytes((self.span() % 0x10000) as u16) + seq![(self.slots.len() % 0x100) as u8]
            + slots_wire(self.slots) + le32_bytes(self.random_seed) + seq![self.slot_layout]
            + seq![self.num_players]
    }

    /// How a byte sequence reads as a slot table. The announced length must be
    /// at hand, and must be the one that the number of slots calls for.
    #[verifier::opaque]
    pub open spec fn parse(s: Seq<u8>) -> Parsed<SlotInfoView> {
        if s.len() < 2 || s.len() - 2 < le16(s) {
            Parsed::Fail(DecodeError::Incomplete(Context::Field))
        } else if le16(s) < 7 || le16(s) != 7 + 9 * s[2] {
            Parsed::Fail(DecodeError::Malformed(Reason::UnexpectedSlotDataLength))
        } else {
            let count = s[2] as int;
            Parsed::Done(
                SlotInfoView {
                    slots: slots_at(s, 3, count),
                    random_seed: le32(s.skip(3 + 9 * count)),
                    slot_layout: s[7 + 9 * count],
                    num_players: s[8 + 9 * count],
                },
                2 + le16(s),
            )
        }
    }

    /// Decoding what was encoded gives the table back and stops right behind
    /// it, whatever follows.
    pub proof fn lemma_roundtrip(self, tail: Seq<u8>)
        requires
            self.valid(),
        ensures
            Self::parse(self.wire() + tail) == Parsed::Done(self, self.wire().len() as int),
    {
        let s = self.wire() + tail;
        let count = self.slots.len() as int;
        self.lemma_wire_parts(tail);
        assert(Self::parse(s) == Parsed::Done(self, self.wire().len() as int)) by {
            reveal(SlotInfoView::parse);
        }
    }

    /// Where the parts of a table lie in its wire form.
    proof fn lemma_wire_parts(self, tail: Seq<u8>)
        requires
            self.valid(),
        ensures
            ({
                let s = self.wire() + tail;
                let count = self.slots.len() as int;
                &&& self.wire().len() == 9 + 9 * count
                &&& le16(s) == 7 + 9 * count
                &&& s[2] == count
                &&& slots_at(s, 3, count) == self.slots
                &&& le32(s.skip(3 + 9 * count)) == self.random_seed
                &&& s[7 + 9 * count] == self.slot_layout
                &&& s[8 + 9 * count] == self.num_players
            }),
    {
        let s = self.wire() + tail;
        let count = self.slots.len() as int;
        let front = le16_bytes(self.span() as u16) + seq![count as u8];
        let back = le32_bytes(self.random_seed) + seq![self.slot_layout] + seq![self.num_players]
            + tail;
        lemma_slots_wire(self.slots);
        lemma_slots_embedded(self.slots, front, back);
        assert(s =~= front + slots_wire(self.slots) + back);
        assert(s =~= le16_bytes(self.span() as u16) + s.skip(2));
        lemma_le16_roundtrip(self.span() as u16, s.skip(2));
        assert(s[2] == front[2]);
        assert(s.skip(3 + 9 * count) =~= back);
        lemma_le32_roundtrip(self.random_seed, back.skip(4));
        assert(back =~= le32_bytes(self.random_seed) + back.skip(4));
        assert(s[7 + 9 * count] == back[4]);
        assert(s[8 + 9 * count] == back[5]);
    }

    /// A proper prefix of an encoded table asks for more bytes.
    pub proof fn lemma_prefix(self, p: Seq<u8>)
        requires
            self.valid(),
            p.len() < self.wire().len(),
            p == self.wire().take(p.len() as int),
        ensures
            Self::parse(p).wants_more(),
    {
        reveal(SlotInfoView::parse);
        let w = self.wire();
        lemma_slots_wire(self.slots);
        if p.len() >= 2 {
            assert(w =~= le16_bytes(self.span() as u16) + w.skip(2));
            lemma_le16_roundtrip(self.span() as u16, w.skip(2));
            assert(p[0] == w[0] && p[1] == w[1]);
        }
    }

    /// An input that is malformed stays so, whatever follows it.
    pub proof fn lemma_malformed_final(s: Seq<u8>, t: Seq<u8>)
        requires
            Self::parse(s).rejects(),
        ensures
            Self::parse(s + t) == Self::parse(s),
    {
        reveal(SlotInfoView::parse);
    }

    /// A table that was read is valid.
    pub proof fn lemma_parsed_valid(s: Seq<u8>)
        requires
            Self::parse(s) is Done,
        ensures
            Self::parse(s)->Done_0.valid(),
    {
        reveal(SlotInfoView::parse);
    }

    /// A table that was read took the announced length and two bytes more.
    pub proof fn lemma_size(s: Seq<u8>)
        requires
            Self::parse(s) is Done,
        ensures
            9 <= Self::parse(s)->Done_1 <= s.len(),
    {
        reveal(SlotInfoView::parse);
    }

    /// A table that was read reads the same from any input that agrees on the
    /// bytes it took.
    pub proof fn lemma_local(s: Seq<u8>, z: Seq<u8>)
        requires
            Self::parse(s) is Done,
            z.len() >= Self::parse(s)->Done_1,
            z.take(Self::parse(s)->Done_1) == s.take(Self::parse(s)->Done_1),
        ensures
            Self::parse(z) == Self::parse(s),
    {
        reveal(SlotInfoView::parse);
        let n = Self::parse(s)->Done_1;
        let count = s[2] as int;
        lemma_same_prefix(z, s, n);
        assert(slots_at(z, 3, count) =~= slots_at(s, 3, count));
        assert(z.skip(3 + 9 * count).take(4) == s.skip(3 + 9 * count).take(4));
        lemma_same_prefix(z.skip(3 + 9 * count), s.skip(3 + 9 * count), 4);
    }
}

impl SlotInfo {
    /// Reads a slot table.
    pub fn decode(cur: &mut Cursor) -> (r: Result<SlotInfo, DecodeError>)
        ensures
            decodes_as(
                old(cur).remaining(),
                final(cur).remaining(),
                r,
                SlotInfoView::parse(old(cur).remaining()),
            ),
    {
        proof {
            reveal(SlotInfoView::parse);
        }
        let ghost s = cur.remaining();
        if !cur.has(2) {
            return Err(DecodeError::Incomplete(Context::Field));
        }
        let span: u16 = cur.get_u16_le();
        if !cur.has(span as usize) {
            return Err(DecodeError::Incomplete(Context::Field));
        }
        if span < 7 {
            return Err(DecodeError::Malformed(Reason::UnexpectedSlotDataLength));
        }
        let count: u8 = cur.get_u8();
        if span as u32 != 7 + 9 * (count as u32) {
            return Err(DecodeError::Malformed(Reason::UnexpectedSlotDataLength));
        }
        assert(cur.remaining() == s.skip(3)) by {
            assert(s.skip(2).skip(1) =~= s.skip(3));
        }
        let mut slots: Vec<SlotData> = Vec::new();
        let mut i: u8 = 0;
        while i < count
            invariant
                i <= count,
                s.len() >= 9 + 9 * count,
                slots@ == slots_at(s, 3, i as int),
                cur.remaining() == s.skip(3 + 9 * i),
            decreases count - i,
        {
            let ghost t = cur.remaining();
            let player_id = cur.get_u8();
            let download_status = cur.get_u8();
            let slot_status = cur.get_u8();
            let computer = cur.get_u8();
            let team = cur.get_u8();
            let color = cur.get_u8();
            let race = cur.get_u8();
            let computer_type = cur.get_u8();
            let handicap = cur.get_u8();
            let slot = SlotData {
                player_id,
                download_status,
                slot_status,
                computer,
                team,
                color,
                race,
                computer_type,
                handicap,
            };
            proof {
                assert(cur.remaining() =~= t.skip(9));
                assert(t.skip(9) =~= s.skip(3 + 9 * (i + 1)));
                assert(slot == SlotData::at(s, 3 + 9 * i)) by {
                    assert(t.skip(1)[0] == t[1]);
                    assert(t.skip(1).skip(1)[0] == t[2]);
                    assert(t.skip(1).skip(1).skip(1)[0] == t[3]);
                    assert(t.skip(1).skip(1).skip(1).skip(1)[0] == t[4]);
                    assert(t.skip(1).skip(1).skip(1).skip(1).skip(1)[0] == t[5]);
                    assert(t.skip(1).skip(1).skip(1).skip(1).skip(1).skip(1)[0] == t[6]);
                    assert(t.skip(1).skip(1).skip(1).skip(1).skip(1).skip(1).skip(1)[0] == t[7]);
                    assert(t.skip(1).skip(1).skip(1).skip(1).skip(1).skip(1).skip(1).skip(1)[0]
                        == t[8]);
                }
            }
            slots.push(slot);
            i = i + 1;
            assert(slots@ =~= slots_at(s, 3, i as int));
        }
        let random_seed = cur.get_u32_le();
        let slot_layout = cur.get_u8();
        let num_players = cur.get_u8();
        proof {
            let base = 3 + 9 * count;
            assert(s.skip(base).skip(4) =~= s.skip(base + 4));
            assert(s.skip(base + 4).skip(1) =~= s.skip(base + 5));
            assert(s.skip(base + 5).skip(1) =~= s.skip(2 + span));
        }
        Ok(SlotInfo { slots, random_seed, slot_layout, num_players })
    }

    /// Writes the slot table.
    pub fn encode(&self, sink: &mut Vec<u8>)
        ensures
            final(sink)@ == old(sink)@ + self@.wire(),
    {
        let count: usize = self.slots.len();
        let low: usize = count % 0x10000;
        assert((7 + 9 * low) % 0x10000 == (7 + 9 * count) % 0x10000) by {
            lemma_span_low(count as int);
        }
        put_u16_le(sink, ((7 + 9 * low) % 0x10000) as u16);
        put_u8(sink, (count % 0x100) as u8);
        let ghost base = sink@;
        let mut i: usize = 0;
        while i < count
            invariant
                i <= count == self.slots@.len(),
                sink@ == base + slots_wire(self.slots@.take(i as int)),
            decreases count - i,
        {
            let slot = &self.slots[i];
            proof {
                assert(self.slots@.take(i + 1).drop_last() =~= self.slots@.take(i as int));
                assert(self.slots@.take(i + 1).last() == *slot);
            }
            put_u8(sink, slot.player_id);
            put_u8(sink, slot.download_status);
            put_u8(sink, slot.slot_status);
            put_u8(sink, slot.computer);
            put_u8(sink, slot.team);
            put_u8(sink, slot.color);
            put_u8(sink, slot.race);
            put_u8(sink, slot.computer_type);
            put_u8(sink, slot.handicap);
            i = i + 1;
            assert(sink@ =~= base + slots_wire(self.slots@.take(i as int)));
        }
        assert(self.slots@.take(i as int) =~= self.slots@);
        put_u32_le(sink, self.random_seed);
        put_u8(sink, self.slot_layout);
        put_u8(sink, self.num_players);
        assert(sink@ =~= old(sink)@ + self@.wire());
    }
}

/// The low 16 bits of a table's length follow from the low 16 bits of its
/// number of slots.
proof fn lemma_span_low(count: int)
    requires
        0 <= count,
    ensures
        (7 + 9 * (count % 0x10000)) % 0x10000 == (7 + 9 * count) % 0x10000,
{
}

} // verus!
