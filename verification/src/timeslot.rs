//! The time slot: a time increment and the player actions that fall in it.
//!
//! On the wire a time slot is a 16-bit span, the 16-bit time increment, and then
//! the actions, each a player id, a 16-bit length and that many bytes. The span
//! counts the time increment and all the actions.

use vstd::prelude::*;
use crate::cursor::Cursor;
use crate::error::{decodes_as, Context, DecodeError, Parsed, Reason};
use crate::wire::{
    le16, le16_bytes, lemma_le16_roundtrip, lemma_same_prefix, lemma_skip_extend, put_slice,
    put_u16_le, put_u8,
};

verus! {

/// The commands that one player issued in one time slot, not interpreted here.
#[derive(Clone, Debug, PartialEq, Eq)]
pub struct PlayerAction {
    pub player_id: u8,
    pub data: Vec<u8>,
}

pub struct PlayerActionView {
    pub player_id: u8,
    pub data: Seq<u8>,
}

impl View for PlayerAction {
    type V = PlayerActionView;

    open spec fn view(&self) -> PlayerActionView {
        PlayerActionView { player_id: self.player_id, data: self.data@ }
    }
}

impl PlayerActionView {
    /// The payload length fits the 16-bit length field.
    pub open spec fn valid(self) -> bool {
        self.data.len() <= 0xffff
    }

    /// Player id, payload length, payload.
    pub open spec fn wire(self) -> Seq<u8> {
        seq![self.player_id] + le16_bytes((self.data.len() % 0x10000) as u16) + self.data
    }
}

/// The actions one after the other, each in its wire form.
pub open spec fn actions_wire(actions: Seq<PlayerActionView>) -> Seq<u8>
    decreases actions.len(),
{
    if actions.len() == 0 {
        Seq::empty()
    } else {
        actions_wire(actions.drop_last()) + actions.last().wire()
    }
}

/// Every action has a payload that fits its length field.
pub open spec fn actions_valid(actions: Seq<PlayerActionView>) -> bool {
    forall|i: int| 0 <= i < actions.len() ==> (#[trigger] actions[i]).valid()
}

/// Reads actions from `t` until exactly `budget` bytes have been used. An
/// action that would use more than the budget, or more than `t` holds, makes
/// the input malformed; fewer than three bytes where a header must start make
/// it incomplete.
pub open spec fn parse_actions(t: Seq<u8>, budget: int) -> Parsed<Seq<PlayerActionView>>
    decreases t.len(),
{
    if t.len() < 3 {
        Parsed::Fail(DecodeError::Incomplete(Context::PlayerActionHeader))
    } else {
        let len = le16(t.skip(1)) as int;
        if t.len() - 3 < len || budget - 3 - len < 0 {
            Parsed::Fail(DecodeError::Malformed(Reason::InvalidActionDataLength))
        } else {
            let action = PlayerActionView { player_id: t[0], data: t.subrange(3, 3 + len) };
            if budget - 3 - len == 0 {
                Parsed::Done(seq![action], 3 + len)
            } else {
                match parse_actions(t.skip(3 + len), budget - 3 - len) {
                    Parsed::Done(rest, n) => Parsed::Done(seq![action] + rest, 3 + len + n),
                    Parsed::Fail(e) => Parsed::Fail(e),
                }
            }
        }
    }
}

/// A time increment in milliseconds and the actions of that span of time.
#[derive(Clone, Debug, PartialEq, Eq)]
pub struct TimeSlot {
    pub time_increment_ms: u16,
    pub actions: Vec<PlayerAction>,
}

pub struct TimeSlotView {
    pub time_increment_ms: u16,
    pub actions: Seq<PlayerActionView>,
}

impl View for TimeSlot {
    type V = TimeSlotView;

    open spec fn view(&self) -> TimeSlotView {
        TimeSlotView {
            time_increment_ms: self.time_increment_ms,
            actions: self.actions@.map_values(|a: PlayerAction| a@),
        }
    }
}

impl TimeSlotView {
    /// The number that the span field announces: the time increment and all actions.
    pub open spec fn span(self) -> int {
        2 + actions_wire(self.actions).len() as int
    }

    /// Every payload fits its length field and the span fits the span field.
    pub open spec fn valid(self) -> bool {
        &&& actions_valid(self.actions)
        &&& self.span() <= 0xffff
    }

    /// Span, time increment, actions. A span too large for its field is cut to
    /// its low 16 bits.
    pub open spec fn wire(self) -> Seq<u8> {
        le16_bytes((self.span() % 0x10000) as u16) + le16_bytes(self.time_increment_ms)
            + actions_wire(self.actions)
    }

    /// How a byte sequence reads as a time slot.
    #[verifier::opaque]
    pub open spec fn parse(s: Seq<u8>) -> Parsed<TimeSlotView> {
        if s.len() < 4 {
            Parsed::Fail(DecodeError::Incomplete(Context::Field))
        } else {
            let span = le16(s) as int;
            let time_increment_ms = le16(s.skip(2));
            if s.len() - 2 < span {
                Parsed::Fail(DecodeError::Incomplete(Context::ActionData))
            } else if span == 2 {
                Parsed::Done(TimeSlotView { time_increment_ms, actions: Seq::empty() }, 4)
            } else {
                match parse_actions(s.skip(4), span - 2) {
                    Parsed::Done(actions, n) => Parsed::Done(
                        TimeSlotView { time_increment_ms, actions },
                        4 + n,
                    ),
                    Parsed::Fail(e) => Parsed::Fail(e),
                }
            }
        }
    }
}

/// The outcome of reading the rest of a list of which `done` was read in `used` bytes.
pub open spec fn after_actions(
    done: Seq<PlayerActionView>,
    used: int,
    rest: Parsed<Seq<PlayerActionView>>,
) -> Parsed<Seq<PlayerActionView>> {
    match rest {
        Parsed::Done(more, n) => Parsed::Done(done + more, used + n),
        Parsed::Fail(e) => Parsed::Fail(e),
    }
}

/// Adding an action to a span that is kept to its low 16 bits.
proof fn lemma_span_step(total: int, len: int, low: int)
    requires
        0 <= total,
        0 <= len,
        low == total % 0x10000,
    ensures
        (low + 3 + len % 0x10000) % 0x10000 == (total + 3 + len) % 0x10000,
{
}

impl TimeSlot {
    /// Reads a time slot. The span field must be covered by the bytes at hand,
    /// and the actions must end exactly where the span ends.
    pub fn decode(cur: &mut Cursor) -> (r: Result<TimeSlot, DecodeError>)
        ensures
            decodes_as(
                old(cur).remaining(),
                final(cur).remaining(),
                r,
                TimeSlotView::parse(old(cur).remaining()),
            ),
    {
        proof {
            reveal(TimeSlotView::parse);
        }
        let ghost s = cur.remaining();
        if !cur.has(4) {
            return Err(DecodeError::Incomplete(Context::Field));
        }
        let span: u16 = cur.get_u16_le();
        if !cur.has(span as usize) {
            return Err(DecodeError::Incomplete(Context::ActionData));
        }
        let time_increment_ms: u16 = cur.get_u16_le();
        assert(cur.remaining() == s.skip(4)) by {
            assert(s.skip(2).skip(2) =~= s.skip(4));
        }
        let mut actions: Vec<PlayerAction> = Vec::new();
        if span == 2 {
            assert(actions@.map_values(|a: PlayerAction| a@) =~= Seq::empty());
            return Ok(TimeSlot { time_increment_ms, actions });
        }
        let ghost t0 = cur.remaining();
        let ghost b0 = span as int - 2;
        let ghost mut used: int = 0;
        let mut budget: i32 = span as i32 - 2;
        loop
            invariant
                s == old(cur).remaining(),
                s.len() >= 4,
                span == le16(s),
                s.len() - 2 >= span,
                span != 2,
                time_increment_ms == le16(s.skip(2)),
                t0 == s.skip(4),
                b0 == span - 2,
                budget != 0,
                -2 <= budget <= 0xffff,
                0 <= used,
                used <= t0.len(),
                cur.remaining() == t0.skip(used),
                parse_actions(t0, b0) == after_actions(
                    actions@.map_values(|a: PlayerAction| a@),
                    used,
                    parse_actions(cur.remaining(), budget as int),
                ),
            decreases cur.remaining().len(),
        {
            let ghost t = cur.remaining();
            let ghost done = actions@.map_values(|a: PlayerAction| a@);
            proof {
                reveal(TimeSlotView::parse);
            }
            if !cur.has(3) {
                return Err(DecodeError::Incomplete(Context::PlayerActionHeader));
            }
            let player_id: u8 = cur.get_u8();
            let len: u16 = cur.get_u16_le();
            if !cur.has(len as usize) || budget < 3 + len as i32 {
                return Err(DecodeError::Malformed(Reason::InvalidActionDataLength));
            }
            let data: Vec<u8> = cur.take(len as usize);
            proof {
                assert(t.skip(1).skip(2) =~= t.skip(3));
                assert(t.skip(3).take(len as int) =~= t.subrange(3, 3 + len));
                assert(t.skip(3).skip(len as int) =~= t.skip(3 + len));
                assert(t0.skip(used).skip(3 + len) =~= t0.skip(used + 3 + len));
            }
            actions.push(PlayerAction { player_id, data });
            budget = budget - (3 + len as i32);
            proof {
                let action = PlayerActionView { player_id, data: t.subrange(3, 3 + len) };
                let now = actions@.map_values(|a: PlayerAction| a@);
                assert(now =~= done + seq![action]);
                assert forall|more: Seq<PlayerActionView>|
                    done + (seq![action] + more) == now + more by {
                    assert(done + (seq![action] + more) =~= now + more);
                }
                assert(now + Seq::<PlayerActionView>::empty() =~= now);
                used = used + 3 + len;
            }
            if budget == 0 {
                assert(s.skip(4).skip(used) =~= s.skip(4 + used));
                return Ok(TimeSlot { time_increment_ms, actions });
            }
        }
    }

    /// Writes the span, the time increment and the actions.
    pub fn encode(&self, sink: &mut Vec<u8>)
        ensures
            final(sink)@ == old(sink)@ + self@.wire(),
    {
        let ghost acts = self.actions@.map_values(|a: PlayerAction| a@);
        let mut span: u32 = 2;
        let mut i: usize = 0;
        while i < self.actions.len()
            invariant
                i <= self.actions@.len(),
                acts == self.actions@.map_values(|a: PlayerAction| a@),
                span < 0x10000,
                span as int == (2 + actions_wire(acts.take(i as int)).len()) % 0x10000,
            decreases self.actions@.len() - i,
        {
            let len: usize = self.actions[i].data.len();
            proof {
                let before = actions_wire(acts.take(i as int)).len() as int;
                assert(acts.take(i + 1).drop_last() =~= acts.take(i as int));
                assert(acts.take(i + 1).last() == self.actions@[i as int]@);
                assert(actions_wire(acts.take(i + 1)).len() == before + 3 + len);
                lemma_span_step(2 + before, len as int, span as int);
            }
            span = (span + 3 + (len % 0x10000) as u32) % 0x10000;
            i = i + 1;
        }
        assert(acts.take(i as int) =~= acts);
        put_u16_le(sink, span as u16);
        put_u16_le(sink, self.time_increment_ms);
        let ghost base = sink@;
        let mut j: usize = 0;
        while j < self.actions.len()
            invariant
                j <= self.actions@.len(),
                acts == self.actions@.map_values(|a: PlayerAction| a@),
                sink@ == base + actions_wire(acts.take(j as int)),
            decreases self.actions@.len() - j,
        {
            let action = &self.actions[j];
            proof {
                assert(acts.take(j + 1).drop_last() =~= acts.take(j as int));
                assert(acts.take(j + 1).last() == action@);
            }
            put_u8(sink, action.player_id);
            put_u16_le(sink, (action.data.len() % 0x10000) as u16);
            put_slice(sink, action.data.as_slice());
            j = j + 1;
            assert(sink@ =~= base + actions_wire(acts.take(j as int)));
        }
        assert(acts.take(j as int) =~= acts);
        assert(sink@ =~= old(sink)@ + self@.wire());
    }
}

/// The wire form of a list is that of its first action followed by that of the others.
pub proof fn lemma_actions_wire_first(actions: Seq<PlayerActionView>)
    requires
        actions.len() > 0,
    ensures
        actions_wire(actions) == actions[0].wire() + actions_wire(actions.drop_first()),
    decreases actions.len(),
{
    if actions.len() == 1 {
        assert(actions.drop_last() =~= Seq::empty());
        assert(actions.drop_first() =~= Seq::empty());
        assert(actions_wire(actions) =~= actions[0].wire() + actions_wire(actions.drop_first()));
    } else {
        lemma_actions_wire_first(actions.drop_last());
        assert(actions.drop_last().drop_first() =~= actions.drop_first().drop_last());
        assert(actions.drop_first().last() == actions.last());
        assert(actions_wire(actions) =~= actions[0].wire() + actions_wire(actions.drop_first()));
    }
}

/// Reading the wire form of a non-empty list of valid actions, with its length
/// as the budget, gives the list back, whatever follows.
pub proof fn lemma_actions_roundtrip(actions: Seq<PlayerActionView>, tail: Seq<u8>)
    requires
        actions.len() > 0,
        actions_valid(actions),
    ensures
        parse_actions(actions_wire(actions) + tail, actions_wire(actions).len() as int)
            == Parsed::Done(actions, actions_wire(actions).len() as int),
    decreases actions.len(),
{
    let first = actions[0];
    let rest = actions.drop_first();
    let t = actions_wire(actions) + tail;
    let len = first.data.len() as int;
    lemma_actions_wire_first(actions);
    assert(first.valid());
    assert(t.skip(1) =~= le16_bytes(len as u16) + (first.data + actions_wire(rest) + tail));
    lemma_le16_roundtrip(len as u16, first.data + actions_wire(rest) + tail);
    assert(t[0] == first.player_id);
    assert(t.subrange(3, 3 + len) =~= first.data);
    assert(t.skip(3 + len) =~= actions_wire(rest) + tail);
    if rest.len() == 0 {
        assert(actions =~= seq![first]);
    } else {
        assert(actions_valid(rest)) by {
            assert forall|i: int| 0 <= i < rest.len() implies (#[trigger] rest[i]).valid() by {
                assert(rest[i] == actions[i + 1]);
            }
        }
        lemma_actions_wire_first(rest);
        lemma_actions_roundtrip(rest, tail);
        assert(actions =~= seq![first] + rest);
    }
}

/// The actions that were read are valid, and their wire form is as long as
/// what was read.
pub proof fn lemma_actions_parsed(t: Seq<u8>, budget: int)
    requires
        parse_actions(t, budget) is Done,
    ensures
        actions_valid(parse_actions(t, budget)->Done_0),
        actions_wire(parse_actions(t, budget)->Done_0).len() == parse_actions(t, budget)->Done_1,
    decreases t.len(),
{
    let len = le16(t.skip(1)) as int;
    let actions = parse_actions(t, budget)->Done_0;
    let first = PlayerActionView { player_id: t[0], data: t.subrange(3, 3 + len) };
    lemma_actions_wire_first(actions);
    assert(actions[0] == first);
    if budget - 3 - len != 0 {
        let rest = parse_actions(t.skip(3 + len), budget - 3 - len)->Done_0;
        lemma_actions_parsed(t.skip(3 + len), budget - 3 - len);
        assert(actions.drop_first() =~= rest);
        assert forall|i: int| 0 <= i < actions.len() implies (#[trigger] actions[i]).valid() by {
            if i > 0 {
                assert(actions[i] == rest[i - 1]);
            }
        }
    } else {
        assert(actions.drop_first() =~= Seq::<PlayerActionView>::empty());
    }
}

/// A list that is malformed within a budget that is at hand stays so,
/// whatever follows it.
pub proof fn lemma_actions_malformed_final(t: Seq<u8>, x: Seq<u8>, budget: int)
    requires
        parse_actions(t, budget).rejects(),
        budget <= t.len(),
    ensures
        parse_actions(t + x, budget) == parse_actions(t, budget),
    decreases t.len(),
{
    let z = t + x;
    let len = le16(t.skip(1)) as int;
    lemma_skip_extend(t, x, 1);
    assert(le16(z.skip(1)) == le16(t.skip(1)));
    if !(t.len() - 3 < len || budget - 3 - len < 0) {
        assert(z.subrange(3, 3 + len) =~= t.subrange(3, 3 + len));
        lemma_skip_extend(t, x, 3 + len);
        lemma_actions_malformed_final(t.skip(3 + len), x, budget - 3 - len);
    }
}

/// A list that reads within a budget uses exactly the budget.
pub proof fn lemma_actions_size(t: Seq<u8>, budget: int)
    requires
        parse_actions(t, budget) is Done,
    ensures
        parse_actions(t, budget)->Done_1 == budget,
        3 <= budget <= t.len(),
    decreases t.len(),
{
    let len = le16(t.skip(1)) as int;
    if budget - 3 - len != 0 {
        lemma_actions_size(t.skip(3 + len), budget - 3 - len);
    }
}

/// A list that was read reads the same from any input that agrees on the
/// bytes it took.
pub proof fn lemma_actions_local(t: Seq<u8>, z: Seq<u8>, budget: int)
    requires
        parse_actions(t, budget) is Done,
        z.len() >= budget,
        z.take(budget) == t.take(budget),
    ensures
        parse_actions(z, budget) == parse_actions(t, budget),
    decreases t.len(),
{
    let len = le16(t.skip(1)) as int;
    lemma_actions_size(t, budget);
    lemma_same_prefix(z, t, budget);
    assert(le16(z.skip(1)) == le16(t.skip(1)));
    assert(z.subrange(3, 3 + len) =~= t.subrange(3, 3 + len));
    if budget - 3 - len != 0 {
        let m = budget - 3 - len;
        assert(z.skip(3 + len).take(m) =~= t.skip(3 + len).take(m));
        lemma_actions_local(t.skip(3 + len), z.skip(3 + len), m);
    }
}

/// A budget that ends inside an action, and not between two, is an error:
/// the list is never cut short in silence.
pub proof fn lemma_actions_guard(actions: Seq<PlayerActionView>, tail: Seq<u8>, budget: int)
    requires
        actions.len() > 0,
        actions_valid(actions),
        budget < actions_wire(actions).len(),
        forall|k: int|
            0 <= k <= actions.len() ==> actions_wire(#[trigger] actions.take(k)).len() != budget,
    ensures
        parse_actions(actions_wire(actions) + tail, budget) == Parsed::<
            Seq<PlayerActionView>,
        >::Fail(DecodeError::Malformed(Reason::InvalidActionDataLength)),
    decreases actions.len(),
{
    let first = actions[0];
    let rest = actions.drop_first();
    let t = actions_wire(actions) + tail;
    let len = first.data.len() as int;
    lemma_actions_wire_first(actions);
    assert(first.valid());
    assert(t.skip(1) =~= le16_bytes(len as u16) + (first.data + actions_wire(rest) + tail));
    lemma_le16_roundtrip(len as u16, first.data + actions_wire(rest) + tail);
    assert(t.skip(3 + len) =~= actions_wire(rest) + tail);
    assert(actions_wire(actions.take(1)).len() == 3 + len) by {
        assert(actions.take(1) =~= seq![first]);
        lemma_actions_wire_first(seq![first]);
        assert(seq![first].drop_first() =~= Seq::<PlayerActionView>::empty());
    }
    if budget - 3 - len > 0 {
        assert(rest.len() > 0) by {
            if rest.len() == 0 {
                assert(actions_wire(rest).len() == 0);
            }
        }
        assert(actions_valid(rest)) by {
            assert forall|i: int| 0 <= i < rest.len() implies (#[trigger] rest[i]).valid() by {
                assert(rest[i] == actions[i + 1]);
            }
        }
        assert forall|k: int| 0 <= k <= rest.len() implies actions_wire(
            #[trigger] rest.take(k),
        ).len() != budget - 3 - len by {
            let longer = actions.take(k + 1);
            assert(longer.drop_first() =~= rest.take(k));
            assert(longer[0] == first);
            lemma_actions_wire_first(longer);
        }
        lemma_actions_guard(rest, tail, budget - 3 - len);
    }
}

/// The parts of the wire form of a time slot: the span, the time increment,
/// and what follows them.
proof fn lemma_header(span: u16, time_increment_ms: u16, rest: Seq<u8>)
    ensures
        ({
            let s = le16_bytes(span) + le16_bytes(time_increment_ms) + rest;
            &&& s.len() == 4 + rest.len()
            &&& le16(s) == span
            &&& le16(s.skip(2)) == time_increment_ms
            &&& s.skip(4) == rest
        }),
{
    let s = le16_bytes(span) + le16_bytes(time_increment_ms) + rest;
    let body = le16_bytes(time_increment_ms) + rest;
    assert(s =~= le16_bytes(span) + body);
    lemma_le16_roundtrip(span, body);
    assert(s.skip(2) =~= body);
    lemma_le16_roundtrip(time_increment_ms, rest);
    assert(s.skip(4) =~= rest);
}

impl TimeSlotView {
    /// Decoding what was encoded gives the time slot back and stops right
    /// behind it, whatever follows.
    pub proof fn lemma_roundtrip(self, tail: Seq<u8>)
        requires
            self.valid(),
        ensures
            Self::parse(self.wire() + tail) == Parsed::Done(self, self.wire().len() as int),
    {
        let s = self.wire() + tail;
        let span = self.span() as u16;
        let rest = actions_wire(self.actions) + tail;
        lemma_header(span, self.time_increment_ms, rest);
        assert(s =~= le16_bytes(span) + le16_bytes(self.time_increment_ms) + rest);
        if self.actions.len() == 0 {
            assert(self.actions =~= Seq::empty());
        } else {
            lemma_actions_wire_first(self.actions);
            lemma_actions_roundtrip(self.actions, tail);
        }
        assert(Self::parse(s) == Parsed::Done(self, self.wire().len() as int)) by {
            reveal(TimeSlotView::parse);
        }
    }

    /// A proper prefix of an encoded time slot asks for more bytes.
    pub proof fn lemma_prefix(self, p: Seq<u8>)
        requires
            self.valid(),
            p.len() < self.wire().len(),
            p == self.wire().take(p.len() as int),
        ensures
            Self::parse(p).wants_more(),
    {
        reveal(TimeSlotView::parse);
        if p.len() >= 4 {
            let w = self.wire();
            assert(p[0] == w[0] && p[1] == w[1]);
            lemma_le16_roundtrip(
                self.span() as u16,
                le16_bytes(self.time_increment_ms) + actions_wire(self.actions),
            );
            assert(w =~= le16_bytes(self.span() as u16) + (le16_bytes(self.time_increment_ms)
                + actions_wire(self.actions)));
            assert(le16(p) == le16(w));
        }
    }

    /// An input that is malformed stays so, whatever follows it.
    pub proof fn lemma_malformed_final(s: Seq<u8>, t: Seq<u8>)
        requires
            Self::parse(s).rejects(),
        ensures
            Self::parse(s + t) == Self::parse(s),
    {
        reveal(TimeSlotView::parse);
        let z = s + t;
        let span = le16(s) as int;
        lemma_skip_extend(s, t, 2);
        lemma_skip_extend(s, t, 4);
        assert(le16(z) == le16(s));
        assert(le16(z.skip(2)) == le16(s.skip(2)));
        lemma_actions_malformed_final(s.skip(4), t, span - 2);
    }

    /// A time slot that was read is valid.
    pub proof fn lemma_parsed_valid(s: Seq<u8>)
        requires
            Self::parse(s) is Done,
        ensures
            Self::parse(s)->Done_0.valid(),
    {
        reveal(TimeSlotView::parse);
        let span = le16(s) as int;
        if span != 2 {
            lemma_actions_parsed(s.skip(4), span - 2);
            lemma_actions_size(s.skip(4), span - 2);
        }
    }

    /// A time slot that was read took its span and two bytes more.
    pub proof fn lemma_size(s: Seq<u8>)
        requires
            Self::parse(s) is Done,
        ensures
            4 <= Self::parse(s)->Done_1 <= s.len(),
            Self::parse(s)->Done_1 == 2 + le16(s),
    {
        reveal(TimeSlotView::parse);
        let span = le16(s) as int;
        if span != 2 {
            lemma_actions_size(s.skip(4), span - 2);
        }
    }

    /// A time slot that was read reads the same from any input that agrees on
    /// the bytes it took.
    pub proof fn lemma_local(s: Seq<u8>, z: Seq<u8>)
        requires
            Self::parse(s) is Done,
            z.len() >= Self::parse(s)->Done_1,
            z.take(Self::parse(s)->Done_1) == s.take(Self::parse(s)->Done_1),
        ensures
            Self::parse(z) == Self::parse(s),
    {
        reveal(TimeSlotView::parse);
        let n = Self::parse(s)->Done_1;
        let span = le16(s) as int;
        Self::lemma_size(s);
        lemma_same_prefix(z, s, n);
        assert(le16(z) == le16(s));
        assert(le16(z.skip(2)) == le16(s.skip(2)));
        if span != 2 {
            assert(z.skip(4).take(n - 4) =~= s.skip(4).take(n - 4));
            lemma_actions_local(s.skip(4), z.skip(4), span - 2);
        }
    }

    /// A span that is declared smaller than the actions behind it, and that
    /// ends inside one of them, makes the time slot malformed.
    pub proof fn lemma_action_length_guard(
        span: u16,
        time_increment_ms: u16,
        actions: Seq<PlayerActionView>,
        tail: Seq<u8>,
    )
        requires
            actions.len() > 0,
            actions_valid(actions),
            span - 2 < actions_wire(actions).len(),
            forall|k: int|
                0 <= k <= actions.len() ==> actions_wire(#[trigger] actions.take(k)).len() != span
                    - 2,
        ensures
            Self::parse(
                le16_bytes(span) + le16_bytes(time_increment_ms) + actions_wire(actions) + tail,
            ) == Parsed::<TimeSlotView>::Fail(
                DecodeError::Malformed(Reason::InvalidActionDataLength),
            ),
    {
        let s = le16_bytes(span) + le16_bytes(time_increment_ms) + actions_wire(actions) + tail;
        let rest = actions_wire(actions) + tail;
        lemma_header(span, time_increment_ms, rest);
        assert(s =~= le16_bytes(span) + le16_bytes(time_increment_ms) + rest);
        assert(actions_wire(actions.take(0)).len() == 0) by {
            assert(actions.take(0) =~= Seq::<PlayerActionView>::empty());
        }
        lemma_actions_guard(actions, tail, span - 2);
        assert(Self::parse(s) == Parsed::<TimeSlotView>::Fail(
            DecodeError::Malformed(Reason::InvalidActionDataLength),
        )) by {
            reveal(TimeSlotView::parse);
        }
    }
}

/// A time slot that was too long for one record and goes on in the next.
#[derive(Clone, Debug, PartialEq, Eq)]
pub struct TimeSlotFragment(pub TimeSlot);

impl View for TimeSlotFragment {
    type V = TimeSlotView;

    open spec fn view(&self) -> TimeSlotView {
        self.0@
    }
}

impl TimeSlotFragment {
    /// Reads a fragment: it has the layout of a time slot.
    pub fn decode(cur: &mut Cursor) -> (r: Result<TimeSlotFragment, DecodeError>)
        ensures
            decodes_as(
                old(cur).remaining(),
                final(cur).remaining(),
                r,
                TimeSlotView::parse(old(cur).remaining()),
            ),
    {
        proof {
            reveal(TimeSlotView::parse);
        }
        match TimeSlot::decode(cur) {
            Ok(slot) => Ok(TimeSlotFragment(slot)),
            Err(e) => Err(e),
        }
    }

    /// Writes the fragment.
    pub fn encode(&self, sink: &mut Vec<u8>)
        ensures
            final(sink)@ == old(sink)@ + self@.wire(),
    {
        self.0.encode(sink);
    }
}

} // verus!
