//! Reassembly of records from blocks.
//!
//! Records are not aligned to blocks. The machine decodes the records of a
//! block one by one. When a record does not end within the block, the unread
//! tail of the block is carried over and put in front of the next block. A
//! tail comes from one block only: a record that does not fit into a tail and
//! one whole block behind it ends the stream with an error.

use vstd::prelude::*;
use crate::cursor::Cursor;
use crate::error::{DecodeError, Parsed, Reason};
use crate::record::{Record, RecordView};

verus! {

/// What the block supplier answers when it is asked for the next block.
#[derive(Clone, Debug, PartialEq, Eq)]
pub enum Supply {
    /// The bytes of the next block.
    Block(Vec<u8>),
    /// The supplier failed; the text says how.
    Failed(String),
    /// There are no more blocks.
    End,
}

pub enum SupplyView {
    Block(Seq<u8>),
    Failed(String),
    End,
}

impl View for Supply {
    type V = SupplyView;

    open spec fn view(&self) -> SupplyView {
        match self {
            Supply::Block(bytes) => SupplyView::Block(bytes@),
            Supply::Failed(message) => SupplyView::Failed(*message),
            Supply::End => SupplyView::End,
        }
    }
}

/// What the sequence yields at one step: a record, an error, or `None` at its end.
pub type Item = Option<Result<Record, DecodeError>>;

pub type ItemView = Option<Result<RecordView, DecodeError>>;

/// The view of an item: the record by its view, the rest as it is.
pub open spec fn item_view(item: Item) -> ItemView {
    match item {
        Some(Ok(record)) => Some(Ok(record@)),
        Some(Err(e)) => Some(Err(e)),
        None => None,
    }
}

/// What a step of the machine comes to.
#[derive(Clone, Debug, PartialEq, Eq)]
pub enum Poll {
    /// The next item of the sequence.
    Ready(Item),
    /// The machine needs the supplier's next answer before it can go on.
    NeedBlock,
}

/// Where the machine stands.
pub enum Phase {
    /// No block has been asked for yet.
    Initial,
    /// `rest` is the unread part of the current block; it starts a record.
    Decoding { rest: Seq<u8> },
    /// The current block is used up, or only padding is left of it.
    BlockDone,
    /// `tail` is the unread end of the last block, the start of a record that
    /// goes on in the next block.
    Carry { tail: Seq<u8> },
    /// The sequence is over, normally or with the error kept here.
    Terminal { outcome: Option<DecodeError> },
}

impl Phase {
    /// The machine waits for the supplier's answer.
    pub open spec fn awaits_block(self) -> bool {
        self is Initial || self is BlockDone || self is Carry
    }

    /// The bytes that are put in front of the next block.
    pub open spec fn carried(self) -> Seq<u8> {
        match self {
            Phase::Carry { tail } => tail,
            _ => Seq::empty(),
        }
    }

    /// The phase behind a record when `rest` is left of the block: more
    /// records if a byte other than zero follows, else the block is done.
    pub open spec fn after_record(rest: Seq<u8>) -> Phase {
        if rest.len() > 0 && rest[0] != 0 {
            Phase::Decoding { rest }
        } else {
            Phase::BlockDone
        }
    }

    /// The phase and the item that end the sequence with `e`.
    pub open spec fn fail(e: DecodeError) -> (ItemView, Phase) {
        (Some(Err(e)), Phase::Terminal { outcome: Some(e) })
    }

    /// A step without the supplier. Within a block the next record is read:
    /// it is yielded, or its error ends the sequence, or, where it is
    /// incomplete, the rest of the block becomes the carried tail and a block
    /// is asked for (`None`). A machine that waits for a block asks again, and
    /// a sequence that is over yields its outcome again.
    pub open spec fn poll(self) -> (Option<ItemView>, Phase) {
        match self {
            Phase::Decoding { rest } => match RecordView::parse(rest) {
                Parsed::Done(record, n) => (
                    Some(Some(Ok(record))),
                    Phase::after_record(rest.skip(n)),
                ),
                Parsed::Fail(e) => if e is Incomplete {
                    (None, Phase::Carry { tail: rest })
                } else {
                    (Some(Self::fail(e).0), Self::fail(e).1)
                },
            },
            Phase::Terminal { outcome } => (
                Some(
                    match outcome {
                        Some(e) => Some(Err(e)),
                        None => None,
                    },
                ),
                self,
            ),
            _ => (None, self),
        }
    }

    /// The step that takes the supplier's answer, for a machine that waits
    /// for it. Without a further block the sequence ends: normally if nothing
    /// was carried, as truncated otherwise. A failure of the supplier ends it
    /// with that failure. A block is read behind the carried tail: its first
    /// record is yielded, and a record that is incomplete even so is taken to
    /// be larger than a block.
    pub open spec fn supply(self, supply: SupplyView) -> (ItemView, Phase) {
        match supply {
            SupplyView::End => if self.carried().len() == 0 {
                (None, Phase::Terminal { outcome: None })
            } else {
                Self::fail(DecodeError::Malformed(Reason::TruncatedStream))
            },
            SupplyView::Failed(message) => Self::fail(
                DecodeError::Malformed(Reason::ReadBlock(message)),
            ),
            SupplyView::Block(bytes) => match RecordView::parse(self.carried() + bytes) {
                Parsed::Done(record, n) => (
                    Some(Ok(record)),
                    Phase::after_record((self.carried() + bytes).skip(n)),
                ),
                Parsed::Fail(e) => if e is Incomplete {
                    Self::fail(DecodeError::Malformed(Reason::RecordLargerThanBlock))
                } else {
                    Self::fail(e)
                },
            },
        }
    }

    /// A number that falls with every record read within a block.
    pub open spec fn pending(self) -> nat {
        match self {
            Phase::Decoding { rest } => rest.len() + 1,
            _ => 0,
        }
    }
}

enum State {
    Initial,
    Decoding { block: Vec<u8>, pos: usize },
    BlockDone,
    Carry { tail: Vec<u8> },
    Terminal { outcome: Option<DecodeError> },
}

/// The reassembly machine. It yields the records of a sequence of blocks one
/// by one and asks for the blocks as it needs them.
pub struct RecordIter {
    state: State,
}

impl View for RecordIter {
    type V = Phase;

    closed spec fn view(&self) -> Phase {
        match self.state {
            State::Initial => Phase::Initial,
            State::Decoding { block, pos } => Phase::Decoding { rest: block@.skip(pos as int) },
            State::BlockDone => Phase::BlockDone,
            State::Carry { tail } => Phase::Carry { tail: tail@ },
            State::Terminal { outcome } => Phase::Terminal { outcome },
        }
    }
}

impl RecordIter {
    #[verifier::type_invariant]
    spec fn inv(self) -> bool {
        match self.state {
            State::Decoding { block, pos } => pos < block@.len() && block@[pos as int] != 0,
            State::Carry { tail } => tail@.len() > 0 && RecordView::parse(tail@).wants_more(),
            _ => true,
        }
    }

    /// A machine that has not asked for a block yet.
    pub fn new() -> (it: RecordIter)
        ensures
            it@ == Phase::Initial,
    {
        RecordIter { state: State::Initial }
    }

    /// Whether the machine waits for the supplier's answer.
    pub fn needs_block(&self) -> (b: bool)
        ensures
            b == self@.awaits_block(),
    {
        match &self.state {
            State::Initial => true,
            State::BlockDone => true,
            State::Carry { .. } => true,
            _ => false,
        }
    }

    /// The state behind a record that ended `at` bytes into `block`, where
    /// `next` is the byte that follows it in the block, if there is one.
    fn settle(block: Vec<u8>, at: usize, next: Option<u8>) -> (state: State)
        requires
            at <= block@.len(),
            next == if at < block@.len() {
                Some(block@[at as int])
            } else {
                None
            },
        ensures
            (RecordIter { state })@ == Phase::after_record(block@.skip(at as int)),
            (RecordIter { state }).inv(),
    {
        match next {
            Some(b) => if b != 0 {
                State::Decoding { block, pos: at }
            } else {
                State::BlockDone
            },
            None => State::BlockDone,
        }
    }

    /// Ends the sequence with `e`.
    fn fail(&mut self, e: DecodeError) -> (item: Item)
        ensures
            item_view(item) == Phase::fail(e).0,
            final(self)@ == Phase::fail(e).1,
    {
        self.state = State::Terminal { outcome: Some(e.duplicate()) };
        Some(Err(e))
    }

    /// A step without the supplier: the next item, or the demand for a block.
    pub fn poll(&mut self) -> (r: Poll)
        ensures
            match old(self)@.poll().0 {
                Some(item) => r matches Poll::Ready(x) && item_view(x) == item,
                None => r is NeedBlock,
            },
            final(self)@ == old(self)@.poll().1,
    {
        proof {
            use_type_invariant(&*self);
        }
        let mut state = State::BlockDone;
        core::mem::swap(&mut self.state, &mut state);
        match state {
            State::Decoding { mut block, pos } => {
                let ghost rest = block@.skip(pos as int);
                let total = block.len();
                let mut cur = Cursor::starting_at(block.as_slice(), pos);
                match Record::decode(&mut cur) {
                    Ok(record) => {
                        let left = cur.remaining_len();
                        let next = cur.peek_u8();
                        proof {
                            let n = RecordView::parse(rest)->Done_1;
                            assert(rest.skip(n) =~= block@.skip(total - left));
                        }
                        self.state = Self::settle(block, total - left, next);
                        Poll::Ready(Some(Ok(record)))
                    },
                    Err(e) => {
                        if e.is_incomplete() {
                            let tail = block.split_off(pos);
                            assert(tail@ =~= rest);
                            self.state = State::Carry { tail };
                            Poll::NeedBlock
                        } else {
                            Poll::Ready(self.fail(e))
                        }
                    },
                }
            },
            State::Terminal { outcome } => {
                let item: Item = match &outcome {
                    Some(e) => Some(Err(e.duplicate())),
                    None => None,
                };
                self.state = State::Terminal { outcome };
                Poll::Ready(item)
            },
            other => {
                self.state = other;
                Poll::NeedBlock
            },
        }
    }
}

impl RecordIter {
    /// The step that takes the supplier's answer. A machine that does not
    /// wait for one hands the answer back and stays as it is.
    pub fn supply(&mut self, supply: Supply) -> (r: Result<Item, Supply>)
        ensures
            old(self)@.awaits_block() ==> {
                &&& r matches Ok(item)
                &&& item_view(item) == old(self)@.supply(supply@).0
                &&& final(self)@ == old(self)@.supply(supply@).1
            },
            !old(self)@.awaits_block() ==> r == Err::<Item, Supply>(supply) && final(self)@ == old(
                self,
            )@,
    {
        proof {
            use_type_invariant(&*self);
        }
        if !self.needs_block() {
            return Err(supply);
        }
        let mut state = State::BlockDone;
        core::mem::swap(&mut self.state, &mut state);
        let tail: Vec<u8> = match state {
            State::Carry { tail } => tail,
            _ => Vec::new(),
        };
        match supply {
            Supply::End => {
                if tail.len() == 0 {
                    self.state = State::Terminal { outcome: None };
                    Ok(None)
                } else {
                    Ok(self.fail(DecodeError::Malformed(Reason::TruncatedStream)))
                }
            },
            Supply::Failed(message) => Ok(
                self.fail(DecodeError::Malformed(Reason::ReadBlock(message))),
            ),
            Supply::Block(block) => {
                let ghost s = tail@ + block@;
                let total = block.len();
                let mut cur = Cursor::new(tail.as_slice(), block.as_slice());
                match Record::decode(&mut cur) {
                    Ok(record) => {
                        let left = cur.remaining_len();
                        let next = cur.peek_u8();
                        proof {
                            let n = RecordView::parse(s)->Done_1;
                            lemma_reads_past_carry(tail@, block@);
                            assert(s.skip(n) =~= block@.skip(n - tail@.len()));
                        }
                        self.state = Self::settle(block, total - left, next);
                        Ok(Some(Ok(record)))
                    },
                    Err(e) => {
                        if e.is_incomplete() {
                            Ok(self.fail(DecodeError::Malformed(Reason::RecordLargerThanBlock)))
                        } else {
                            Ok(self.fail(e))
                        }
                    },
                }
            },
        }
    }
}

/// A record that is read from a carried tail and a block behind it ends in
/// the block: the tail alone was incomplete, and what a record reads depends
/// only on the bytes it takes.
pub proof fn lemma_reads_past_carry(tail: Seq<u8>, block: Seq<u8>)
    requires
        tail.len() > 0 ==> RecordView::parse(tail).wants_more(),
        RecordView::parse(tail + block) is Done,
    ensures
        tail.len() < RecordView::parse(tail + block)->Done_1 <= tail.len() + block.len(),
{
    let s = tail + block;
    let n = RecordView::parse(s)->Done_1;
    RecordView::lemma_size(s);
    if n <= tail.len() {
        assert(tail.take(n) =~= s.take(n));
        RecordView::lemma_local(s, tail);
    }
}

} // verus!
