//! Failures of a decode attempt.

use vstd::prelude::*;

verus! {

/// The step that ran out of bytes.
#[derive(Clone, Copy, Debug, PartialEq, Eq)]
pub enum Context {
    /// A fixed-size field, a terminated string or a length-prefixed payload.
    Field,
    /// The declared span of a time slot reaches past the available bytes.
    ActionData,
    /// Fewer than three bytes are left where a player action must start.
    PlayerActionHeader,
}

/// Why a byte stream can never decode, however many bytes follow.
#[derive(Clone, Debug, PartialEq, Eq)]
pub enum Reason {
    /// The type code is none of the fourteen known ones.
    UnknownRecordTypeId(u8),
    /// A field with a fixed value holds another one.
    UnexpectedValue { expected: u32, found: u32 },
    /// A player action is declared to reach past the end of its time slot.
    InvalidActionDataLength,
    /// The chat message did not fill the length announced for it.
    UnexpectedChatMessageLength,
    /// The chat message starts with a flag that is neither lobby nor in-game.
    UnknownChatFlag(u8),
    /// The slot table did not fill the length announced for it.
    UnexpectedSlotDataLength,
    /// A record did not fit even with a whole fresh block behind the carry.
    RecordLargerThanBlock,
    /// The blocks ended in the middle of a record.
    TruncatedStream,
    /// The block supplier failed; the text is its message.
    ReadBlock(String),
}

/// The two ways a decode attempt fails.
#[derive(Clone, Debug, PartialEq, Eq)]
pub enum DecodeError {
    /// More bytes are needed; the attempt may succeed on a longer input.
    Incomplete(Context),
    /// The bytes are structurally invalid.
    Malformed(Reason),
}

impl Context {
    /// The step in words.
    pub open spec fn label_text(self) -> Seq<char> {
        match self {
            Context::Field => "Field"@,
            Context::ActionData => "Action data"@,
            Context::PlayerActionHeader => "PlayerAction header"@,
        }
    }

    /// The step in words.
    pub fn label(&self) -> (text: &'static str)
        ensures
            text@ == self.label_text(),
    {
        match self {
            Context::Field => "Field",
            Context::ActionData => "Action data",
            Context::PlayerActionHeader => "PlayerAction header",
        }
    }
}

impl Reason {
    /// The reason in words, without the value that it may carry.
    pub open spec fn message_text(self) -> Seq<char> {
        match self {
            Reason::UnknownRecordTypeId(_) => "unknown record type id"@,
            Reason::UnexpectedValue { .. } => "unexpected value"@,
            Reason::InvalidActionDataLength => "invalid action data length"@,
            Reason::UnexpectedChatMessageLength => "unexpected chat message length"@,
            Reason::UnknownChatFlag(_) => "unknown chat message flag"@,
            Reason::UnexpectedSlotDataLength => "unexpected slot data length"@,
            Reason::RecordLargerThanBlock => "record larger than the block"@,
            Reason::TruncatedStream => "stream truncated mid-record"@,
            Reason::ReadBlock(_) => "read block"@,
        }
    }

    /// The reason in words, without the value that it may carry.
    pub fn message(&self) -> (text: &'static str)
        ensures
            text@ == self.message_text(),
    {
        match self {
            Reason::UnknownRecordTypeId(_) => "unknown record type id",
            Reason::UnexpectedValue { .. } => "unexpected value",
            Reason::InvalidActionDataLength => "invalid action data length",
            Reason::UnexpectedChatMessageLength => "unexpected chat message length",
            Reason::UnknownChatFlag(_) => "unknown chat message flag",
            Reason::UnexpectedSlotDataLength => "unexpected slot data length",
            Reason::RecordLargerThanBlock => "record larger than the block",
            Reason::TruncatedStream => "stream truncated mid-record",
            Reason::ReadBlock(_) => "read block",
        }
    }

    /// A copy of the reason, equal to it.
    pub fn duplicate(&self) -> (r: Reason)
        ensures
            r == *self,
    {
        match self {
            Reason::UnknownRecordTypeId(code) => Reason::UnknownRecordTypeId(*code),
            Reason::UnexpectedValue { expected, found } => Reason::UnexpectedValue {
                expected: *expected,
                found: *found,
            },
            Reason::InvalidActionDataLength => Reason::InvalidActionDataLength,
            Reason::UnexpectedChatMessageLength => Reason::UnexpectedChatMessageLength,
            Reason::UnknownChatFlag(flag) => Reason::UnknownChatFlag(*flag),
            Reason::UnexpectedSlotDataLength => Reason::UnexpectedSlotDataLength,
            Reason::RecordLargerThanBlock => Reason::RecordLargerThanBlock,
            Reason::TruncatedStream => Reason::TruncatedStream,
            Reason::ReadBlock(message) => Reason::ReadBlock(message.clone()),
        }
    }
}

impl DecodeError {
    /// Whether more bytes might still turn the failure into a success.
    pub open spec fn incomplete(&self) -> bool {
        self is Incomplete
    }

    #[verifier::when_used_as_spec(incomplete)]
    pub fn is_incomplete(&self) -> (b: bool)
        ensures
            b == self.incomplete(),
    {
        match self {
            DecodeError::Incomplete(_) => true,
            DecodeError::Malformed(_) => false,
        }
    }

    /// A copy of the error, equal to it.
    pub fn duplicate(&self) -> (r: DecodeError)
        ensures
            r == *self,
    {
        match self {
            DecodeError::Incomplete(context) => DecodeError::Incomplete(*context),
            DecodeError::Malformed(reason) => DecodeError::Malformed(reason.duplicate()),
        }
    }
}

/// What decoding a byte sequence comes to: a value with the number of bytes it
/// took, or a failure.
pub enum Parsed<V> {
    Done(V, int),
    Fail(DecodeError),
}

impl<V> Parsed<V> {
    /// The outcome asks for more bytes.
    pub open spec fn wants_more(self) -> bool {
        self matches Parsed::Fail(e) && e is Incomplete
    }

    /// The outcome is a permanent failure.
    pub open spec fn rejects(self) -> bool {
        self matches Parsed::Fail(e) && e is Malformed
    }
}

/// What a decoder that ran on `before` owes when the layout reads it as
/// `expected`: the value whose view is the expected one with the stream moved
/// past it, or the expected error. After an error the position is left open.
pub open spec fn decodes_as<T: View>(
    before: Seq<u8>,
    after: Seq<u8>,
    result: Result<T, DecodeError>,
    expected: Parsed<T::V>,
) -> bool {
    match expected {
        Parsed::Done(value, consumed) => {
            &&& result matches Ok(x)
            &&& x@ == value
            &&& 0 <= consumed <= before.len()
            &&& after == before.skip(consumed)
        },
        Parsed::Fail(e) => result == Err::<T, DecodeError>(e),
    }
}

} // verus!
