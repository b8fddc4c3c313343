//! Streaming codec for Warcraft III replay records.
//!
//! A replay is delivered as a sequence of blocks, and a record may begin near
//! the end of one block and finish at the start of the next. This crate holds
//! the record types with their binary layouts, a byte cursor over two adjacent
//! byte ranges, and the reassembly machine that carries the unread tail of one
//! block over to the next.

pub mod wire;
pub mod error;
pub mod cursor;
pub mod timeslot;
pub mod player;
pub mod game;
pub mod sync;
pub mod slot;
pub mod chat;
pub mod protobuf;
pub mod record;
pub mod reassembly;
pub mod stream;
pub mod request;

