//! DNS wire-format messages (RFC 1035): parsing and serialization, verified.
//!
//! A message is a fixed header of twelve bytes, then questions, then three
//! sections of resource records. Domain names in it are sequences of
//! length-prefixed labels and may end in a compression pointer to an earlier
//! name of the message.
//!
//! - [`domain_name`] holds the label syntax and the codec of names,
//!   [`name_offsets`] the table that compression keeps while a message is
//!   written, [`wire`] the big-endian integers.
//! - [`dns_packet`] holds the header, the questions, the resource records and
//!   the message as a whole, each with its parser and its serializer.
//! - [`resolver`] tells which address a response gives.
//! - [`round_trip`] proves that the parser reads back what the serializer
//!   wrote, [`canonical`] that the serializer writes back a buffer that is
//!   written as it writes, [`jumps`] that the bound on chains of compression
//!   pointers rejects only chains that never end, and that the pointers of a
//!   chain lie one below the other.
//!
//! Every function states what it returns as a function on sequences of bytes
//! and characters: `decode_name` and `name_wire` for names, `rdata_at` and
//! `rdata_wire` for record data, `message_at` and `message_wire` for
//! messages.

use vstd::prelude::*;

pub mod address;
pub mod canonical;
pub mod classes;
pub mod dns_packet;
pub mod domain_name;
pub mod error;
pub mod jumps;
pub mod name_offsets;
pub mod opcodes;
pub mod qclasses;
pub mod qtypes;
pub mod query_examples;
pub mod rcodes;
pub mod resolver;
pub mod round_trip;
pub mod types;
pub mod wire;

verus! {

/// Default DNS protocol port.
pub const DNS_PORT: u8 = 53;

/// The size of a DNS packet header.
pub const DNS_HEADER_SIZE: usize = 12;

} // verus!
