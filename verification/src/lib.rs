//! The core of a recursive DNS resolver: the wire format of messages, read
//! from and written to a buffer of 512 octets, and the decisions that walk
//! the hierarchy of name servers from a root server down.

pub mod address;
pub mod bytepacketbuffer;
pub mod dns_packet;
pub mod error;
pub mod header;
pub mod name;
pub mod opcodes;
pub mod qtype;
pub mod questions;
pub mod record;
pub mod resolver;
pub mod server;
pub mod wire;
