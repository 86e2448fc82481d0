//! An append-only, single-file key-value store in the BitCask style.
//!
//! Every mutation appends one checksummed record to a log of bytes; an
//! in-memory index maps each key to the byte offset of its latest record,
//! and reads resolve through the index to a positioned decode. The codec
//! pins the exact wire layout, the engine's contracts pin what every
//! operation returns and how it changes the log and the index, and replaying
//! a log — intact or truncated — is specified byte by byte.
//!
//! A small fixed-point format rounds the crate out: a signed count of 1/128
//! steps, converted from a double's raw bits.

pub mod checksum;
pub mod codec;
pub mod engine;
pub mod fixed_point;
pub mod index;
