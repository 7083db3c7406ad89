//! A verified client and state machine for an on-chain address lookup table
//! registry.
//!
//! An authority registers the lookup tables it creates in a small directory
//! account (the registry), so that clients can later enumerate them without
//! scanning the chain. This crate provides:
//!
//! - the registry state machine: slot lifecycle, capacity growth and reuse
//!   ([`state`]);
//! - bit-exact codecs for the registry and table account layouts ([`codec`],
//!   [`table`]);
//! - a TTL-bounded cache of decoded registry snapshots ([`cache`]);
//! - the greedy compression engine that substitutes table references for
//!   directly listed accounts ([`engine`]);
//! - a reader client combining the above over an abstract account transport
//!   ([`reader`]).

pub mod addr;
pub mod bytes;
pub mod derivation;
pub mod state;
pub mod codec;
pub mod table;
pub mod common;
pub mod cache;
pub mod engine;
pub mod reader;
pub mod writer;
