//! Pools of values that are handed out to owners, each value to one owner
//! at a time.
//!
//! A pool is a named set of values of one type: integers, IPv4 addresses
//! or tokens. Pools are grown from definition texts or filled value by
//! value. Values are allocated to owners and released again in the name of
//! transactions: what a transaction has done is seen by it alone until it
//! commits, and is gone when it rolls back. Two transactions are never
//! handed the same value.
//!
//! The crate also holds the typed identifiers of the entities that own
//! values.

pub mod allocator;
pub mod definition;
pub mod dpa_interface;
pub mod dpu_remediations;
pub mod error;
pub mod extension_service;
pub mod grow;
pub mod instance;
pub mod laws;
pub mod lexer;
pub mod machine;
pub mod measured_boot;
pub mod network;
pub mod nvlink;
pub mod owner;
pub mod populate;
pub mod registry;
pub mod seeds;
pub mod stats;
pub mod store;
pub mod strings;
pub mod transaction;
pub mod typed_uuids;
pub mod vpc;
pub mod vpc_peering;
pub mod value;
