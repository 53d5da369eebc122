//! Verified model of the ctzn.city staking contract: its storage, its reward
//! rules and its endpoints, written as transitions on plain values.

pub mod amount;
pub mod structs;
pub mod bytes;
pub mod storage;
pub mod error;
pub mod codec;
pub mod common;
pub mod context;
pub mod utils;
pub mod contract;
pub mod laws;
