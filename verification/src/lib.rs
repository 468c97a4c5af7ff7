//! A mark-sweep collected space backed by a general-purpose allocator.
//!
//! The space hands out blocks from a model of the process allocator, tracks
//! every object through side metadata (alloc bits, mark bits, page marks,
//! chunk marks, offset-malloc bits), and sweeps dead objects chunk by chunk
//! with exact byte accounting.

pub mod layout;
pub mod acct;
pub mod meta;
pub mod adapter;
pub mod sft;
pub mod queue;
pub mod space;
