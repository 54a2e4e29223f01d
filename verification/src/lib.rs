//! A decision diagram engine with nodes of variable width.
//!
//! Nodes live in an append-only byte arena, each encoded as
//! `[u8 var] LEB128(lo_code) LEB128(hi_code)`, where a child's code is 0 or 1 for
//! a terminal, and two more than the distance back to the child for a node.
//! Diagrams are plain, ordered and reduced: two references of one [`Manager`] are
//! equal exactly if they stand for the same function.
//!
//! - [`leb`], [`codec`] and [`arena`] say what bytes mean: numbers, nodes, and
//!   whole arenas. [`diagram`] says what the nodes mean.
//! - [`apply`], [`memo`] and [`collect`] define the operations on arenas:
//!   if-then-else, if-then-else with a cache, and collection.
//! - [`unique`], [`cache`] and [`manager`] are the engine that carries them out.
//! - [`slab`] and [`dump`] ship diagrams, and [`validate`] checks what arrives.
//! - [`laws`] states what holds of the engine as a whole, and [`format`](mod@format)
//!   what holds of dumps.
//!
//! Offsets are `u64`. [`Slab`] and [`Diff`] are the units of transport in memory;
//! where they are kept is left to the caller.

pub mod apply;
pub mod arena;
pub mod cache;
pub mod codec;
pub mod collect;
pub mod diagram;
pub mod dump;
pub mod format;
pub mod laws;
pub mod leb;
pub mod manager;
pub mod memo;
pub mod node;
pub mod pair;
pub mod profile;
pub mod slab;
pub mod unique;
pub mod validate;
pub mod wire;

pub use codec::{Node, Ref};
pub use dump::{DumpError, LoadedRoots};
pub use manager::{
    apply_cache_patterns, apply_cache_stats, apply_cache_stats_enable, apply_cache_stats_reset,
};
pub use manager::{Manager, ManagerConfig, MemStats, DEFAULT_ITE_CACHE_SLOTS};
pub use slab::{Diff, Slab};
