//! Pool allocators for packed ternary data: a fixed-size block pool, a buddy allocator, a
//! trit-word allocator, and a buddy-backed pool with statistics.
//!
//! Each allocator has a mathematical state, given by its view, and an invariant `wf`. The
//! contracts say what an operation does to the state; the `law_` functions say what holds of
//! every state, and of operations that follow each other.

pub mod arith;
pub mod block;
pub mod buddy;
pub mod buddy_effects;
pub mod buddy_laws;
pub mod buddy_state;
pub mod lists;
pub mod pool;
pub mod pool_laws;
pub mod regions;
pub mod statistics;
pub mod ternary;
pub mod ternary_effects;
pub mod ternary_laws;
pub mod tiling;
pub mod totals;

pub use block::BlockAllocator;
pub use buddy::BuddyAllocator;
pub use pool::MemoryPool;
pub use regions::TRITS_PER_WORD;
pub use statistics::PoolStatistics;
pub use ternary::TernaryAllocator;
