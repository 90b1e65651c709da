//! A container of wake handles whose nodes are recycled through a pool of
//! free slots instead of being handed back to the allocator.
//!
//! Nodes live in an arena of slots addressed by index. A slot is either on
//! the pool's free chain (its handle is dead) or on a list's active chain
//! (its handle is live). The arena only grows: a slot, once made, is reused
//! for as long as the pool lives.

mod node;
mod pool;
mod list;

pub use node::Node;
pub use pool::NodePool;
pub use list::{
    WakerList, after_pop, after_pops, handles_of, lemma_drained_list_is_empty,
    lemma_fresh_list_is_empty, lemma_lifo_round_trip, pop_results, popped, push_all,
};


