//! A verified virtual-tree reconciliation core.
//!
//! Two immutable virtual trees (the one rendered before and the one computed
//! now) are walked in lockstep; the walk appends DOM-mutation instructions to
//! a change list, keeps a registry of active listeners up to date, and
//! collects the cache identities it used. Memoized subtrees are resolved
//! through a read-only cached set.

pub mod cached_set;
pub mod change_list;
pub mod diff;
pub mod events;
pub mod laws;
pub mod node;
pub mod roots;
