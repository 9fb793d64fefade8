//! Join-semilattices for convergent replicated state, and an incremental
//! engine that brings growing relations to a fixpoint round by round.
//!
//! Every lattice type has a mathematical model; its order and its join are
//! spec functions on that model, and the algebraic laws are proved of them.
//!
//! - `lattice`: the `SemiLattice` trait with its laws, `fold` and
//!   `partial_ord_helper`; `laws`: the harness that checks the laws on samples.
//! - `ord`, `option`, `pair`, `guarded_pair`, `redactable`: registers and
//!   products. `scalar`: the bounded types that registers hold.
//! - `map`, `set`, `vec`: collections in sorted vectors; `tree`,
//!   `tree_lattice`: collections in balanced trees. `map_model` holds the
//!   lattice of maps that both kinds of map stand for, and `key` what is
//!   asked of key types.
//! - `datalog`, `relation`: the engine for incremental evaluation, and
//!   `fixpoint`: what a round leaves unchanged.
//! - `threads`, `detailed`: the state of a discussion, as replicas write it
//!   and as a reader sees it. `dag`: a hash-chained graph of events.

pub mod dag;
pub mod datalog;
pub mod detailed;
pub mod fixpoint;
pub mod guarded_pair;
pub mod key;
pub mod lattice;
pub mod laws;
pub mod map;
pub mod map_model;
pub mod option;
pub mod ord;
pub mod pair;
pub mod redactable;
pub mod relation;
pub mod scalar;
pub mod set;
pub mod threads;
pub mod tree;
pub mod tree_lattice;
pub mod vec;

pub use crate::datalog::{DeferredRestore, Guard, Iteration, Simple};
pub use crate::guarded_pair::GuardedPair;
pub use crate::lattice::{
    fold, join_all, lub_all, lub_onto, models, order_of, partial_ord_helper, Order, SemiLattice,
};
pub use crate::laws::partially_verify_semilattice_laws;
pub use crate::map::MapLattice;
pub use crate::option::UpsideDownOption;
pub use crate::ord::{Interval, Max, Min};
pub use crate::pair::Pair;
pub use crate::redactable::Redactable;
pub use crate::relation::{MapRelation, SetRelation};
pub use crate::scalar::Bounded;
pub use crate::set::SetLattice;
pub use crate::tree_lattice::{TreeMap, TreeSet};
pub use crate::vec::VecLattice;
