//! Ordered maps and sets shaped as B-trees whose nodes live in a slab that
//! the caller supplies, so that many trees can share one slab.
//!
//! A map is a small header, [`map::BTreeMap`]; the nodes of its tree are
//! cells of a slab ([`slab::Slab`]), which every operation takes as an
//! argument. What a map holds is its view, a `Map` from keys to values; a
//! map is well formed in a slab (`wf`) when its nodes form a B-tree there
//! whose items are the entries of the view. Every operation keeps a map
//! well formed, says what it does to the view, and touches no cell that is
//! not a node of its map, so that the other maps in the slab stay what they
//! are ([`map::BTreeMap::lemma_frame`]).
//!
//! The keys of a map must be totally ordered by their comparison
//! ([`order::total_order`]).
//!
//! Two slabs are here: the arena ([`store::Store`]), which uses the cell
//! that was vacated last, and the dense slab ([`dense::DenseSlab`]), which
//! uses the vacant cell with the lowest index.

pub mod access;
pub mod addr;
pub mod arena;
pub mod children;
pub mod compare;
pub mod copyable;
pub mod cursor;
pub mod dense;
pub mod drain;
pub mod entry;
pub mod ext;
pub mod insert;
pub mod iter;
pub mod laws;
pub mod map;
pub mod merge;
pub mod node;
pub mod order;
pub mod owned;
pub mod ptr_eq;
pub mod range;
pub mod rebalance;
pub mod remove;
pub mod rotate;
pub mod set;
pub mod setops;
pub mod slab;
pub mod split;
pub mod store;
pub mod swap;
pub mod tree;
pub mod validate;
pub mod value_mut;

pub use map::BTreeMap;
pub use set::BTreeSet;
pub use store::BTreeStore;
