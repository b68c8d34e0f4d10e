//! Frozen, compact sets and maps of H3 cell indexes.
//!
//! Cells are stored in an ordered byte-keyed automaton under a key whose
//! byte order follows the cell hierarchy: the key of a cell is a prefix of
//! the keys of its descendants. Looking a cell up walks the automaton
//! along its key and stops at the first stored cell, which is the cell
//! itself or its coarsest stored ancestor.

pub mod automaton;
pub mod cell;
pub mod error;
pub mod index;
pub mod key;
pub mod lookup;
pub mod map;
pub mod order;
pub mod set;

pub use error::BuildError;
pub use key::Key;
pub use map::{
    FrozenMap, FrozenMapBuilder, FrozenMapIterator, FrozenMapKeys, FrozenMapRange,
    FrozenMapRangeIterator, FrozenMapValues,
};
pub use set::{
    FrozenSet, FrozenSetBuilder, FrozenSetIterator, FrozenSetRange, FrozenSetRangeIterator,
};
