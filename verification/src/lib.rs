//! An indexed merkle tree: a merkle tree whose leaves carry a sorted
//! linked list over a value domain, so that membership and
//! non-membership can both be proved against its root. The crate holds
//! the native tree with incremental path recomputation, the record-table
//! logic that splices a new value below its predecessor, and models of
//! the arithmetic gadgets an insertion round is checked with: the
//! byte-decomposition comparator, the conditional swap of the root
//! recomputation, and the round's acceptance predicate.

pub mod comparator;
pub mod field;
pub mod leaf;
pub mod merkle_path;
pub mod poseidon;
pub mod protocol;
pub mod tree;
