//! Exhaustive search for the distinct tilings of a rectangular board by a
//! fixed multiset of polyomino pieces.
//!
//! The crate is organised leaf-first: plane geometry (cells and the eight
//! dihedral orientations), pieces (a labelled footprint plus an optional
//! committed placement), the board state with its symmetry-aware hash, and a
//! generic depth-first backtracking solver that deduplicates states and
//! solutions through that hash.

pub mod backtracking;
pub mod geometry;
pub mod hashing;
pub mod linked_list;
pub mod piece;
pub mod puzzle;
