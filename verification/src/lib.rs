//! State-representation and algebra kernel for a 3x3 twisty-puzzle cube.
//!
//! A cube configuration is packed into two byte lanes (12 edge entries and
//! 8 corner entries, each holding an identity and an orientation field).
//! The crate provides the group operations on such states (composition,
//! inversion, parity), the combinatorial rank/unrank codecs used to index
//! pruning tables, and the static move and symmetry tables.

pub mod perms;
pub mod model;
pub mod types;
pub mod cube;
pub mod algebra;
pub mod codec;
pub mod tables;
pub mod laws;
