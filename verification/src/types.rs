//! Small newtype coordinates handed to and returned by the kernel.

use vstd::prelude::*;

verus! {

/// An edge-orientation selector: bit `i` of the low 12 bits selects edge slot `i`.
#[derive(Clone, Copy, Debug)]
pub struct Eori(pub u32);

/// A corner-orientation coordinate: a base-3 ordinal in `0 .. 2187`.
#[derive(Clone, Copy, Debug)]
pub struct Cori(pub u32);

/// An edge-permutation coordinate: an ordinal in `0 .. 12!`.
#[derive(Clone, Copy, Debug)]
pub struct Eperm(pub u32);

/// A corner-permutation coordinate: an ordinal in `0 .. 8!`.
#[derive(Clone, Copy, Debug)]
pub struct Cperm(pub u32);

} // verus!
