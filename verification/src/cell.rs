use vstd::prelude::*;

verus! {

/// Index of a node in the dancing-links tables.
#[derive(Clone, Copy, Debug, PartialEq, Eq, Structural)]
pub struct Cell(pub usize);

} // verus!
