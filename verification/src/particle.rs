use vstd::prelude::*;

verus! {

/// What a single cell of the world holds.
#[derive(Clone, Copy, Debug, PartialEq, Eq, Structural)]
pub enum Particle {
    Air,
    Sand,
    Boundary,
}

} // verus!
