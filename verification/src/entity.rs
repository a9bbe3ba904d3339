use vstd::prelude::*;

verus! {

/// Identifies one entity: the slot it occupies and the generation of that
/// occupancy. A slot is recycled only under a higher generation, so an
/// identifier kept across a despawn never names the slot's next occupant.
#[derive(Clone, Copy, PartialEq, Eq, Structural, Debug, Hash)]
pub struct Entity {
    pub index: usize,
    pub generation: u64,
}

} // verus!
