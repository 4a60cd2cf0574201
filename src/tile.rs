use vstd::prelude::*;

verus! {

/// One cell of the map.
#[derive(Clone, Copy, Debug, PartialEq, Eq, Structural)]
pub struct Tile {
    pub blocked: bool,
    pub block_sight: bool,
    pub explored: bool,
}

impl Tile {
    /// A floor cell: passable and transparent, not yet explored.
    pub fn empty() -> (t: Self)
        ensures
            t == (Tile { blocked: false, block_sight: false, explored: false }),
    {
        Tile { blocked: false, explored: false, block_sight: false }
    }

    /// A wall cell: blocks movement and sight, not yet explored.
    pub fn wall() -> (t: Self)
        ensures
            t == (Tile { blocked: true, block_sight: true, explored: false }),
    {
        Tile { blocked: true, explored: false, block_sight: true }
    }
}

} // verus!
