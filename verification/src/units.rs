//! Paper orientation.

use vstd::prelude::*;

verus! {

/// Paper orientation.
#[derive(Debug, Clone, Copy, PartialEq, Eq, Structural)]
pub enum Orientation {
    /// Portrait: height > width.
    Portrait,
    /// Landscape: width > height (the default for imposition).
    Landscape,
}

impl Default for Orientation {
    /// Landscape: imposition arranges pages side by side.
    fn default() -> (r: Self)
        ensures
            r == Orientation::Landscape,
    {
        Orientation::Landscape
    }
}

/// The other orientation.
pub open spec fn opposite(o: Orientation) -> Orientation {
    match o {
        Orientation::Portrait => Orientation::Landscape,
        Orientation::Landscape => Orientation::Portrait,
    }
}

/// Flipping twice gives back the orientation, and flipping always changes
/// whether the page is landscape.
pub proof fn flip_is_an_involution(o: Orientation)
    ensures
        opposite(opposite(o)) == o,
        (opposite(o) == Orientation::Landscape) == !(o == Orientation::Landscape),
{
}

impl Orientation {
    /// Returns true for landscape orientation.
    pub fn is_landscape(self) -> (res: bool)
        ensures
            res <==> self == Orientation::Landscape,
    {
        match self {
            Orientation::Landscape => true,
            Orientation::Portrait => false,
        }
    }

    /// Returns the opposite orientation.
    pub fn flip(self) -> (res: Orientation)
        ensures
            res == opposite(self),
    {
        match self {
            Orientation::Portrait => Orientation::Landscape,
            Orientation::Landscape => Orientation::Portrait,
        }
    }
}

} // verus!
