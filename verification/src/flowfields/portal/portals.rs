//! The portals of one sector: the field cells on its sides through which a
//! route may cross into the neighbouring sector on that side.
//!
//! Which cells are portals is worked out from the cost fields on both sides
//! of a boundary by the portal graph. A sector only keeps them, one list for
//! each side.

use crate::flowfields::Ordinal;
use vstd::prelude::*;

verus! {

/// The portal cells of one sector, by the side on which they lie.
pub struct Portals {
    north: Vec<(usize, usize)>,
    east: Vec<(usize, usize)>,
    south: Vec<(usize, usize)>,
    west: Vec<(usize, usize)>,
}

impl View for Portals {
    type V = Seq<Seq<(usize, usize)>>;

    /// The portal cells of the four sides, in the order north, east, south,
    /// west.
    closed spec fn view(&self) -> Seq<Seq<(usize, usize)>> {
        seq![self.north@, self.east@, self.south@, self.west@]
    }
}

impl Portals {
    /// The portal cells on the side `ordinal`.
    pub open spec fn cells(&self, ordinal: Ordinal) -> Seq<(usize, usize)> {
        self@[ordinal.index()]
    }

    /// The portals of any value have four sides.
    pub proof fn lemma_sides(&self)
        ensures
            self@.len() == 4,
    {
    }

    /// The portal cells on the side `ordinal`.
    pub fn get(&self, ordinal: Ordinal) -> (cells: &Vec<(usize, usize)>)
        ensures
            cells@ == self.cells(ordinal),
    {
        match ordinal {
            Ordinal::North => &self.north,
            Ordinal::East => &self.east,
            Ordinal::South => &self.south,
            Ordinal::West => &self.west,
        }
    }

    /// The portal cells on the side `ordinal`, to be changed in place. The
    /// other sides stay as they are.
    pub fn get_mut(&mut self, ordinal: Ordinal) -> (cells: &mut Vec<(usize, usize)>)
        ensures
            cells@ == old(self).cells(ordinal),
            final(self).cells(ordinal) == final(cells)@,
            forall|other: Ordinal|
                other != ordinal ==> #[trigger] final(self).cells(other) == old(self).cells(other),
    {
        match ordinal {
            Ordinal::North => &mut self.north,
            Ordinal::East => &mut self.east,
            Ordinal::South => &mut self.south,
            Ordinal::West => &mut self.west,
        }
    }
}

impl Default for Portals {
    /// No portal on any side.
    fn default() -> (portals: Self)
        ensures
            forall|ordinal: Ordinal|
                #[trigger] portals.cells(ordinal) == Seq::<(usize, usize)>::empty(),
    {
        Portals { north: Vec::new(), east: Vec::new(), south: Vec::new(), west: Vec::new() }
    }
}

} // verus!
