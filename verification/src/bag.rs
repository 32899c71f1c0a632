//! The tile supply at its interface boundary.
//!
//! Truncation returns reclaimed letters to the supply one at a time. The
//! engine only ever deposits letters, so the supply is modeled as the
//! sequence of letters returned to it; drawing tiles for placement lives
//! outside this core.

use vstd::prelude::*;

verus! {

pub struct TileBag {
    returned: Vec<char>,
}

impl View for TileBag {
    type V = Seq<char>;

    closed spec fn view(&self) -> Seq<char> {
        self.returned@
    }
}

impl TileBag {
    pub fn new() -> (r: Self)
        ensures
            r@ == Seq::<char>::empty(),
    {
        let r = TileBag { returned: Vec::new() };
        proof {
            assert(r@ =~= Seq::<char>::empty());
        }
        r
    }

    /// Returns one reclaimed letter to the supply.
    pub fn return_tile(&mut self, tile: char)
        ensures
            final(self)@ == old(self)@.push(tile),
    {
        self.returned.push(tile);
    }

    /// The letters returned to the supply so far, oldest first.
    pub fn returned_tiles(&self) -> (r: &Vec<char>)
        ensures
            r@ == self@,
    {
        &self.returned
    }
}

} // verus!
