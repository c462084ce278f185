//! A record of random numbers.

use vstd::prelude::*;

verus! {

/// The random numbers that have been drawn so far, each behind the bound it was
/// drawn below. Nothing but a draw adds to the record.
pub struct Draws {
    log: Ghost<Seq<(usize, usize)>>,
}

impl View for Draws {
    type V = Seq<(usize, usize)>;

    closed spec fn view(&self) -> Seq<(usize, usize)> {
        self.log@
    }
}

impl Draws {
    /// Nothing has been drawn yet.
    pub fn new() -> (draws: Draws)
        ensures
            draws@ == Seq::<(usize, usize)>::empty(),
    {
        Draws { log: Ghost(Seq::empty()) }
    }
}

} // verus!
