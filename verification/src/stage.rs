//! One step of a schedule.

use crate::{Resources, World};
use vstd::prelude::*;

verus! {

/// A unit of work that a schedule runs against the world and its resources.
pub trait Stage {
    /// What one run may make of the stage: `after` is a state in which a run
    /// that began in `self` may leave the stage. Unless a stage says more,
    /// a run may leave it in any state.
    open spec fn runs_to(&self, after: &Self) -> bool {
        true
    }

    /// Runs the stage once.
    fn run(&mut self, world: &mut World, resources: &mut Resources)
        ensures
            old(self).runs_to(final(self)),
    ;
}

} // verus!
