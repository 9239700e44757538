//! Names for the stages of a schedule.

use vstd::prelude::*;

verus! {

/// A value that names a stage. Labels of any number of types can name the
/// stages of one schedule: two labels name the same stage exactly when their
/// keys are equal.
pub trait StageLabel {
    /// The key of the label.
    spec fn key(&self) -> u64;

    /// Computes the key of the label.
    fn id(&self) -> (k: u64)
        ensures
            k == self.key(),
    ;
}

} // verus!
