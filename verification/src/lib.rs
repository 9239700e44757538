//! A scheduler that runs units of work concurrently while honouring declared
//! dependencies and data-access conflicts, together with an ordered pipeline
//! of labelled stages.

pub mod access;
pub mod builder;
pub mod counting;
pub mod graph;
pub mod guarantees;
pub mod schedule;
pub mod scheduler;
pub mod sequences;
pub mod signals;
pub mod stage;
pub mod stage_label;
pub mod validate;

pub use access::{AccessMode, AccessSet};
pub use builder::{BuildError, SchedulerBuilder};
pub use graph::{SchedulerGraph, SchedulerSystemContainer};
pub use schedule::Schedule;
pub use scheduler::{Drained, Report, TaskState, UnorderedSchedulerSystem};
pub use stage::Stage;
pub use stage_label::StageLabel;

use vstd::prelude::*;

verus! {

/// The shared state that stages and tasks operate on.
pub struct World;

/// The shared resources handed to stages alongside the world.
pub struct Resources;

} // verus!
