//! Configuration of a run and the statistics that a run leaves behind.

use crate::instance::NodeIdx;
use std::time::Duration;
use vstd::prelude::*;

verus! {

/// Configuration of one search run.
#[derive(Debug, Clone)]
pub struct Settings {
    /// A hitting set to start from, if the caller has one.
    pub initial_hitting_set: Option<Vec<NodeIdx>>,
    /// Budget in whole seconds; zero means unlimited.
    pub time_limit: u64,
    /// The search ends as soon as a hitting set of at most this size is known.
    pub stop_at: usize,
    /// Threshold for recomputing the packing from scratch; carried along.
    pub packing_from_scratch_limit: usize,
}

/// One improvement of the upper bound during the search.
#[derive(Debug)]
pub struct UpperBoundImprovement {
    /// Size of the hitting set that was found.
    pub new_bound: usize,
    /// Branching steps taken when it was found.
    pub branching_steps: usize,
    /// Time since the start of the search when it was found.
    pub runtime: Duration,
}

/// Bounds on the size of a minimum hitting set, computed once on the whole
/// instance.
#[derive(Debug, Clone, Copy, PartialEq, Eq, Structural)]
pub struct RootBounds {
    pub max_degree: usize,
    pub sum_degree: usize,
    pub efficiency: usize,
    pub packing: usize,
    pub sum_over_packing: usize,
    pub greedy_upper: usize,
}

/// Wall-clock totals of a run.
#[derive(Debug)]
pub struct RuntimeStats {
    /// Duration of the search; `None` until the search has ended.
    pub total: Option<Duration>,
}

impl RuntimeStats {
    pub open spec fn fresh(self) -> bool {
        self.total is None
    }
}

impl Default for RuntimeStats {
    fn default() -> (stats: RuntimeStats)
        ensures
            stats.fresh(),
    {
        RuntimeStats { total: None }
    }
}

/// Statistics of the reduction rules.
#[derive(Debug, Clone, Copy, PartialEq, Eq, Structural)]
pub struct ReductionStats {
    /// Threshold for recomputing the packing from scratch; carried along.
    pub packing_from_scratch_limit: usize,
}

impl ReductionStats {
    pub fn new(packing_from_scratch_limit: usize) -> (stats: ReductionStats)
        ensures
            stats.packing_from_scratch_limit == packing_from_scratch_limit,
    {
        ReductionStats { packing_from_scratch_limit }
    }
}

/// Everything a run reports besides the hitting set itself.
#[derive(Debug)]
pub struct Report {
    /// Label of the run.
    pub file_name: String,
    /// Size of the best hitting set known.
    pub opt: usize,
    /// Number of branching steps taken; stays at `usize::MAX` once there.
    pub branching_steps: usize,
    pub settings: Settings,
    pub root_bounds: RootBounds,
    pub runtimes: RuntimeStats,
    pub reductions: ReductionStats,
    /// The improvements of the upper bound, in the order they were found.
    pub upper_bound_improvements: Vec<UpperBoundImprovement>,
}

/// Each improvement is strictly smaller than the one before and was found
/// no earlier in branching steps; none was found later than `steps`.
pub open spec fn improvements_ordered(history: Seq<UpperBoundImprovement>, steps: usize) -> bool {
    &&& forall|i: int, j: int|
        0 <= i < j < history.len() ==> (#[trigger] history[j]).new_bound < (#[trigger] history[i]).new_bound
            && history[i].branching_steps <= history[j].branching_steps
    &&& forall|i: int| 0 <= i < history.len() ==> (#[trigger] history[i]).branching_steps <= steps
}

/// The improvements recorded so far are all larger than or equal to `bound`.
pub open spec fn improvements_above(history: Seq<UpperBoundImprovement>, bound: nat) -> bool {
    forall|i: int| 0 <= i < history.len() ==> (#[trigger] history[i]).new_bound >= bound
}

impl Report {
    /// The history of improvements is ordered and agrees with the step
    /// counter.
    pub open spec fn ordered(&self) -> bool {
        improvements_ordered(self.upper_bound_improvements@, self.branching_steps)
    }

    /// Everything but the step counter and the history of improvements is
    /// the same in `self` and `other`.
    pub open spec fn same_frame(&self, other: &Report) -> bool {
        &&& self.file_name == other.file_name
        &&& self.opt == other.opt
        &&& self.settings == other.settings
        &&& self.root_bounds == other.root_bounds
        &&& self.runtimes == other.runtimes
        &&& self.reductions == other.reductions
    }
}

} // verus!
