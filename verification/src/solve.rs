//! The branch-and-bound search for a minimum hitting set.

use crate::clock::{elapsed, now, over_time_limit, time_limit_exceeded, whole_seconds};
use crate::instance::{all_false, ascending, copy_nodes, EdgeIdx, Instance, InstanceView, NodeIdx};
use crate::lower_bound::{
    calc_efficiency_bound, calc_max_degree_bound, calc_sum_degree_bound, edge_set, efficiency_bound,
    is_best_threshold_bound, is_greedy_packing, is_sum_over_packing_bound, lemma_best_threshold_sound,
    lemma_bounds_defined_of_pristine, lemma_efficiency_bound_sound, lemma_max_degree_bound_sound,
    lemma_residual_bound_of_pristine, lemma_sum_over_packing_sound, max_degree_bound, PackingBound,
};
use crate::reductions::{
    calc_greedy_approximation, is_greedy_choice, lemma_greedy_choice_hits, lemma_unsolvable_is_sound, reduce,
    ReductionResult,
};
use crate::report::{
    improvements_above, ReductionStats, Report, RootBounds, RuntimeStats, Settings, UpperBoundImprovement,
};
use crate::search_space::{
    bounded_below, hits_edge, hits_live_edges, in_search_space, is_hitting_set_of, is_lower_bound,
    is_minimum_hitting_set, lemma_branch_covers, lemma_live_nodes, lemma_lower_bound_below_hitting_set,
    lemma_partial_is_bound, lemma_root_space, lemma_same_edges_hit, lemma_solved, search_ready,
};
use std::time::Instant;
use vstd::prelude::*;
use vstd::set_lib::*;

verus! {

/// Seconds after which progress is noted again.
pub const ITERATION_LOG_INTERVAL_SECS: u64 = 60;

/// What a search carries from call to call.
#[derive(Debug, Clone)]
pub struct State {
    /// The nodes chosen on the current search path, in the order chosen.
    pub partial_hs: Vec<NodeIdx>,
    /// The smallest hitting set found so far.
    pub minimum_hs: Vec<NodeIdx>,
    /// When the search began.
    pub solve_start_time: Instant,
    /// When progress was last noted.
    pub last_log_time: Instant,
}

/// Whether a search is to go on.
#[derive(Debug, Copy, Clone, PartialEq, Eq, Structural)]
pub enum Status {
    /// Continue solving to search for smaller hitting sets.
    Continue,
    /// The target size is reached or the time is up: unwind.
    Stop,
}

/// Why a search did not begin.
#[derive(Debug, Copy, Clone, PartialEq, Eq, Structural)]
pub enum SolveError {
    /// The initial hitting set names `node`, which the instance does not have.
    NodeOutOfBounds { node: NodeIdx },
    /// The initial hitting set misses an edge.
    InvalidInitialHittingSet,
}

/// A search call leaves the partial solution and the start time as they
/// were.
pub open spec fn search_restores(before: State, after: State) -> bool {
    &&& after.partial_hs@ == before.partial_hs@
    &&& after.solve_start_time == before.solve_start_time
}

/// The best known hitting set stays a hitting set and changes only to get
/// smaller.
pub open spec fn minimum_improves(view: InstanceView, before: Seq<NodeIdx>, after: Seq<NodeIdx>) -> bool {
    &&& is_hitting_set_of(view, after)
    &&& after.len() <= before.len()
    &&& after.len() == before.len() ==> after == before
}

/// What the status of a search call says. `Continue`: nothing in the search
/// space of `view` is smaller than the best known hitting set. `Stop`: a time
/// limit is set, or the best known hitting set is within the target size.
/// And a best known hitting set within the target size always stops.
pub open spec fn verdict_holds(view: InstanceView, status: Status, minimum_len: nat, settings: Settings) -> bool {
    &&& status == Status::Continue ==> bounded_below(view, minimum_len)
    &&& status == Status::Stop ==> settings.time_limit != 0 || minimum_len <= settings.stop_at
    &&& minimum_len <= settings.stop_at ==> status == Status::Stop
}

/// What a search call does to the report. It counts steps and appends
/// improvements and touches nothing else. The history stays ordered, no
/// entry is below the best known size, and the history grew exactly if the
/// best known size fell, its last entry then being that size and every new
/// entry below the size known before. Of the new entries only the last can
/// be within the target size, and if it is, no branching step was taken
/// after it.
pub open spec fn report_grows(before: Report, after: Report, minimum_before: nat, minimum_after: nat) -> bool {
    let old_history = before.upper_bound_improvements@;
    let history = after.upper_bound_improvements@;
    let stop_at = before.settings.stop_at;
    &&& after.same_frame(&before)
    &&& before.branching_steps <= after.branching_steps
    &&& old_history.len() <= history.len()
    &&& history.subrange(0, old_history.len() as int) == old_history
    &&& after.ordered()
    &&& improvements_above(history, minimum_after)
    &&& (minimum_after < minimum_before <==> old_history.len() < history.len())
    &&& old_history.len() < history.len() ==> history.last().new_bound == minimum_after
    &&& forall|i: int| old_history.len() <= i < history.len() ==> (#[trigger] history[i]).new_bound < minimum_before
    &&& forall|i: int| old_history.len() <= i < history.len() - 1 ==> (#[trigger] history[i]).new_bound > stop_at
    &&& old_history.len() < history.len() && minimum_after <= stop_at ==> history.last().branching_steps
        == after.branching_steps
}

/// What a search call asks of the report: an ordered history with no entry
/// below the best known size.
pub open spec fn report_ready(report: Report, minimum_len: nat) -> bool {
    report.ordered() && improvements_above(report.upper_bound_improvements@, minimum_len)
}

/// Whether progress is to be noted again, `secs_since_last` whole seconds
/// after the last time.
pub fn progress_note_due(secs_since_last: u64) -> (due: bool)
    ensures
        due == (secs_since_last >= ITERATION_LOG_INTERVAL_SECS),
{
    secs_since_last >= ITERATION_LOG_INTERVAL_SECS
}

/// `v` is the live node of greatest degree, and among those of that degree
/// the one with the lowest index.
pub open spec fn is_branching_node(view: InstanceView, v: NodeIdx) -> bool {
    &&& view.node_live(v)
    &&& forall|u: NodeIdx| #[trigger] view.node_live(u) ==> view.degree(u) <= view.degree(v)
    &&& forall|u: NodeIdx| #[trigger] view.node_live(u) && view.degree(u) == view.degree(v) ==> v <= u
}

/// Picks the node to branch on.
pub fn select_branching_node(instance: &Instance) -> (node: NodeIdx)
    requires
        instance.wf(),
        exists|v: NodeIdx| instance@.node_live(v),
    ensures
        is_branching_node(instance@, node),
{
    let nodes = instance.nodes();
    let mut best: usize = 0;
    let mut best_degree = instance.node_degree(nodes[0]);
    let mut i: usize = 1;
    while i < nodes.len()
        invariant
            instance.wf(),
            ascending(nodes@),
            forall|v: NodeIdx| nodes@.contains(v) <==> instance@.node_live(v),
            1 <= i <= nodes@.len(),
            best < i,
            best_degree == instance@.degree(nodes@[best as int]),
            forall|k: int| 0 <= k < i ==> instance@.degree(#[trigger] nodes@[k]) <= best_degree,
            forall|k: int| 0 <= k < best ==> instance@.degree(#[trigger] nodes@[k]) < best_degree,
        decreases nodes@.len() - i,
    {
        let degree = instance.node_degree(nodes[i]);
        if degree > best_degree {
            best = i;
            best_degree = degree;
        }
        i += 1;
    }
    nodes[best]
}

/// Explores both ways of deciding the live node `node`: first with `node` in
/// the partial solution, then, unless that ended the search, with `node`
/// excluded. Leaves the instance and the partial solution as they were.
pub fn branch_on(node: NodeIdx, instance: &mut Instance, state: &mut State, report: &mut Report) -> (status: Status)
    requires
        old(instance).wf(),
        old(instance)@.node_live(node),
        search_ready(old(instance)@, old(state).partial_hs@, old(state).minimum_hs@),
        report_ready(*old(report), old(state).minimum_hs@.len()),
    ensures
        final(instance).wf(),
        final(instance)@ == old(instance)@,
        search_restores(*old(state), *final(state)),
        minimum_improves(old(instance)@, old(state).minimum_hs@, final(state).minimum_hs@),
        verdict_holds(old(instance)@, status, final(state).minimum_hs@.len(), old(report).settings),
        report_grows(*old(report), *final(report), old(state).minimum_hs@.len(), final(state).minimum_hs@.len()),
        old(report).branching_steps < usize::MAX ==> old(report).branching_steps < final(report).branching_steps,
    decreases old(instance)@.live_nodes().len(), 0nat,
{
    let ghost entry = instance@;
    let ghost entry_partial = state.partial_hs@;
    let ghost entry_minimum = state.minimum_hs@;
    let ghost entry_report = *report;
    if report.branching_steps < usize::MAX {
        report.branching_steps = report.branching_steps + 1;
    }
    proof {
        lemma_live_nodes(entry);
    }
    instance.delete_node(node);
    instance.delete_incident_edges(node);
    state.partial_hs.push(node);
    let ghost with = instance@;
    proof {
        assert(with.live_nodes() =~= entry.remove_node(node).live_nodes());
        entry_partial.lemma_push_to_set_commute(node);
        lemma_same_edges_hit(entry, with, entry_minimum.to_set());
    }
    let status_with = solve_recursive(instance, state, report);
    let ghost minimum_with = state.minimum_hs@;
    let ghost report_with = *report;
    state.partial_hs.pop();
    instance.restore_incident_edges(node);
    let ghost without = instance@;
    proof {
        assert(state.partial_hs@ =~= entry_partial);
        assert(without.taken =~= entry.taken);
        lemma_same_edges_hit(with, without, minimum_with.to_set());
        lemma_same_edges_hit(with, entry, minimum_with.to_set());
    }
    if status_with == Status::Stop {
        instance.restore_node(node);
        proof {
            assert(instance@.removed =~= entry.removed);
        }
        return Status::Stop;
    }
    let status_without = solve_recursive(instance, state, report);
    instance.restore_node(node);
    proof {
        assert(instance@.removed =~= entry.removed);
        let minimum_len = state.minimum_hs@.len();
        lemma_same_edges_hit(without, entry, state.minimum_hs@.to_set());
        if status_without == Status::Continue {
            lemma_branch_covers(entry, node, minimum_len);
        }
        let h0 = entry_report.upper_bound_improvements@;
        let h1 = report_with.upper_bound_improvements@;
        let h2 = report.upper_bound_improvements@;
        assert(h2.subrange(0, h0.len() as int) =~= h0);
        assert forall|i: int| h0.len() <= i < h2.len() implies (#[trigger] h2[i]).new_bound
            < entry_minimum.len() by {
            if i < h1.len() {
                assert(h2.subrange(0, h1.len() as int)[i] == h2[i]);
            }
        }
    }
    status_without
}

/// Searches the sub-problem that `instance` and `state` describe for a
/// hitting set smaller than the best known one, which it replaces whenever it
/// finds one. Leaves the instance and the partial solution as they were.
///
/// Reads the clock, notes progress if it is due, and goes on as
/// [`search_at`] does for the time read.
pub fn solve_recursive(instance: &mut Instance, state: &mut State, report: &mut Report) -> (status: Status)
    requires
        old(instance).wf(),
        search_ready(old(instance)@, old(state).partial_hs@, old(state).minimum_hs@),
        report_ready(*old(report), old(state).minimum_hs@.len()),
    ensures
        final(instance).wf(),
        final(instance)@ == old(instance)@,
        search_restores(*old(state), *final(state)),
        minimum_improves(old(instance)@, old(state).minimum_hs@, final(state).minimum_hs@),
        verdict_holds(old(instance)@, status, final(state).minimum_hs@.len(), old(report).settings),
        report_grows(*old(report), *final(report), old(state).minimum_hs@.len(), final(state).minimum_hs@.len()),
        old(state).minimum_hs@.len() <= old(report).settings.stop_at ==> final(report).branching_steps == old(
            report,
        ).branching_steps,
    decreases old(instance)@.live_nodes().len(), 2nat,
{
    let since_note = whole_seconds(&elapsed(&state.last_log_time));
    if progress_note_due(since_note) {
        state.last_log_time = now();
    }
    let elapsed_secs = whole_seconds(&elapsed(&state.solve_start_time));
    search_at(elapsed_secs, instance, state, report)
}

/// The search of [`solve_recursive`], `elapsed_secs` whole seconds after
/// the search began: over the time limit it stops at once and changes
/// nothing; else it reduces the instance and, as the reduction ends, takes
/// the partial solution for the best known one, gives the path up, stops, or
/// branches on the live node of greatest degree. Whatever the reduction took
/// is put back before it returns.
pub fn search_at(elapsed_secs: u64, instance: &mut Instance, state: &mut State, report: &mut Report) -> (status:
    Status)
    requires
        old(instance).wf(),
        search_ready(old(instance)@, old(state).partial_hs@, old(state).minimum_hs@),
        report_ready(*old(report), old(state).minimum_hs@.len()),
    ensures
        final(instance).wf(),
        final(instance)@ == old(instance)@,
        search_restores(*old(state), *final(state)),
        minimum_improves(old(instance)@, old(state).minimum_hs@, final(state).minimum_hs@),
        verdict_holds(old(instance)@, status, final(state).minimum_hs@.len(), old(report).settings),
        report_grows(*old(report), *final(report), old(state).minimum_hs@.len(), final(state).minimum_hs@.len()),
        old(state).minimum_hs@.len() <= old(report).settings.stop_at ==> final(report).branching_steps == old(
            report,
        ).branching_steps,
        over_time_limit(old(report).settings.time_limit, elapsed_secs) ==> {
            &&& status == Status::Stop
            &&& final(state).minimum_hs@ == old(state).minimum_hs@
            &&& final(report).branching_steps == old(report).branching_steps
            &&& final(report).upper_bound_improvements@ == old(report).upper_bound_improvements@
        },
    decreases old(instance)@.live_nodes().len(), 1nat,
{
    let ghost entry = instance@;
    let ghost entry_partial = state.partial_hs@;
    let ghost entry_report = *report;
    proof {
        assert(entry_report.upper_bound_improvements@.subrange(
            0,
            entry_report.upper_bound_improvements@.len() as int,
        ) =~= entry_report.upper_bound_improvements@);
    }
    if time_limit_exceeded(report.settings.time_limit, elapsed_secs) {
        return Status::Stop;
    }
    let (result, reduction) = reduce(instance, state, report);
    let ghost reduced = instance@;
    let ghost reduced_partial = state.partial_hs@;
    let ghost forced = reduction@;
    proof {
        lemma_live_nodes(entry);
        lemma_len_subset(reduced.live_nodes(), entry.live_nodes());
    }
    let status = match result {
        ReductionResult::Solved => {
            proof {
                lemma_solved(reduced, reduced_partial);
            }
            if state.partial_hs.len() < state.minimum_hs.len() {
                state.minimum_hs = copy_nodes(&state.partial_hs);
                let runtime = elapsed(&state.solve_start_time);
                report.upper_bound_improvements.push(
                    UpperBoundImprovement {
                        new_bound: state.minimum_hs.len(),
                        branching_steps: report.branching_steps,
                        runtime,
                    },
                );
                proof {
                    let h0 = entry_report.upper_bound_improvements@;
                    let h1 = report.upper_bound_improvements@;
                    assert(h1.subrange(0, h0.len() as int) =~= h0);
                }
            }
            proof {
                assert forall|hs: Set<NodeIdx>| #[trigger] in_search_space(reduced, hs) implies state.minimum_hs@.len()
                    <= hs.len() by {
                    lemma_partial_is_bound(reduced, reduced_partial, hs);
                }
            }
            if state.minimum_hs.len() <= report.settings.stop_at {
                Status::Stop
            } else {
                Status::Continue
            }
        },
        ReductionResult::Unsolvable => {
            proof {
                lemma_unsolvable_is_sound(
                    reduced,
                    reduced_partial,
                    state.minimum_hs@,
                    report.settings.stop_at as nat,
                );
            }
            Status::Continue
        },
        ReductionResult::Stop => Status::Stop,
        ReductionResult::Finished => {
            let node = select_branching_node(instance);
            branch_on(node, instance, state, report)
        },
    };
    proof {
        assert(state.partial_hs@.subrange(state.partial_hs@.len() - forced.len(), state.partial_hs@.len() as int)
            =~= forced);
    }
    reduction.restore(instance, &mut state.partial_hs);
    proof {
        assert(instance@.removed =~= entry.removed);
        assert(instance@.taken =~= entry.taken);
        assert(state.partial_hs@ =~= entry_partial);
        lemma_same_edges_hit(reduced, entry, state.minimum_hs@.to_set());
    }
    status
}

/// Whether the nodes listed in `hs` meet every live edge of `instance`.
pub fn is_hitting_set(hs: &[NodeIdx], instance: &Instance) -> (valid: bool)
    requires
        instance.wf(),
    ensures
        valid == hits_live_edges(instance@, hs@.to_set()),
{
    let num_nodes = instance.num_nodes_total();
    let mut listed = all_false(num_nodes);
    let mut i: usize = 0;
    while i < hs.len()
        invariant
            i <= hs@.len(),
            listed@.len() == num_nodes,
            forall|v: int| 0 <= v < num_nodes ==> (#[trigger] listed@[v] <==> exists|k: int| 0 <= k < i && hs@[k] == v),
        decreases hs@.len() - i,
    {
        let node = hs[i];
        if node < num_nodes {
            listed.set(node, true);
        }
        i += 1;
    }
    let num_edges = instance.num_edges_total();
    let mut e: usize = 0;
    while e < num_edges
        invariant
            instance.wf(),
            num_nodes == instance@.num_nodes,
            num_edges == instance@.edges.len(),
            e <= num_edges,
            listed@.len() == num_nodes,
            forall|v: int| 0 <= v < num_nodes ==> (#[trigger] listed@[v] <==> hs@.contains(v as usize)),
            forall|d: int| 0 <= d < e && #[trigger] instance@.edge_live(d) ==> hits_edge(instance@, d, hs@.to_set()),
        decreases num_edges - e,
    {
        if instance.is_edge_live(e) {
            let members = instance.edge(e);
            let mut hit = false;
            let mut j: usize = 0;
            while j < members.len() && !hit
                invariant
                    instance.wf(),
                    num_nodes == instance@.num_nodes,
                    e < instance@.edges.len(),
                    members@ == instance@.edges[e as int],
                    j <= members@.len(),
                    listed@.len() == num_nodes,
                    forall|v: int| 0 <= v < num_nodes ==> (#[trigger] listed@[v] <==> hs@.contains(v as usize)),
                    hit ==> hits_edge(instance@, e as int, hs@.to_set()),
                    !hit ==> forall|k: int| 0 <= k < j ==> !hs@.contains(#[trigger] members@[k]),
                decreases members@.len() - j + if hit { 0nat } else { 1nat },
            {
                let node = members[j];
                if listed[node] {
                    hit = true;
                } else {
                    j += 1;
                }
            }
            if !hit {
                return false;
            }
        }
        e += 1;
    }
    true
}

/// `nodes[i]` is the first entry of `nodes` that is no node of a universe of
/// `num_nodes` nodes.
pub open spec fn first_out_of_bounds(nodes: Seq<NodeIdx>, num_nodes: nat, i: int) -> bool {
    &&& 0 <= i < nodes.len()
    &&& nodes[i] >= num_nodes
    &&& forall|k: int| 0 <= k < i ==> #[trigger] nodes[k] < num_nodes
}

/// The index of the first entry of `nodes` that is no node of a universe of
/// `num_nodes` nodes, if there is one.
fn find_out_of_bounds(nodes: &Vec<NodeIdx>, num_nodes: usize) -> (found: Option<usize>)
    ensures
        match found {
            Some(i) => first_out_of_bounds(nodes@, num_nodes as nat, i as int),
            None => forall|k: int| 0 <= k < nodes@.len() ==> #[trigger] nodes@[k] < num_nodes,
        },
{
    let mut i: usize = 0;
    while i < nodes.len()
        invariant
            i <= nodes@.len(),
            forall|k: int| 0 <= k < i ==> #[trigger] nodes@[k] < num_nodes,
        decreases nodes@.len() - i,
    {
        if nodes[i] >= num_nodes {
            return Some(i);
        }
        i += 1;
    }
    None
}

/// The settings hold no initial hitting set, or one that names nodes of the
/// instance only and meets every live edge.
pub open spec fn settings_accepted(view: InstanceView, settings: Settings) -> bool {
    match settings.initial_hitting_set {
        None => true,
        Some(given) => {
            &&& forall|i: int| 0 <= i < given@.len() ==> #[trigger] given@[i] < view.num_nodes
            &&& hits_live_edges(view, given@.to_set())
        },
    }
}

/// `initial` is what the search starts from: the hitting set of the
/// settings, or else the live nodes in ascending order.
pub open spec fn starts_from(view: InstanceView, settings: Settings, initial: Seq<NodeIdx>) -> bool {
    match settings.initial_hitting_set {
        None => ascending(initial) && initial.len() == view.live_nodes().len() && forall|v: NodeIdx|
            initial.contains(v) <==> view.node_live(v),
        Some(given) => initial == given@,
    }
}

/// How the settings fare: accepted, they give what the search starts from;
/// else the first node that the instance does not have is reported, or,
/// where every node exists, that a live edge is missed.
pub open spec fn initial_hitting_set_of(
    view: InstanceView,
    settings: Settings,
    outcome: Result<Vec<NodeIdx>, SolveError>,
) -> bool {
    match outcome {
        Ok(nodes) => settings_accepted(view, settings) && starts_from(view, settings, nodes@),
        Err(SolveError::NodeOutOfBounds { node }) => settings.initial_hitting_set matches Some(given) && exists|
            i: int,
        | #[trigger] first_out_of_bounds(given@, view.num_nodes, i) && given@[i] == node,
        Err(SolveError::InvalidInitialHittingSet) => settings.initial_hitting_set matches Some(given) && {
            &&& forall|i: int| 0 <= i < given@.len() ==> #[trigger] given@[i] < view.num_nodes
            &&& !hits_live_edges(view, given@.to_set())
        },
    }
}

/// Takes the initial hitting set from the settings and checks it: every
/// node has to exist, and every live edge has to be met. Without one in the
/// settings, the live nodes together are the initial hitting set.
pub fn get_initial_hitting_set(instance: &Instance, settings: &Settings) -> (outcome: Result<
    Vec<NodeIdx>,
    SolveError,
>)
    requires
        instance.wf(),
    ensures
        initial_hitting_set_of(instance@, *settings, outcome),
{
    match &settings.initial_hitting_set {
        Some(given) => {
            match find_out_of_bounds(given, instance.num_nodes_total()) {
                Some(i) => {
                    return Err(SolveError::NodeOutOfBounds { node: given[i] });
                },
                None => {},
            }
            if !is_hitting_set(given.as_slice(), instance) {
                return Err(SolveError::InvalidInitialHittingSet);
            }
            Ok(copy_nodes(given))
        },
        None => Ok(instance.nodes()),
    }
}

/// `packed` lists the greedy packing of the live edges, and `packing` and
/// `sum_over_packing` are the two bounds that it gives.
pub open spec fn packing_bounds_of(
    view: InstanceView,
    packed: Seq<EdgeIdx>,
    packing: usize,
    sum_over_packing: usize,
) -> bool {
    &&& ascending(packed)
    &&& is_greedy_packing(view, edge_set(packed))
    &&& packing == packed.len()
    &&& is_sum_over_packing_bound(view, packed, sum_over_packing as nat)
}

/// `bounds` holds the bounds of `view`: each lower bound as its estimator
/// defines it, the node count in place of one that is not defined, and the
/// size of the greedy choice.
pub open spec fn root_bounds_of(view: InstanceView, bounds: RootBounds) -> bool {
    &&& bounds.max_degree == match max_degree_bound(view) {
        Some(b) => b,
        None => view.num_nodes,
    }
    &&& is_best_threshold_bound(view, view.live_edges().len(), bounds.sum_degree as nat)
    &&& bounds.efficiency == match efficiency_bound(view) {
        Some(b) => b,
        None => view.num_nodes,
    }
    &&& exists|packed: Seq<EdgeIdx>| #[trigger]
        packing_bounds_of(view, packed, bounds.packing, bounds.sum_over_packing)
    &&& exists|chosen: Seq<NodeIdx>| #[trigger] is_greedy_choice(view, chosen) && bounds.greedy_upper == chosen.len()
}

/// The bounds of an instance in which no deletion is in effect frame the
/// size of its hitting sets: no set of nodes that meets every edge is smaller
/// than any of the five lower bounds, and a hitting set as large as the
/// greedy choice exists.
pub proof fn lemma_root_bounds_frame(view: InstanceView, bounds: RootBounds)
    requires
        view.wf(),
        view.num_nodes <= usize::MAX,
        view.pristine(),
        root_bounds_of(view, bounds),
    ensures
        is_lower_bound(view, bounds.max_degree as nat),
        is_lower_bound(view, bounds.sum_degree as nat),
        is_lower_bound(view, bounds.efficiency as nat),
        is_lower_bound(view, bounds.packing as nat),
        is_lower_bound(view, bounds.sum_over_packing as nat),
        exists|hs: Seq<NodeIdx>| #[trigger] is_hitting_set_of(view, hs) && hs.len() == bounds.greedy_upper,
        bounds.max_degree <= bounds.greedy_upper,
        bounds.sum_degree <= bounds.greedy_upper,
        bounds.efficiency <= bounds.greedy_upper,
        bounds.packing <= bounds.greedy_upper,
        bounds.sum_over_packing <= bounds.greedy_upper,
{
    lemma_bounds_defined_of_pristine(view);
    lemma_max_degree_bound_sound(view, bounds.max_degree as nat);
    lemma_residual_bound_of_pristine(view, bounds.max_degree as nat);
    lemma_best_threshold_sound(view, view.live_edges().len(), bounds.sum_degree as nat);
    lemma_residual_bound_of_pristine(view, bounds.sum_degree as nat);
    lemma_efficiency_bound_sound(view, bounds.efficiency as nat);
    lemma_residual_bound_of_pristine(view, bounds.efficiency as nat);
    let packed = choose|packed: Seq<EdgeIdx>| #[trigger]
        packing_bounds_of(view, packed, bounds.packing, bounds.sum_over_packing);
    lemma_sum_over_packing_sound(view, packed, bounds.sum_over_packing as nat);
    lemma_residual_bound_of_pristine(view, bounds.sum_over_packing as nat);
    let chosen = choose|chosen: Seq<NodeIdx>| #[trigger]
        is_greedy_choice(view, chosen) && bounds.greedy_upper == chosen.len();
    lemma_greedy_choice_hits(view, chosen);
    assert(is_hitting_set_of(view, chosen)) by {
        assert forall|e: int| 0 <= e < view.edges.len() implies #[trigger] hits_edge(view, e, chosen.to_set()) by {
            assert(view.edge_live(e));
        }
    }
    lemma_lower_bound_below_hitting_set(view, bounds.max_degree as nat, chosen);
    lemma_lower_bound_below_hitting_set(view, bounds.sum_degree as nat, chosen);
    lemma_lower_bound_below_hitting_set(view, bounds.efficiency as nat, chosen);
    lemma_lower_bound_below_hitting_set(view, bounds.sum_over_packing as nat, chosen);
}

/// Computes the bounds that a report shows for the whole instance.
pub fn calculate_root_bounds(instance: &Instance, settings: &Settings) -> (bounds: RootBounds)
    requires
        instance.wf(),
    ensures
        root_bounds_of(instance@, bounds),
{
    let num_nodes = instance.num_nodes_total();
    let root_packing = PackingBound::new(instance, settings);
    let max_degree = match calc_max_degree_bound(instance) {
        Some(bound) => bound,
        None => num_nodes,
    };
    let efficiency = match calc_efficiency_bound(instance) {
        Some(bound) => bound,
        None => num_nodes,
    };
    let greedy = calc_greedy_approximation(instance);
    let bounds = RootBounds {
        max_degree,
        sum_degree: calc_sum_degree_bound(instance),
        efficiency,
        packing: root_packing.bound(),
        sum_over_packing: root_packing.calc_sum_over_packing_bound(instance),
        greedy_upper: greedy.len(),
    };
    proof {
        assert(packing_bounds_of(instance@, root_packing@, bounds.packing, bounds.sum_over_packing));
    }
    bounds
}

/// What the report of a finished run says, given the hitting set `initial`
/// that the search started from and the hitting set `hs` that it ended with.
pub open spec fn run_reported(
    view: InstanceView,
    file_name: String,
    settings: Settings,
    initial: Seq<NodeIdx>,
    hs: Seq<NodeIdx>,
    report: Report,
) -> bool {
    let history = report.upper_bound_improvements@;
    &&& report.file_name == file_name
    &&& report.settings == settings
    &&& report.opt == hs.len()
    &&& report.runtimes.total is Some
    &&& report.reductions.packing_from_scratch_limit == settings.packing_from_scratch_limit
    &&& root_bounds_of(view, report.root_bounds)
    &&& report.ordered()
    &&& improvements_above(history, hs.len())
    &&& (hs.len() < initial.len() <==> history.len() > 0)
    &&& history.len() > 0 ==> history.last().new_bound == hs.len() && history[0].new_bound < initial.len()
    &&& forall|i: int| 0 <= i < history.len() - 1 ==> (#[trigger] history[i]).new_bound > settings.stop_at
    &&& history.len() > 0 && hs.len() <= settings.stop_at ==> history.last().branching_steps
        == report.branching_steps
    &&& initial.len() <= settings.stop_at ==> report.branching_steps == 0
}

/// Finds a hitting set of `instance`: a minimum one, unless the time limit
/// or the target size of the settings ends the search before.
///
/// The search starts from the initial hitting set of the settings, or from
/// all nodes, and fails without searching if the settings hold an initial
/// hitting set that is none. It ends with a hitting set at most as large as
/// the one it started from. Without a time limit that hitting set is a
/// minimum one or within the target size, so with a target size of zero it
/// is a minimum one.
pub fn solve(mut instance: Instance, file_name: String, settings: Settings) -> (outcome: Result<
    (Vec<NodeIdx>, Report),
    SolveError,
>)
    requires
        instance.wf(),
        instance@.pristine(),
    ensures
        outcome is Ok <==> settings_accepted(instance@, settings),
        match outcome {
            Ok((hs, report)) => {
                &&& is_hitting_set_of(instance@, hs@)
                &&& exists|initial: Seq<NodeIdx>| #[trigger]
                    starts_from(instance@, settings, initial) && minimum_improves(instance@, initial, hs@)
                        && run_reported(instance@, file_name, settings, initial, hs@, report)
                &&& settings.time_limit == 0 ==> is_minimum_hitting_set(instance@, hs@) || hs@.len()
                    <= settings.stop_at
                &&& settings.time_limit == 0 && settings.stop_at == 0 ==> is_minimum_hitting_set(instance@, hs@)
            },
            Err(error) => initial_hitting_set_of(instance@, settings, Err(error)),
        },
{
    let ghost view = instance@;
    let initial_hs = match get_initial_hitting_set(&instance, &settings) {
        Ok(nodes) => nodes,
        Err(error) => {
            return Err(error);
        },
    };
    let ghost initial = initial_hs@;
    proof {
        lemma_initial_is_hitting_set(view, settings, initial);
    }
    let root_bounds = calculate_root_bounds(&instance, &settings);
    let packing_from_scratch_limit = settings.packing_from_scratch_limit;
    let mut report = Report {
        file_name,
        opt: initial_hs.len(),
        branching_steps: 0,
        settings,
        root_bounds,
        runtimes: RuntimeStats::default(),
        reductions: ReductionStats::new(packing_from_scratch_limit),
        upper_bound_improvements: Vec::new(),
    };
    let mut state = State {
        partial_hs: Vec::new(),
        minimum_hs: initial_hs,
        last_log_time: now(),
        solve_start_time: now(),
    };
    proof {
        assert(state.partial_hs@.to_set() =~= Set::<NodeIdx>::empty());
    }
    let status = solve_recursive(&mut instance, &mut state, &mut report);
    report.runtimes.total = Some(elapsed(&state.solve_start_time));
    report.opt = state.minimum_hs.len();
    proof {
        let hs = state.minimum_hs@;
        if status == Status::Continue {
            lemma_root_space(view, hs.len());
        }
    }
    Ok((state.minimum_hs, report))
}

/// What the search starts from is a hitting set of a pristine instance.
proof fn lemma_initial_is_hitting_set(view: InstanceView, settings: Settings, initial: Seq<NodeIdx>)
    requires
        view.wf(),
        view.pristine(),
        settings_accepted(view, settings),
        starts_from(view, settings, initial),
    ensures
        is_hitting_set_of(view, initial),
{
    assert forall|e: int| 0 <= e < view.edges.len() implies #[trigger] hits_edge(view, e, initial.to_set()) by {
        assert(view.edge_live(e));
        if settings.initial_hitting_set is None {
            assert(view.node_live(view.edges[e][0]));
        }
    }
    assert forall|i: int| 0 <= i < initial.len() implies #[trigger] initial[i] < view.num_nodes by {
        if settings.initial_hitting_set is None {
            assert(initial.contains(initial[i]));
        }
    }
}

} // verus!
