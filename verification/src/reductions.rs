//! Simplification of the instance between branching steps: pruning by the
//! best known size, detection of dead ends, and unit edges, whose only live
//! member has to be taken.

use crate::instance::{EdgeIdx, Instance, InstanceView, LiveMembers, NodeIdx};
use crate::report::Report;
use crate::search_space::{
    bounded_below, hits_edge, hits_live_edges, in_search_space, lemma_dead_end, lemma_forced_node,
    lemma_live_edge_needs_node, lemma_live_nodes, lemma_partial_is_bound, lemma_same_edges_hit,
    same_search_space, search_ready,
};
use crate::solve::{is_branching_node, select_branching_node, State};
use vstd::prelude::*;

verus! {

/// What the reduction found out about the current sub-problem.
#[derive(Debug, Clone, Copy, PartialEq, Eq, Structural)]
pub enum ReductionResult {
    /// No edge is left: the partial solution is a hitting set, and smaller
    /// than the best known.
    Solved,
    /// Nothing smaller than the best known hitting set lies this way.
    Unsolvable,
    /// The best known hitting set is already as small as was asked for.
    Stop,
    /// No rule applies any more: branch.
    Finished,
}

/// What one pass over the live edges found.
#[derive(Debug, Clone, Copy, PartialEq, Eq, Structural)]
pub enum EdgeScan {
    /// No edge is live.
    NoLiveEdge,
    /// `edge` is the first live edge without a live member.
    DeadEnd { edge: EdgeIdx },
    /// Every live edge has a live member, and `edge` is the first with
    /// exactly one: `node`.
    Unit { edge: EdgeIdx, node: NodeIdx },
    /// Some edge is live, and every live edge has several live members.
    Open,
}

/// `scan` describes the live edges of `view`.
pub open spec fn scan_describes(view: InstanceView, scan: EdgeScan) -> bool {
    match scan {
        EdgeScan::NoLiveEdge => forall|e: int| !view.edge_live(e),
        EdgeScan::DeadEnd { edge } => {
            &&& view.edge_live(edge as int)
            &&& view.no_live_member(edge as int)
            &&& forall|e: int| 0 <= e < edge && #[trigger] view.edge_live(e) ==> !view.no_live_member(e)
        },
        EdgeScan::Unit { edge, node } => {
            &&& view.edge_live(edge as int)
            &&& view.only_live_member(edge as int, node)
            &&& forall|e: int| #[trigger] view.edge_live(e) ==> !view.no_live_member(e)
            &&& forall|e: int| 0 <= e < edge && #[trigger] view.edge_live(e) ==> view.several_live_members(e)
        },
        EdgeScan::Open => {
            &&& exists|e: int| view.edge_live(e)
            &&& forall|e: int| #[trigger] view.edge_live(e) ==> view.several_live_members(e)
        },
    }
}

/// Looks at every live edge once and reports the first dead end, else the
/// first unit edge, else whether any edge is live at all.
pub fn scan_edges(instance: &Instance) -> (scan: EdgeScan)
    requires
        instance.wf(),
    ensures
        scan_describes(instance@, scan),
{
    let num_edges = instance.num_edges_total();
    let mut unit: Option<(EdgeIdx, NodeIdx)> = None;
    let mut any_live = false;
    let mut e: usize = 0;
    while e < num_edges
        invariant
            instance.wf(),
            num_edges == instance@.edges.len(),
            e <= num_edges,
            any_live <==> exists|d: int| 0 <= d < e && instance@.edge_live(d),
            forall|d: int| 0 <= d < e && #[trigger] instance@.edge_live(d) ==> !instance@.no_live_member(d),
            match unit {
                None => forall|d: int|
                    0 <= d < e && #[trigger] instance@.edge_live(d) ==> instance@.several_live_members(d),
                Some((edge, node)) => {
                    &&& edge < e
                    &&& instance@.edge_live(edge as int)
                    &&& instance@.only_live_member(edge as int, node)
                    &&& forall|d: int|
                        0 <= d < edge && #[trigger] instance@.edge_live(d) ==> instance@.several_live_members(d)
                },
            },
        decreases num_edges - e,
    {
        if instance.is_edge_live(e) {
            any_live = true;
            match instance.live_members_of(e) {
                LiveMembers::Zero => {
                    return EdgeScan::DeadEnd { edge: e };
                },
                LiveMembers::One { node } => {
                    if unit.is_none() {
                        unit = Some((e, node));
                    }
                },
                LiveMembers::Many => {},
            }
        }
        e += 1;
    }
    match unit {
        Some((edge, node)) => EdgeScan::Unit { edge, node },
        None => if any_live {
            EdgeScan::Open
        } else {
            EdgeScan::NoLiveEdge
        },
    }
}

/// How a reduction ended, told by the state it left behind: `partial_len`
/// nodes taken, a best known hitting set of `minimum_len` nodes, and a target
/// size of `stop_at`.
pub open spec fn reduction_outcome(
    view: InstanceView,
    partial_len: nat,
    minimum_len: nat,
    stop_at: nat,
    result: ReductionResult,
) -> bool {
    match result {
        ReductionResult::Stop => minimum_len <= stop_at,
        ReductionResult::Solved => {
            &&& minimum_len > stop_at
            &&& partial_len < minimum_len
            &&& forall|e: int| !view.edge_live(e)
        },
        ReductionResult::Unsolvable => {
            &&& minimum_len > stop_at
            &&& {
                ||| partial_len >= minimum_len
                ||| (exists|e: int| view.edge_live(e)) && partial_len + 1 >= minimum_len
                ||| exists|e: int| view.edge_live(e) && view.no_live_member(e)
            }
        },
        ReductionResult::Finished => {
            &&& minimum_len > stop_at
            &&& partial_len + 1 < minimum_len
            &&& exists|e: int| view.edge_live(e)
            &&& forall|e: int| #[trigger] view.edge_live(e) ==> view.several_live_members(e)
        },
    }
}

/// The state after the first `k` nodes of `chosen` were taken.
pub open spec fn greedy_state(view: InstanceView, chosen: Seq<NodeIdx>, k: int) -> InstanceView {
    view.force_nodes(chosen.subrange(0, k).to_set())
}

/// In the state that the first `k` nodes of `forced` leave, no live edge is
/// a dead end and `forced[k]` is the only live member of the first unit edge.
pub open spec fn is_forced_step(view: InstanceView, forced: Seq<NodeIdx>, k: int) -> bool {
    exists|edge: EdgeIdx| scan_describes(greedy_state(view, forced, k), EdgeScan::Unit { edge, node: forced[k] })
}

/// Each node of `forced` had to be taken when it was its turn.
pub open spec fn is_unit_chain(view: InstanceView, forced: Seq<NodeIdx>) -> bool {
    forall|k: int| 0 <= k < forced.len() ==> #[trigger] is_forced_step(view, forced, k)
}

/// Where a reduction reports `Unsolvable`, no hitting set that the search
/// path can still reach is smaller than the best known one.
pub proof fn lemma_unsolvable_is_sound(
    view: InstanceView,
    partial: Seq<NodeIdx>,
    minimum: Seq<NodeIdx>,
    stop_at: nat,
)
    requires
        search_ready(view, partial, minimum),
        reduction_outcome(view, partial.len(), minimum.len(), stop_at, ReductionResult::Unsolvable),
    ensures
        bounded_below(view, minimum.len()),
{
    assert forall|hs: Set<NodeIdx>| #[trigger] in_search_space(view, hs) implies minimum.len() <= hs.len() by {
        if partial.len() >= minimum.len() {
            lemma_partial_is_bound(view, partial, hs);
        } else if exists|e: int| view.edge_live(e) && view.no_live_member(e) {
            let e = choose|e: int| view.edge_live(e) && view.no_live_member(e);
            lemma_dead_end(view, e, hs);
        } else {
            let e = choose|e: int| view.edge_live(e);
            lemma_live_edge_needs_node(view, partial, e, hs);
        }
    }
}

/// Where a reduction reports `Finished`, some node is live.
pub proof fn lemma_finished_has_live_node(view: InstanceView, partial_len: nat, minimum_len: nat, stop_at: nat)
    requires
        reduction_outcome(view, partial_len, minimum_len, stop_at, ReductionResult::Finished),
    ensures
        exists|v: NodeIdx| view.node_live(v),
{
}

/// The undo token of a reduction: the nodes that the reduction took, in the
/// order it took them.
#[derive(Debug)]
pub struct Reduction {
    forced: Vec<NodeIdx>,
}

impl View for Reduction {
    type V = Seq<NodeIdx>;

    closed spec fn view(&self) -> Seq<NodeIdx> {
        self.forced@
    }
}

impl Reduction {
    /// Undoes the reduction that handed out this token: takes its nodes off
    /// the end of `partial_hs` and makes them, and the edges deleted on their
    /// account, live again.
    pub fn restore(self, instance: &mut Instance, partial_hs: &mut Vec<NodeIdx>)
        requires
            old(instance).wf(),
            self@.no_duplicates(),
            self@.len() <= old(partial_hs)@.len(),
            old(partial_hs)@.subrange(old(partial_hs)@.len() - self@.len(), old(partial_hs)@.len() as int) == self@,
            forall|i: int|
                0 <= i < self@.len() ==> old(instance)@.removed.contains(#[trigger] self@[i]) && old(
                    instance,
                )@.taken.contains(self@[i]),
        ensures
            final(instance).wf(),
            final(instance)@ == old(instance)@.unforce_nodes(self@.to_set()),
            final(partial_hs)@ == old(partial_hs)@.subrange(0, old(partial_hs)@.len() - self@.len()),
    {
        let ghost start = instance@;
        let ghost stack = partial_hs@;
        let mut k: usize = self.forced.len();
        proof {
            assert(self@.subrange(k as int, self@.len() as int).to_set() =~= Set::<NodeIdx>::empty());
            assert(start.removed - Set::<NodeIdx>::empty() =~= start.removed);
            assert(start.taken - Set::<NodeIdx>::empty() =~= start.taken);
        }
        while k > 0
            invariant
                instance.wf(),
                k <= self@.len(),
                self@ == self.forced@,
                self@.no_duplicates(),
                self@.len() <= stack.len(),
                stack.subrange(stack.len() - self@.len(), stack.len() as int) == self@,
                partial_hs@ == stack.subrange(0, stack.len() - self@.len() + k),
                instance@ == start.unforce_nodes(self@.subrange(k as int, self@.len() as int).to_set()),
                forall|i: int|
                    0 <= i < self@.len() ==> start.removed.contains(#[trigger] self@[i]) && start.taken.contains(
                        self@[i],
                    ),
            decreases k,
        {
            k -= 1;
            let v = self.forced[k];
            let ghost undone = self@.subrange(k as int + 1, self@.len() as int);
            partial_hs.pop();
            instance.restore_incident_edges(v);
            instance.restore_node(v);
            proof {
                let now = self@.subrange(k as int, self@.len() as int);
                assert(now =~= seq![v] + undone);
                assert(now.to_set() =~= undone.to_set().insert(v)) by {
                    assert forall|u: NodeIdx| now.to_set().contains(u) <==> undone.to_set().insert(v).contains(
                        u,
                    ) by {
                        if undone.contains(u) {
                            let j = choose|j: int| 0 <= j < undone.len() && undone[j] == u;
                            assert(now[j + 1] == u);
                        }
                        if u == v {
                            assert(now[0] == v);
                        }
                    }
                }
                assert(instance@.removed =~= start.removed - now.to_set());
                assert(instance@.taken =~= start.taken - now.to_set());
            }
        }
        proof {
            assert(self@.subrange(0, self@.len() as int) =~= self@);
        }
    }
}

/// Simplifies the sub-problem that `instance` and `state` describe, as far
/// as the rules go, and says how it ended.
///
/// A best known hitting set within the target size ends it at once. Otherwise
/// the rules are applied in turn until one decides: a partial solution that is
/// not smaller than the best known one is given up; an instance without live
/// edges is solved; an instance with live edges whose partial solution is one
/// node short of the best known size is given up, and so is one with a live
/// edge that has no live member; the only live member of a live edge is taken
/// into the partial solution, after which the rules start over. Where none
/// applies, the reduction is finished. The token that comes back undoes what
/// the reduction took.
pub fn reduce(instance: &mut Instance, state: &mut State, report: &Report) -> (out: (ReductionResult, Reduction))
    requires
        old(instance).wf(),
        search_ready(old(instance)@, old(state).partial_hs@, old(state).minimum_hs@),
    ensures
        final(instance).wf(),
        search_ready(final(instance)@, final(state).partial_hs@, final(state).minimum_hs@),
        final(state).minimum_hs == old(state).minimum_hs,
        final(state).solve_start_time == old(state).solve_start_time,
        final(state).last_log_time == old(state).last_log_time,
        final(state).partial_hs@ == old(state).partial_hs@ + out.1@,
        out.1@.no_duplicates(),
        forall|i: int| 0 <= i < out.1@.len() ==> old(instance)@.node_live(#[trigger] out.1@[i]),
        final(instance)@ == old(instance)@.force_nodes(out.1@.to_set()),
        is_unit_chain(old(instance)@, out.1@),
        same_search_space(old(instance)@, final(instance)@),
        reduction_outcome(
            final(instance)@,
            final(state).partial_hs@.len(),
            final(state).minimum_hs@.len(),
            report.settings.stop_at as nat,
            out.0,
        ),
        out.0 == ReductionResult::Stop ==> out.1@.len() == 0,
{
    let ghost entry = instance@;
    let ghost entry_partial = state.partial_hs@;
    let mut forced: Vec<NodeIdx> = Vec::new();
    proof {
        assert(entry.force_nodes(forced@.to_set()).removed =~= entry.removed);
        assert(entry.force_nodes(forced@.to_set()).taken =~= entry.taken);
    }
    if state.minimum_hs.len() <= report.settings.stop_at {
        return (ReductionResult::Stop, Reduction { forced });
    }
    loop
        invariant
            instance.wf(),
            entry == old(instance)@,
            entry_partial == old(state).partial_hs@,
            search_ready(instance@, state.partial_hs@, state.minimum_hs@),
            search_ready(entry, entry_partial, state.minimum_hs@),
            state.minimum_hs == old(state).minimum_hs,
            state.solve_start_time == old(state).solve_start_time,
            state.last_log_time == old(state).last_log_time,
            state.minimum_hs@.len() > report.settings.stop_at,
            state.partial_hs@ == entry_partial + forced@,
            forced@.no_duplicates(),
            forall|i: int| 0 <= i < forced@.len() ==> entry.node_live(#[trigger] forced@[i]),
            forall|i: int| 0 <= i < forced@.len() ==> instance@.removed.contains(#[trigger] forced@[i]),
            instance@ == entry.force_nodes(forced@.to_set()),
            is_unit_chain(entry, forced@),
            same_search_space(entry, instance@),
        decreases instance@.live_nodes().len(),
    {
        let partial_len = state.partial_hs.len();
        let minimum_len = state.minimum_hs.len();
        if partial_len >= minimum_len {
            return (ReductionResult::Unsolvable, Reduction { forced });
        }
        let scan = scan_edges(instance);
        match scan {
            EdgeScan::NoLiveEdge => {
                return (ReductionResult::Solved, Reduction { forced });
            },
            EdgeScan::DeadEnd { .. } => {
                return (ReductionResult::Unsolvable, Reduction { forced });
            },
            EdgeScan::Unit { edge, node } => {
                if partial_len + 1 >= minimum_len {
                    return (ReductionResult::Unsolvable, Reduction { forced });
                }
                let ghost before = instance@;
                let ghost before_partial = state.partial_hs@;
                let ghost before_forced = forced@;
                proof {
                    lemma_forced_node(before, edge as int, node);
                    lemma_live_nodes(before);
                }
                instance.delete_node(node);
                instance.delete_incident_edges(node);
                state.partial_hs.push(node);
                forced.push(node);
                proof {
                    let after = instance@;
                    assert(after.live_nodes() =~= before.remove_node(node).live_nodes());
                    before_partial.lemma_push_to_set_commute(node);
                    before_forced.lemma_push_to_set_commute(node);
                    assert(after.removed =~= entry.removed + forced@.to_set());
                    assert(after.taken =~= entry.taken + forced@.to_set());
                    lemma_same_edges_hit(before, after, state.minimum_hs@.to_set());
                    assert forall|k: int| 0 <= k < forced@.len() implies #[trigger] is_forced_step(
                        entry,
                        forced@,
                        k,
                    ) by {
                        if k < before_forced.len() {
                            assert(forced@.subrange(0, k) =~= before_forced.subrange(0, k));
                            assert(is_forced_step(entry, before_forced, k));
                        } else {
                            assert(forced@.subrange(0, k) =~= before_forced);
                            assert(scan_describes(
                                greedy_state(entry, forced@, k),
                                EdgeScan::Unit { edge, node: forced@[k] },
                            ));
                        }
                    }
                }
            },
            EdgeScan::Open => {
                if partial_len + 1 >= minimum_len {
                    return (ReductionResult::Unsolvable, Reduction { forced });
                }
                return (ReductionResult::Finished, Reduction { forced });
            },
        }
    }
}

/// Every live edge has a live member: the sub-problem can be solved.
pub open spec fn every_live_edge_open(view: InstanceView) -> bool {
    forall|e: int| #[trigger] view.edge_live(e) ==> !view.no_live_member(e)
}

/// The greedy choice goes on while some edge is live and every live edge has
/// a live member.
pub open spec fn greedy_goes_on(view: InstanceView) -> bool {
    (exists|e: int| view.edge_live(e)) && every_live_edge_open(view)
}

/// `chosen` is what the greedy choice takes, node by node: each node is the
/// branching node of the state that the nodes before it leave, in which the
/// choice goes on, and in the state that they all leave it goes on no more.
pub open spec fn is_greedy_choice(view: InstanceView, chosen: Seq<NodeIdx>) -> bool {
    &&& forall|k: int|
        0 <= k < chosen.len() ==> greedy_goes_on(#[trigger] greedy_state(view, chosen, k)) && is_branching_node(
            greedy_state(view, chosen, k),
            chosen[k],
        )
    &&& !greedy_goes_on(greedy_state(view, chosen, chosen.len() as int))
}

/// A hitting set for the live edges of `instance`, found by taking, again and
/// again, the live node that the most live edges share, until no edge is live
/// or a live edge has no live member left. The instance itself stays as it
/// is.
pub fn calc_greedy_approximation(instance: &Instance) -> (chosen: Vec<NodeIdx>)
    requires
        instance.wf(),
    ensures
        chosen@.no_duplicates(),
        forall|i: int| 0 <= i < chosen@.len() ==> instance@.node_live(#[trigger] chosen@[i]),
        every_live_edge_open(instance@) ==> hits_live_edges(instance@, chosen@.to_set()),
        is_greedy_choice(instance@, chosen@),
{
    let mut work = instance.clone();
    let mut chosen: Vec<NodeIdx> = Vec::new();
    proof {
        assert(instance@.removed + chosen@.to_set() =~= instance@.removed);
        assert(instance@.taken + chosen@.to_set() =~= instance@.taken);
    }
    loop
        invariant
            instance.wf(),
            work.wf(),
            work@ == instance@.force_nodes(chosen@.to_set()),
            chosen@.no_duplicates(),
            forall|i: int| 0 <= i < chosen@.len() ==> instance@.node_live(#[trigger] chosen@[i]),
            forall|k: int|
                0 <= k < chosen@.len() ==> greedy_goes_on(#[trigger] greedy_state(instance@, chosen@, k))
                    && is_branching_node(greedy_state(instance@, chosen@, k), chosen@[k]),
        decreases work@.live_nodes().len(),
    {
        let scan = scan_edges(&work);
        proof {
            assert(chosen@.subrange(0, chosen@.len() as int) =~= chosen@);
        }
        match scan {
            EdgeScan::NoLiveEdge => {
                proof {
                    assert forall|e: int| #[trigger] instance@.edge_live(e) implies hits_edge(
                        instance@,
                        e,
                        chosen@.to_set(),
                    ) by {
                        assert(!work@.edge_live(e));
                    }
                }
                return chosen;
            },
            EdgeScan::DeadEnd { edge } => {
                proof {
                    let e = edge as int;
                    assert(instance@.edge_live(e));
                }
                return chosen;
            },
            _ => {
                proof {
                    lemma_live_nodes(work@);
                }
                let node = select_branching_node(&work);
                let ghost before = work@;
                let ghost before_chosen = chosen@;
                work.delete_node(node);
                work.delete_incident_edges(node);
                chosen.push(node);
                proof {
                    before_chosen.lemma_push_to_set_commute(node);
                    assert(work@.removed =~= instance@.removed + chosen@.to_set());
                    assert(work@.taken =~= instance@.taken + chosen@.to_set());
                    assert(work@.live_nodes() =~= before.remove_node(node).live_nodes());
                    assert forall|k: int| 0 <= k < chosen@.len() implies greedy_goes_on(
                        #[trigger] greedy_state(instance@, chosen@, k),
                    ) && is_branching_node(greedy_state(instance@, chosen@, k), chosen@[k]) by {
                        assert(chosen@.subrange(0, k) =~= before_chosen.subrange(0, k));
                        assert(greedy_state(instance@, chosen@, k) == greedy_state(instance@, before_chosen, k));
                    }
                }
            },
        }
    }
}

/// Where every live edge has a live member, the greedy choice lists live
/// nodes, none of them twice, that meet every live edge.
pub proof fn lemma_greedy_choice_hits(view: InstanceView, chosen: Seq<NodeIdx>)
    requires
        view.wf(),
        every_live_edge_open(view),
        is_greedy_choice(view, chosen),
    ensures
        chosen.no_duplicates(),
        forall|i: int| 0 <= i < chosen.len() ==> view.node_live(#[trigger] chosen[i]),
        hits_live_edges(view, chosen.to_set()),
{
    assert forall|k: int| 0 <= k < chosen.len() implies view.node_live(#[trigger] chosen[k]) && forall|i: int|
        0 <= i < k ==> chosen[i] != chosen[k] by {
        assert(greedy_goes_on(greedy_state(view, chosen, k)));
        assert forall|i: int| 0 <= i < k implies chosen[i] != chosen[k] by {
            assert(chosen.subrange(0, k)[i] == chosen[i]);
        }
    }
    let last = greedy_state(view, chosen, chosen.len() as int);
    assert(every_live_edge_open(last)) by {
        assert forall|e: int| #[trigger] last.edge_live(e) implies !last.no_live_member(e) by {
            assert(view.edge_live(e));
        }
    }
    assert forall|e: int| #[trigger] view.edge_live(e) implies hits_edge(view, e, chosen.to_set()) by {
        assert(!last.edge_live(e));
    }
}

} // verus!
