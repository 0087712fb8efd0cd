//! What a hitting set is, what a minimum one is, and which hitting sets a
//! search path can still reach.

use crate::instance::{InstanceView, NodeIdx};
use vstd::prelude::*;
use vstd::set_lib::*;

verus! {

/// `hs` holds a member of edge `e`.
pub open spec fn hits_edge(view: InstanceView, e: int, hs: Set<NodeIdx>) -> bool {
    exists|i: int| 0 <= i < view.edges[e].len() && hs.contains(#[trigger] view.edges[e][i])
}

/// `hs` holds a member of every edge that is live.
pub open spec fn hits_live_edges(view: InstanceView, hs: Set<NodeIdx>) -> bool {
    forall|e: int| #[trigger] view.edge_live(e) ==> hits_edge(view, e, hs)
}

/// `hs` holds a member of every edge of the universe, live or not.
pub open spec fn hits_all_edges(view: InstanceView, hs: Set<NodeIdx>) -> bool {
    forall|e: int| 0 <= e < view.edges.len() ==> #[trigger] hits_edge(view, e, hs)
}

/// The nodes listed in `hs` exist and meet every edge of the universe.
pub open spec fn is_hitting_set_of(view: InstanceView, hs: Seq<NodeIdx>) -> bool {
    &&& hits_all_edges(view, hs.to_set())
    &&& forall|i: int| 0 <= i < hs.len() ==> #[trigger] hs[i] < view.num_nodes
}

/// No set of nodes that meets every edge of the universe has fewer than
/// `size` elements.
pub open spec fn is_lower_bound(view: InstanceView, size: nat) -> bool {
    forall|other: Set<NodeIdx>| other.finite() && #[trigger] hits_all_edges(view, other) ==> size <= other.len()
}

/// `hs` is a hitting set, and no set of nodes that meets every edge is
/// smaller than the list `hs` is long. (So `hs` lists no node twice.)
pub open spec fn is_minimum_hitting_set(view: InstanceView, hs: Seq<NodeIdx>) -> bool {
    is_hitting_set_of(view, hs) && is_lower_bound(view, hs.len())
}

/// The sets of nodes that the search path described by `view` can still end
/// in: they meet every edge of the universe, hold every taken node and no
/// node that was removed without being taken.
pub open spec fn in_search_space(view: InstanceView, hs: Set<NodeIdx>) -> bool {
    &&& hs.finite()
    &&& hits_all_edges(view, hs)
    &&& view.taken.subset_of(hs)
    &&& forall|v: NodeIdx| view.removed.contains(v) && !view.taken.contains(v) ==> !hs.contains(v)
}

/// Nothing in the search space of `view` has fewer than `bound` elements.
pub open spec fn bounded_below(view: InstanceView, bound: nat) -> bool {
    forall|hs: Set<NodeIdx>| #[trigger] in_search_space(view, hs) ==> bound <= hs.len()
}

/// Two views allow the same sets.
pub open spec fn same_search_space(a: InstanceView, b: InstanceView) -> bool {
    forall|hs: Set<NodeIdx>| #[trigger] in_search_space(a, hs) <==> in_search_space(b, hs)
}

/// The state that a search path is in: `partial` lists, each once, exactly
/// the taken nodes, and `minimum` is a hitting set.
pub open spec fn search_ready(view: InstanceView, partial: Seq<NodeIdx>, minimum: Seq<NodeIdx>) -> bool {
    &&& view.wf()
    &&& view.num_nodes <= usize::MAX
    &&& partial.no_duplicates()
    &&& view.taken == partial.to_set()
    &&& is_hitting_set_of(view, minimum)
}

/// The live nodes of a well-formed view are finitely many, and removing one
/// of them leaves one fewer.
pub proof fn lemma_live_nodes(view: InstanceView)
    requires
        view.wf(),
        view.num_nodes <= usize::MAX,
    ensures
        view.live_nodes().finite(),
        view.live_nodes().len() <= view.num_nodes,
        forall|v: NodeIdx| #[trigger]
            view.node_live(v) ==> view.remove_node(v).live_nodes() == view.live_nodes().remove(v),
{
    let n: usize = view.num_nodes as usize;
    lemma_len_subset(view.live_nodes(), Set::<usize>::range(0, n));
}

/// Every set in the search space holds the partial solution, so it is at
/// least as large.
pub proof fn lemma_partial_is_bound(view: InstanceView, partial: Seq<NodeIdx>, hs: Set<NodeIdx>)
    requires
        partial.no_duplicates(),
        view.taken == partial.to_set(),
        in_search_space(view, hs),
    ensures
        partial.len() <= hs.len(),
{
    partial.unique_seq_to_set();
    lemma_len_subset(view.taken, hs);
}

/// While an edge is live, every set in the search space holds a node beyond
/// the partial solution.
pub proof fn lemma_live_edge_needs_node(view: InstanceView, partial: Seq<NodeIdx>, e: int, hs: Set<NodeIdx>)
    requires
        view.wf(),
        partial.no_duplicates(),
        view.taken == partial.to_set(),
        view.edge_live(e),
        in_search_space(view, hs),
    ensures
        partial.len() + 1 <= hs.len(),
{
    partial.unique_seq_to_set();
    assert(hits_edge(view, e, hs));
    let i = choose|i: int| 0 <= i < view.edges[e].len() && hs.contains(#[trigger] view.edges[e][i]);
    let w = view.edges[e][i];
    lemma_len_subset(view.taken.insert(w), hs);
}

/// A live edge whose members are all removed cannot be met any more: the
/// search space is empty.
pub proof fn lemma_dead_end(view: InstanceView, e: int, hs: Set<NodeIdx>)
    requires
        view.wf(),
        view.edge_live(e),
        forall|i: int| 0 <= i < view.edges[e].len() ==> !view.node_live(#[trigger] view.edges[e][i]),
    ensures
        !in_search_space(view, hs),
{
    if in_search_space(view, hs) {
        assert(hits_edge(view, e, hs));
    }
}

/// Taking a live node that is the only live member of a live edge loses
/// nothing: the search space stays the same.
pub proof fn lemma_forced_node(view: InstanceView, e: int, v: NodeIdx)
    requires
        view.wf(),
        view.edge_live(e),
        view.node_live(v),
        forall|i: int|
            0 <= i < view.edges[e].len() && view.node_live(#[trigger] view.edges[e][i]) ==> view.edges[e][i] == v,
    ensures
        same_search_space(view, view.remove_node(v).take_node(v)),
{
    let next = view.remove_node(v).take_node(v);
    assert forall|hs: Set<NodeIdx>| #[trigger] in_search_space(view, hs) <==> in_search_space(next, hs) by {
        if in_search_space(view, hs) {
            assert(hits_edge(view, e, hs));
            lemma_same_edges_hit(view, next, hs);
        }
        if in_search_space(next, hs) {
            lemma_same_edges_hit(next, view, hs);
        }
    }
}

/// Whether a set meets every edge depends on the universe alone.
pub proof fn lemma_same_edges_hit(a: InstanceView, b: InstanceView, hs: Set<NodeIdx>)
    requires
        a.edges == b.edges,
        hits_all_edges(a, hs),
    ensures
        hits_all_edges(b, hs),
{
    assert forall|e: int| 0 <= e < b.edges.len() implies #[trigger] hits_edge(b, e, hs) by {
        assert(hits_edge(a, e, hs));
    }
}

/// Branching on a live node splits the search space in two: the sets that
/// hold the node and the sets that do not. A bound for both halves is a
/// bound for the whole.
pub proof fn lemma_branch_covers(view: InstanceView, v: NodeIdx, bound: nat)
    requires
        view.node_live(v),
        bounded_below(view.remove_node(v).take_node(v), bound),
        bounded_below(view.remove_node(v), bound),
    ensures
        bounded_below(view, bound),
{
    let with = view.remove_node(v).take_node(v);
    let without = view.remove_node(v);
    assert forall|hs: Set<NodeIdx>| #[trigger] in_search_space(view, hs) implies bound <= hs.len() by {
        if hs.contains(v) {
            lemma_same_edges_hit(view, with, hs);
            assert(in_search_space(with, hs));
        } else {
            lemma_same_edges_hit(view, without, hs);
            assert(in_search_space(without, hs));
        }
    }
}

/// Once no edge is live, the taken nodes meet every edge.
pub proof fn lemma_solved(view: InstanceView, partial: Seq<NodeIdx>)
    requires
        view.wf(),
        view.taken == partial.to_set(),
        forall|e: int| !view.edge_live(e),
    ensures
        is_hitting_set_of(view, partial),
{
    assert forall|e: int| 0 <= e < view.edges.len() implies #[trigger] hits_edge(view, e, partial.to_set()) by {
        assert(!view.edge_live(e));
    }
    assert forall|i: int| 0 <= i < partial.len() implies #[trigger] partial[i] < view.num_nodes by {
        assert(partial.to_set().contains(partial[i]));
    }
}

/// With nothing removed and nothing taken, every finite set that meets all
/// edges is in the search space: a bound for the search space is a bound
/// for the instance.
pub proof fn lemma_root_space(view: InstanceView, bound: nat)
    requires
        view.pristine(),
        bounded_below(view, bound),
    ensures
        is_lower_bound(view, bound),
{
    assert forall|other: Set<NodeIdx>| other.finite() && #[trigger] hits_all_edges(view, other) implies bound
        <= other.len() by {
        assert(in_search_space(view, other));
    }
}

/// A minimum hitting set lists no node twice.
pub proof fn lemma_minimum_lists_no_node_twice(view: InstanceView, hs: Seq<NodeIdx>)
    requires
        is_minimum_hitting_set(view, hs),
    ensures
        hs.no_duplicates(),
{
    hs.lemma_cardinality_of_set();
    hs.lemma_no_dup_set_cardinality();
}

/// All minimum hitting sets of an instance have the same size.
pub proof fn lemma_minimum_sizes_agree(view: InstanceView, a: Seq<NodeIdx>, b: Seq<NodeIdx>)
    requires
        is_minimum_hitting_set(view, a),
        is_minimum_hitting_set(view, b),
    ensures
        a.len() == b.len(),
{
    a.lemma_cardinality_of_set();
    b.lemma_cardinality_of_set();
}

/// A lower bound is no greater than the length of any hitting set.
pub proof fn lemma_lower_bound_below_hitting_set(view: InstanceView, bound: nat, hs: Seq<NodeIdx>)
    requires
        is_lower_bound(view, bound),
        is_hitting_set_of(view, hs),
    ensures
        bound <= hs.len(),
{
    hs.lemma_cardinality_of_set();
}

/// Deleting a live node and the edges around it, and bringing both back in
/// the opposite order, leaves the instance as it was.
pub proof fn lemma_delete_then_restore(view: InstanceView, v: NodeIdx)
    requires
        view.wf(),
        view.node_live(v),
    ensures
        view.remove_node(v).take_node(v).release_node(v).revive_node(v) == view,
        view.remove_node(v).revive_node(v) == view,
{
    assert(view.removed.insert(v).remove(v) =~= view.removed);
    assert(view.taken.insert(v).remove(v) =~= view.taken);
}

} // verus!
