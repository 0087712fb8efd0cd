//! Bounds on the size of a hitting set, read off the degrees of the nodes and
//! off sets of disjoint edges.

use crate::instance::{all_false, ascending, lemma_live_edges, EdgeIdx, Instance, InstanceView, NodeIdx};
use crate::report::Settings;
use crate::search_space::{hits_edge, hits_live_edges};
use vstd::prelude::*;

verus! {

/// `a / b`, rounded up.
pub open spec fn ceil_div(a: nat, b: nat) -> nat
    recommends
        b > 0,
{
    if a % b == 0 {
        a / b
    } else {
        a / b + 1
    }
}

/// `ceil_div(a, b)` is the least number of times that `b` makes up `a`.
pub proof fn lemma_ceil_div(a: nat, b: nat)
    requires
        b > 0,
    ensures
        ceil_div(a, b) * b >= a,
        a > 0 ==> (ceil_div(a, b) - 1) * b < a,
        ceil_div(a, b) <= a,
{
    let q = a / b;
    let r = a % b;
    assert(a == b * q + r && 0 <= r < b) by {
        vstd::arithmetic::div_mod::lemma_fundamental_div_mod(a as int, b as int);
    }
    assert(q * b == b * q) by (nonlinear_arith);
    assert((q + 1) * b == b * q + b) by (nonlinear_arith);
    assert((q - 1) * b == b * q - b) by (nonlinear_arith);
    assert(q <= b * q) by (nonlinear_arith)
        requires
            b > 0,
            q >= 0,
    ;
}

/// No number of times below `ceil_div(a, b)` makes `b` reach `a`.
pub proof fn lemma_ceil_div_least(a: nat, b: nat, k: nat)
    requires
        b > 0,
        k * b >= a,
    ensures
        ceil_div(a, b) <= k,
{
    lemma_ceil_div(a, b);
    if k < ceil_div(a, b) {
        assert(k * b <= (ceil_div(a, b) - 1) * b) by (nonlinear_arith)
            requires
                k <= ceil_div(a, b) - 1,
                b > 0,
        ;
    }
}

/// `a / b`, rounded up.
pub fn div_ceil(a: usize, b: usize) -> (q: usize)
    requires
        b > 0,
    ensures
        q == ceil_div(a as nat, b as nat),
{
    proof {
        lemma_ceil_div(a as nat, b as nat);
    }
    if a % b == 0 {
        a / b
    } else {
        a / b + 1
    }
}

/// The greatest degree among the live nodes below `p`; zero if there is none.
pub open spec fn max_degree_below(view: InstanceView, p: nat) -> nat
    decreases p,
{
    if p == 0 {
        0
    } else {
        let v = (p - 1) as NodeIdx;
        let rest = max_degree_below(view, (p - 1) as nat);
        if view.node_live(v) && view.degree(v) > rest {
            view.degree(v)
        } else {
            rest
        }
    }
}

/// The greatest degree among the live nodes; zero if there is none.
pub open spec fn max_degree(view: InstanceView) -> nat {
    max_degree_below(view, view.num_nodes)
}

/// No live node below `p` has a degree above `max_degree_below(view, p)`,
/// and unless that is zero, one of them has it.
pub proof fn lemma_max_degree_below(view: InstanceView, p: nat)
    requires
        p <= usize::MAX,
    ensures
        forall|v: NodeIdx| v < p && #[trigger] view.node_live(v) ==> view.degree(v) <= max_degree_below(view, p),
        max_degree_below(view, p) > 0 ==> exists|v: NodeIdx|
            v < p && #[trigger] view.node_live(v) && view.degree(v) == max_degree_below(view, p),
    decreases p,
{
    if p > 0 {
        lemma_max_degree_below(view, (p - 1) as nat);
    }
}

/// The degree of every node.
pub fn node_degrees(instance: &Instance) -> (degrees: Vec<usize>)
    requires
        instance.wf(),
    ensures
        degrees@.len() == instance@.num_nodes,
        forall|v: int| 0 <= v < degrees@.len() ==> #[trigger] degrees@[v] == instance@.degree(v as NodeIdx),
{
    let num_nodes = instance.num_nodes_total();
    let mut degrees: Vec<usize> = Vec::new();
    let mut v: usize = 0;
    while v < num_nodes
        invariant
            instance.wf(),
            num_nodes == instance@.num_nodes,
            v <= num_nodes,
            degrees@.len() == v,
            forall|u: int| 0 <= u < v ==> #[trigger] degrees@[u] == instance@.degree(u as NodeIdx),
        decreases num_nodes - v,
    {
        degrees.push(instance.node_degree(v));
        v += 1;
    }
    degrees
}

/// The greatest degree among the live nodes; zero if there is none.
pub fn greatest_degree(instance: &Instance, degrees: &Vec<usize>) -> (greatest: usize)
    requires
        instance.wf(),
        degrees@.len() == instance@.num_nodes,
        forall|v: int| 0 <= v < degrees@.len() ==> #[trigger] degrees@[v] == instance@.degree(v as NodeIdx),
    ensures
        greatest == max_degree(instance@),
{
    let mut greatest: usize = 0;
    let mut v: usize = 0;
    while v < degrees.len()
        invariant
            instance.wf(),
            degrees@.len() == instance@.num_nodes,
            forall|u: int| 0 <= u < degrees@.len() ==> #[trigger] degrees@[u] == instance@.degree(u as NodeIdx),
            v <= degrees@.len(),
            greatest == max_degree_below(instance@, v as nat),
        decreases degrees@.len() - v,
    {
        if instance.is_node_live(v) && degrees[v] > greatest {
            greatest = degrees[v];
        }
        v += 1;
    }
    greatest
}

/// The bound by the greatest degree: a node meets at most as many edges as
/// the greatest degree says, so the live edges need their number divided by
/// it, rounded up. Without live edges it is zero, and with live edges that no
/// live node is a member of there is none.
pub open spec fn max_degree_bound(view: InstanceView) -> Option<nat> {
    if view.live_edges().len() == 0 {
        Some(0)
    } else if max_degree(view) == 0 {
        None
    } else {
        Some(ceil_div(view.live_edges().len(), max_degree(view)))
    }
}

/// Computes the bound by the greatest degree.
pub fn calc_max_degree_bound(instance: &Instance) -> (bound: Option<usize>)
    requires
        instance.wf(),
    ensures
        match bound {
            Some(b) => max_degree_bound(instance@) == Some(b as nat),
            None => max_degree_bound(instance@) is None,
        },
{
    let num_edges = instance.num_edges();
    if num_edges == 0 {
        return Some(0);
    }
    let degrees = node_degrees(instance);
    let greatest = greatest_degree(instance, &degrees);
    if greatest == 0 {
        None
    } else {
        Some(div_ceil(num_edges, greatest))
    }
}

/// A way to meet every live edge with live nodes: a solution of the
/// sub-problem that the deletions leave.
pub open spec fn is_residual_solution(view: InstanceView, s: Set<NodeIdx>) -> bool {
    &&& s.finite()
    &&& forall|v: NodeIdx| s.contains(v) ==> view.node_live(v)
    &&& hits_live_edges(view, s)
}

/// No solution of the sub-problem has fewer than `bound` nodes.
pub open spec fn is_residual_lower_bound(view: InstanceView, bound: nat) -> bool {
    forall|s: Set<NodeIdx>| #[trigger] is_residual_solution(view, s) ==> bound <= s.len()
}

/// The live edges that `s` meets.
pub open spec fn covered(view: InstanceView, s: Set<NodeIdx>) -> Set<int> {
    Set::new(|e: int| view.edge_live(e) && hits_edge(view, e, s))
}

/// The elements of `s` below `p`.
pub open spec fn nodes_below(s: Set<NodeIdx>, p: nat) -> Set<NodeIdx> {
    Set::new(|v: NodeIdx| s.contains(v) && v < p)
}

/// What the degrees of the live nodes below `p` have above `t`, summed up.
pub open spec fn excess_below(view: InstanceView, t: nat, p: nat) -> nat
    decreases p,
{
    if p == 0 {
        0
    } else {
        let v = (p - 1) as NodeIdx;
        excess_below(view, t, (p - 1) as nat) + if view.node_live(v) && view.degree(v) > t {
            (view.degree(v) - t) as nat
        } else {
            0
        }
    }
}

/// What the degrees of the live nodes have above `t`, summed up.
pub open spec fn excess(view: InstanceView, t: nat) -> nat {
    excess_below(view, t, view.num_nodes)
}

/// The least number of nodes that can meet `demand` edges if each node
/// meets `t` edges and all that the degrees have above `t` comes for free.
pub open spec fn threshold_bound(view: InstanceView, demand: nat, t: nat) -> nat
    recommends
        t > 0,
{
    if demand <= excess(view, t) {
        0
    } else {
        ceil_div((demand - excess(view, t)) as nat, t)
    }
}

/// The greatest threshold worth trying: the greatest degree, or one.
pub open spec fn top_threshold(view: InstanceView) -> nat {
    if max_degree(view) == 0 {
        1
    } else {
        max_degree(view)
    }
}

/// `bound` is the greatest of the threshold bounds for `demand` edges, over
/// the thresholds from one to the greatest degree.
pub open spec fn is_best_threshold_bound(view: InstanceView, demand: nat, bound: nat) -> bool {
    &&& forall|t: nat| 1 <= t <= top_threshold(view) ==> #[trigger] threshold_bound(view, demand, t) <= bound
    &&& exists|t: nat| 1 <= t <= top_threshold(view) && #[trigger] threshold_bound(view, demand, t) == bound
}

/// The live edges that a set of nodes meets are finitely many, and one more
/// node adds at most its degree to their number.
pub proof fn lemma_covered_step(view: InstanceView, s: Set<NodeIdx>, v: NodeIdx)
    ensures
        covered(view, s).finite(),
        covered(view, s).len() <= view.live_edges().len(),
        covered(view, s.insert(v)).len() <= covered(view, s).len() + view.degree(v),
{
    lemma_live_edges(view, v);
    let more = covered(view, s.insert(v));
    let fewer = covered(view, s);
    let around = view.incident_live_edges(v);
    vstd::set_lib::lemma_len_subset(fewer, view.live_edges());
    vstd::set_lib::lemma_len_union(fewer, around);
    vstd::set_lib::lemma_len_subset(more, fewer + around);
}

/// A set of live nodes meets at most `t` live edges per node, and what the
/// degrees have above `t` on top of that.
pub proof fn lemma_threshold_below(view: InstanceView, s: Set<NodeIdx>, t: nat, p: nat)
    requires
        s.finite(),
        forall|v: NodeIdx| s.contains(v) ==> view.node_live(v),
        p <= usize::MAX,
    ensures
        nodes_below(s, p).finite(),
        covered(view, nodes_below(s, p)).len() <= nodes_below(s, p).len() * t + excess_below(view, t, p),
    decreases p,
{
    let now = nodes_below(s, p);
    assert(now.subset_of(s));
    if p == 0 {
        assert(covered(view, now) =~= Set::<int>::empty());
    } else {
        let v = (p - 1) as NodeIdx;
        let before = nodes_below(s, (p - 1) as nat);
        lemma_threshold_below(view, s, t, (p - 1) as nat);
        if s.contains(v) {
            assert(now =~= before.insert(v));
            lemma_covered_step(view, before, v);
            assert((before.len() + 1) * t == before.len() * t + t) by (nonlinear_arith);
        } else {
            assert(now =~= before);
        }
    }
}

/// No solution of the sub-problem is smaller than a threshold bound for at
/// most as many edges as are live.
pub proof fn lemma_threshold_sound(view: InstanceView, demand: nat, t: nat, s: Set<NodeIdx>)
    requires
        view.wf(),
        view.num_nodes <= usize::MAX,
        t >= 1,
        demand <= view.live_edges().len(),
        is_residual_solution(view, s),
    ensures
        threshold_bound(view, demand, t) <= s.len(),
{
    lemma_threshold_below(view, s, t, view.num_nodes);
    assert(nodes_below(s, view.num_nodes) =~= s);
    assert(covered(view, s) =~= view.live_edges());
    if demand > excess(view, t) {
        lemma_ceil_div_least((demand - excess(view, t)) as nat, t, s.len());
    }
}

/// The greatest threshold bound for at most as many edges as are live is a
/// lower bound for the sub-problem.
pub proof fn lemma_best_threshold_sound(view: InstanceView, demand: nat, bound: nat)
    requires
        view.wf(),
        view.num_nodes <= usize::MAX,
        demand <= view.live_edges().len(),
        is_best_threshold_bound(view, demand, bound),
    ensures
        is_residual_lower_bound(view, bound),
{
    let t = choose|t: nat| 1 <= t <= top_threshold(view) && #[trigger] threshold_bound(view, demand, t) == bound;
    assert forall|s: Set<NodeIdx>| #[trigger] is_residual_solution(view, s) implies bound <= s.len() by {
        lemma_threshold_sound(view, demand, t, s);
    }
}

/// The bound by the greatest degree is a lower bound for the sub-problem.
pub proof fn lemma_max_degree_bound_sound(view: InstanceView, bound: nat)
    requires
        view.wf(),
        view.num_nodes <= usize::MAX,
        max_degree_bound(view) == Some(bound),
    ensures
        is_residual_lower_bound(view, bound),
{
    if view.live_edges().len() > 0 {
        let t = max_degree(view);
        lemma_no_excess(view, t, view.num_nodes);
        assert forall|s: Set<NodeIdx>| #[trigger] is_residual_solution(view, s) implies bound <= s.len() by {
            lemma_threshold_sound(view, view.live_edges().len(), t, s);
        }
    }
}

/// No degree is above the greatest degree.
pub proof fn lemma_no_excess(view: InstanceView, t: nat, p: nat)
    requires
        t >= max_degree(view),
        p <= view.num_nodes <= usize::MAX,
    ensures
        excess_below(view, t, p) == 0,
    decreases p,
{
    if p > 0 {
        lemma_no_excess(view, t, (p - 1) as nat);
        lemma_max_degree_below(view, view.num_nodes);
    }
}

/// What the degrees of the live nodes have above `t`, summed up, but no more
/// than `cap`.
fn capped_excess(instance: &Instance, degrees: &Vec<usize>, t: usize, cap: usize) -> (sum: usize)
    requires
        instance.wf(),
        degrees@.len() == instance@.num_nodes,
        forall|v: int| 0 <= v < degrees@.len() ==> #[trigger] degrees@[v] == instance@.degree(v as NodeIdx),
    ensures
        sum == if excess(instance@, t as nat) <= cap {
            excess(instance@, t as nat)
        } else {
            cap as nat
        },
{
    let mut sum: usize = 0;
    let mut v: usize = 0;
    while v < degrees.len()
        invariant
            instance.wf(),
            degrees@.len() == instance@.num_nodes,
            forall|u: int| 0 <= u < degrees@.len() ==> #[trigger] degrees@[u] == instance@.degree(u as NodeIdx),
            v <= degrees@.len(),
            sum == if excess_below(instance@, t as nat, v as nat) <= cap {
                excess_below(instance@, t as nat, v as nat)
            } else {
                cap as nat
            },
        decreases degrees@.len() - v,
    {
        if instance.is_node_live(v) && degrees[v] > t {
            let extra = degrees[v] - t;
            if extra >= cap - sum {
                sum = cap;
            } else {
                sum = sum + extra;
            }
        }
        v += 1;
    }
    sum
}

/// The greatest of the threshold bounds for `demand` edges.
pub fn best_threshold_bound(instance: &Instance, degrees: &Vec<usize>, demand: usize) -> (bound: usize)
    requires
        instance.wf(),
        degrees@.len() == instance@.num_nodes,
        forall|v: int| 0 <= v < degrees@.len() ==> #[trigger] degrees@[v] == instance@.degree(v as NodeIdx),
    ensures
        is_best_threshold_bound(instance@, demand as nat, bound as nat),
        bound <= demand,
{
    let greatest = greatest_degree(instance, degrees);
    let top = if greatest == 0 {
        1
    } else {
        greatest
    };
    let mut bound: usize = 0;
    let mut t: usize = 0;
    while t < top
        invariant
            instance.wf(),
            degrees@.len() == instance@.num_nodes,
            forall|v: int| 0 <= v < degrees@.len() ==> #[trigger] degrees@[v] == instance@.degree(v as NodeIdx),
            top == top_threshold(instance@),
            t <= top,
            bound <= demand,
            forall|u: nat| 1 <= u <= t ==> #[trigger] threshold_bound(instance@, demand as nat, u) <= bound,
            t >= 1 ==> exists|u: nat| 1 <= u <= t && #[trigger] threshold_bound(instance@, demand as nat, u) == bound,
        decreases top - t,
    {
        t += 1;
        let free = capped_excess(instance, degrees, t, demand);
        let needed = if demand <= free {
            0
        } else {
            div_ceil(demand - free, t)
        };
        proof {
            assert(needed == threshold_bound(instance@, demand as nat, t as nat));
            lemma_ceil_div((demand - free) as nat, t as nat);
        }
        if needed > bound || t == 1 {
            bound = needed;
        }
    }
    bound
}

/// Computes the bound by the sum of degrees: the greatest threshold bound
/// for all the live edges.
pub fn calc_sum_degree_bound(instance: &Instance) -> (bound: usize)
    requires
        instance.wf(),
    ensures
        is_best_threshold_bound(instance@, instance@.live_edges().len(), bound as nat),
{
    let degrees = node_degrees(instance);
    best_threshold_bound(instance, &degrees, instance.num_edges())
}

/// The unit in which shares of a node are counted: a whole node.
pub const EFFICIENCY_SCALE: u128 = 4294967296;

/// The greatest degree among the live nodes at the first `j` places of edge
/// `e`; zero if there is none.
pub open spec fn member_degree_below(view: InstanceView, e: int, j: nat) -> nat
    decreases j,
{
    if j == 0 {
        0
    } else {
        let v = view.edges[e][j - 1];
        let rest = member_degree_below(view, e, (j - 1) as nat);
        if view.node_live(v) && view.degree(v) > rest {
            view.degree(v)
        } else {
            rest
        }
    }
}

/// The greatest degree among the live members of edge `e`; zero if there is
/// none.
pub open spec fn max_member_degree(view: InstanceView, e: int) -> nat {
    member_degree_below(view, e, view.edges[e].len())
}

/// The share of a node that edge `e` asks for at least: a node that meets
/// `e` meets no more edges than the greatest degree among the members of
/// `e`, so `e` takes up one part in that many of it. Rounded down to a
/// multiple of one in `EFFICIENCY_SCALE`.
pub open spec fn edge_share(view: InstanceView, e: int) -> nat {
    if max_member_degree(view, e) == 0 {
        0
    } else {
        EFFICIENCY_SCALE as nat / max_member_degree(view, e)
    }
}

/// The shares of the edges below `k` that satisfy `counted`, summed up.
pub open spec fn share_sum(view: InstanceView, counted: spec_fn(int) -> bool, k: nat) -> nat
    decreases k,
{
    if k == 0 {
        0
    } else {
        share_sum(view, counted, (k - 1) as nat) + if counted(k - 1) {
            edge_share(view, k - 1)
        } else {
            0
        }
    }
}

/// The shares of all live edges, summed up.
pub open spec fn live_share_sum(view: InstanceView) -> nat {
    share_sum(view, |e: int| view.edge_live(e), view.edges.len())
}

/// `shares`, in units of one in `EFFICIENCY_SCALE`, rounded to the nearest
/// whole, halves upwards.
pub open spec fn round_to_nodes(shares: nat) -> nat {
    (shares + 2147483648) / 4294967296
}

/// The efficiency bound: the shares of the live edges, summed up and rounded
/// to the nearest whole node, halves upwards. There is none if a live edge
/// has no live member.
pub open spec fn efficiency_bound(view: InstanceView) -> Option<nat> {
    if exists|e: int| view.edge_live(e) && view.no_live_member(e) {
        None
    } else {
        Some(round_to_nodes(live_share_sum(view)))
    }
}

/// A live member of a live edge has a degree of at least one and of at most
/// the greatest degree among the live members of the edge.
pub proof fn lemma_member_degree(view: InstanceView, e: int, i: int)
    requires
        view.edge_live(e),
        0 <= i < view.edges[e].len(),
        view.node_live(view.edges[e][i]),
    ensures
        1 <= view.degree(view.edges[e][i]) <= max_member_degree(view, e),
{
    let v = view.edges[e][i];
    lemma_live_edges(view, v);
    assert(view.incident_live_edges(v).contains(e));
    lemma_member_degree_below(view, e, view.edges[e].len());
}

/// No live node at the first `j` places of edge `e` has a degree above
/// `member_degree_below(view, e, j)`, which is zero if none of them is live.
pub proof fn lemma_member_degree_below(view: InstanceView, e: int, j: nat)
    requires
        j <= view.edges[e].len(),
    ensures
        forall|i: int|
            0 <= i < j && view.node_live(#[trigger] view.edges[e][i]) ==> view.degree(view.edges[e][i])
                <= member_degree_below(view, e, j),
        (forall|i: int| 0 <= i < j ==> !view.node_live(#[trigger] view.edges[e][i])) ==> member_degree_below(
            view,
            e,
            j,
        ) == 0,
    decreases j,
{
    if j > 0 {
        lemma_member_degree_below(view, e, (j - 1) as nat);
    }
}

/// The greatest degree among the live members of edge `e`.
pub fn greatest_member_degree(instance: &Instance, degrees: &Vec<usize>, e: EdgeIdx) -> (greatest: usize)
    requires
        instance.wf(),
        e < instance@.edges.len(),
        degrees@.len() == instance@.num_nodes,
        forall|v: int| 0 <= v < degrees@.len() ==> #[trigger] degrees@[v] == instance@.degree(v as NodeIdx),
    ensures
        greatest == max_member_degree(instance@, e as int),
{
    let members = instance.edge(e);
    let mut greatest: usize = 0;
    let mut j: usize = 0;
    while j < members.len()
        invariant
            instance.wf(),
            e < instance@.edges.len(),
            members@ == instance@.edges[e as int],
            degrees@.len() == instance@.num_nodes,
            forall|v: int| 0 <= v < degrees@.len() ==> #[trigger] degrees@[v] == instance@.degree(v as NodeIdx),
            j <= members@.len(),
            greatest == member_degree_below(instance@, e as int, j as nat),
        decreases members@.len() - j,
    {
        let v = members[j];
        if instance.is_node_live(v) && degrees[v] > greatest {
            greatest = degrees[v];
        }
        j += 1;
    }
    greatest
}

/// The shares of the edges below `k` sum up to at most `k` whole nodes.
pub proof fn lemma_share_sum_bound(view: InstanceView, counted: spec_fn(int) -> bool, k: nat)
    ensures
        share_sum(view, counted, k) <= k * EFFICIENCY_SCALE,
    decreases k,
{
    if k > 0 {
        lemma_share_sum_bound(view, counted, (k - 1) as nat);
    }
}

/// Computes the efficiency bound.
pub fn calc_efficiency_bound(instance: &Instance) -> (bound: Option<usize>)
    requires
        instance.wf(),
    ensures
        match bound {
            Some(b) => efficiency_bound(instance@) == Some(b as nat),
            None => efficiency_bound(instance@) is None,
        },
{
    let degrees = node_degrees(instance);
    let num_edges = instance.num_edges_total();
    let ghost live = |e: int| instance@.edge_live(e);
    let mut sum: u128 = 0;
    let mut e: usize = 0;
    while e < num_edges
        invariant
            instance.wf(),
            num_edges == instance@.edges.len(),
            degrees@.len() == instance@.num_nodes,
            forall|v: int| 0 <= v < degrees@.len() ==> #[trigger] degrees@[v] == instance@.degree(v as NodeIdx),
            live == |e: int| instance@.edge_live(e),
            e <= num_edges,
            sum == share_sum(instance@, live, e as nat),
            forall|d: int| 0 <= d < e && #[trigger] instance@.edge_live(d) ==> !instance@.no_live_member(d),
        decreases num_edges - e,
    {
        proof {
            lemma_share_sum_bound(instance@, live, e as nat);
        }
        if instance.is_edge_live(e) {
            let greatest = greatest_member_degree(instance, &degrees, e);
            proof {
                lemma_member_degree_below(instance@, e as int, instance@.edges[e as int].len());
                if !instance@.no_live_member(e as int) {
                    let i = choose|i: int|
                        0 <= i < instance@.edges[e as int].len() && instance@.node_live(
                            #[trigger] instance@.edges[e as int][i],
                        );
                    lemma_member_degree(instance@, e as int, i);
                }
            }
            if greatest == 0 {
                return None;
            }
            sum = sum + EFFICIENCY_SCALE / (greatest as u128);
        }
        e += 1;
    }
    proof {
        lemma_share_sum_bound(instance@, live, num_edges as nat);
    }
    Some(((sum + EFFICIENCY_SCALE / 2) / EFFICIENCY_SCALE) as usize)
}

/// Edges `a` and `b` have no live member in common.
pub open spec fn edges_disjoint(view: InstanceView, a: int, b: int) -> bool {
    forall|i: int, j: int|
        0 <= i < view.edges[a].len() && 0 <= j < view.edges[b].len() && view.node_live(
            #[trigger] view.edges[a][i],
        ) ==> view.edges[a][i] != #[trigger] view.edges[b][j]
}

/// `packed` is what going through the edges in order and packing each live
/// edge that has no live member in common with an edge packed before it
/// leaves packed, as far as the edges below `k` go.
pub open spec fn is_greedy_packing_below(view: InstanceView, packed: Set<int>, k: int) -> bool {
    forall|e: int|
        #![trigger packed.contains(e)]
        packed.contains(e) <==> 0 <= e < k && view.edge_live(e) && forall|d: int|
            0 <= d < e && #[trigger] packed.contains(d) ==> edges_disjoint(view, d, e)
}

/// `packed` is the greedy packing of the live edges.
pub open spec fn is_greedy_packing(view: InstanceView, packed: Set<int>) -> bool {
    is_greedy_packing_below(view, packed, view.edges.len() as int)
}

/// The edges listed in `s`, as a set.
pub open spec fn edge_set(s: Seq<EdgeIdx>) -> Set<int> {
    Set::new(|e: int| exists|i: int| 0 <= i < s.len() && #[trigger] s[i] == e)
}

/// The live nodes that are members of an edge listed in `s`.
pub open spec fn packed_nodes(view: InstanceView, s: Seq<EdgeIdx>) -> Set<NodeIdx> {
    Set::new(
        |v: NodeIdx|
            view.node_live(v) && exists|i: int| 0 <= i < s.len() && (#[trigger] view.edges[s[i] as int]).contains(v),
    )
}

/// A set of live edges without common live members: each of them needs a
/// node of its own.
#[derive(Debug)]
pub struct PackingBound {
    packed: Vec<EdgeIdx>,
    from_scratch_limit: usize,
}

impl View for PackingBound {
    type V = Seq<EdgeIdx>;

    closed spec fn view(&self) -> Seq<EdgeIdx> {
        self.packed@
    }
}

/// None of the live nodes at the first `j` places of edge `e` is flagged in
/// `used`.
spec fn no_member_flagged(view: InstanceView, used: Seq<bool>, e: int, j: nat) -> bool {
    forall|k: int| 0 <= k < j && view.node_live(#[trigger] view.edges[e][k]) ==> !used[view.edges[e][k] as int]
}

/// No edge below `e` that is in `packed` has a live member in common with
/// edge `e`.
spec fn clear_of_packed(view: InstanceView, packed: Set<int>, e: int) -> bool {
    forall|d: int| 0 <= d < e && #[trigger] packed.contains(d) ==> edges_disjoint(view, d, e)
}

/// Whether no live member of edge `e` is flagged in `used`.
fn edge_is_free(instance: &Instance, used: &Vec<bool>, e: EdgeIdx) -> (free: bool)
    requires
        instance.wf(),
        e < instance@.edges.len(),
        used@.len() == instance@.num_nodes,
    ensures
        free <==> no_member_flagged(instance@, used@, e as int, instance@.edges[e as int].len()),
{
    let members = instance.edge(e);
    let mut j: usize = 0;
    while j < members.len()
        invariant
            instance.wf(),
            e < instance@.edges.len(),
            members@ == instance@.edges[e as int],
            used@.len() == instance@.num_nodes,
            j <= members@.len(),
            no_member_flagged(instance@, used@, e as int, j as nat),
        decreases members@.len() - j,
    {
        let v = members[j];
        if instance.is_node_live(v) && used[v] {
            return false;
        }
        j += 1;
    }
    true
}

/// Flags the live members of edge `e` in `used`.
fn flag_members(instance: &Instance, used: &mut Vec<bool>, e: EdgeIdx)
    requires
        instance.wf(),
        e < instance@.edges.len(),
        old(used)@.len() == instance@.num_nodes,
    ensures
        final(used)@.len() == old(used)@.len(),
        forall|v: NodeIdx|
            v < final(used)@.len() ==> (#[trigger] final(used)@[v as int] <==> old(used)@[v as int] || (
            instance@.node_live(v) && instance@.edges[e as int].contains(v))),
{
    let members = instance.edge(e);
    let mut j: usize = 0;
    while j < members.len()
        invariant
            instance.wf(),
            e < instance@.edges.len(),
            members@ == instance@.edges[e as int],
            used@.len() == instance@.num_nodes,
            used@.len() == old(used)@.len(),
            j <= members@.len(),
            forall|v: NodeIdx|
                v < used@.len() ==> (#[trigger] used@[v as int] <==> old(used)@[v as int] || (instance@.node_live(v)
                    && exists|k: int| 0 <= k < j && members@[k] == v)),
        decreases members@.len() - j,
    {
        let v = members[j];
        if instance.is_node_live(v) {
            used.set(v, true);
        }
        j += 1;
    }
}

impl PackingBound {
    /// The edges listed are live, ascending, and each a member of the greedy
    /// packing of the live edges, which has no other members.
    pub open spec fn packs(&self, view: InstanceView) -> bool {
        &&& ascending(self@)
        &&& is_greedy_packing(view, edge_set(self@))
    }

    /// Packs the live edges of `instance` greedily, in the order of their
    /// indices.
    pub fn new(instance: &Instance, settings: &Settings) -> (packing: PackingBound)
        requires
            instance.wf(),
        ensures
            packing.packs(instance@),
            packing.from_scratch_limit() == settings.packing_from_scratch_limit,
    {
        let num_nodes = instance.num_nodes_total();
        let num_edges = instance.num_edges_total();
        let mut used = all_false(num_nodes);
        let mut packed: Vec<EdgeIdx> = Vec::new();
        let mut e: usize = 0;
        while e < num_edges
            invariant
                instance.wf(),
                num_nodes == instance@.num_nodes,
                num_edges == instance@.edges.len(),
                e <= num_edges,
                used@.len() == num_nodes,
                ascending(packed@),
                forall|i: int| 0 <= i < packed@.len() ==> #[trigger] packed@[i] < e,
                is_greedy_packing_below(instance@, edge_set(packed@), e as int),
                forall|v: NodeIdx|
                    v < num_nodes ==> (#[trigger] used@[v as int] <==> packed_nodes(instance@, packed@).contains(v)),
            decreases num_edges - e,
        {
            let ghost before = packed@;
            let ghost before_set = edge_set(packed@);
            let mut pack = false;
            if instance.is_edge_live(e) {
                pack = edge_is_free(instance, &used, e);
                proof {
                    lemma_free_is_disjoint(instance@, before, used@, e as int);
                }
                if pack {
                    flag_members(instance, &mut used, e);
                    packed.push(e);
                }
            }
            proof {
                let after_set = edge_set(packed@);
                if pack {
                    assert(packed@[before.len() as int] == e);
                    assert forall|d: int| after_set.contains(d) <==> before_set.contains(d) || d == e by {
                        if before_set.contains(d) {
                            let i = choose|i: int| 0 <= i < before.len() && #[trigger] before[i] == d;
                            assert(packed@[i] == d);
                        }
                    }
                    assert forall|u: NodeIdx| u < num_nodes implies (#[trigger] used@[u as int] <==> packed_nodes(
                        instance@,
                        packed@,
                    ).contains(u)) by {
                        if packed_nodes(instance@, before).contains(u) {
                            let i = choose|i: int|
                                0 <= i < before.len() && (#[trigger] instance@.edges[before[i] as int]).contains(u);
                            assert(instance@.edges[packed@[i] as int].contains(u));
                        }
                    }
                }
            }
            e += 1;
        }
        PackingBound { packed, from_scratch_limit: settings.packing_from_scratch_limit }
    }

    /// The threshold that came with the settings.
    pub closed spec fn from_scratch_limit(&self) -> usize {
        self.from_scratch_limit
    }

    /// The packing bound: the number of edges packed.
    pub fn bound(&self) -> (bound: usize)
        ensures
            bound == self@.len(),
    {
        self.packed.len()
    }
}

/// An edge shares no live member with the edges listed in `packed` exactly
/// if none of its live members is flagged, where the flags tell the live
/// members of the listed edges.
proof fn lemma_free_is_disjoint(view: InstanceView, packed: Seq<EdgeIdx>, used: Seq<bool>, e: int)
    requires
        view.wf(),
        0 <= e < view.edges.len(),
        used.len() == view.num_nodes,
        forall|i: int| 0 <= i < packed.len() ==> #[trigger] packed[i] < e,
        forall|v: NodeIdx|
            v < view.num_nodes ==> (#[trigger] used[v as int] <==> packed_nodes(view, packed).contains(v)),
    ensures
        no_member_flagged(view, used, e, view.edges[e].len()) <==> clear_of_packed(view, edge_set(packed), e),
{
    if clear_of_packed(view, edge_set(packed), e) && !no_member_flagged(view, used, e, view.edges[e].len()) {
        let j = choose|j: int|
            0 <= j < view.edges[e].len() && view.node_live(#[trigger] view.edges[e][j])
                && used[view.edges[e][j] as int];
        let w = view.edges[e][j];
        let k = choose|k: int| 0 <= k < packed.len() && (#[trigger] view.edges[packed[k] as int]).contains(w);
        assert(edge_set(packed).contains(packed[k] as int));
    }
}

/// The greatest degrees among the live members of the first `k` edges listed
/// in `packed`, summed up: no more live edges than that can be met by one
/// node out of each of these edges.
pub open spec fn packed_degree_sum(view: InstanceView, packed: Seq<EdgeIdx>, k: nat) -> nat
    decreases k,
{
    if k == 0 {
        0
    } else {
        packed_degree_sum(view, packed, (k - 1) as nat) + max_member_degree(view, packed[k - 1] as int)
    }
}

/// The number of live edges that are left to meet after one node out of each
/// edge listed in `packed` has met what it can, and one edge at least.
pub open spec fn packing_demand(view: InstanceView, packed: Seq<EdgeIdx>) -> nat {
    let by_degree = packed_degree_sum(view, packed, packed.len());
    let met = if by_degree >= packed.len() {
        by_degree
    } else {
        packed.len()
    };
    if met >= view.live_edges().len() {
        0
    } else {
        (view.live_edges().len() - met) as nat
    }
}

/// `bound` is the sum over the packing: one node for each packed edge, and
/// on top of them the greatest threshold bound for the edges that these nodes
/// leave.
pub open spec fn is_sum_over_packing_bound(view: InstanceView, packed: Seq<EdgeIdx>, bound: nat) -> bool {
    &&& bound >= packed.len()
    &&& is_best_threshold_bound(view, packing_demand(view, packed), (bound - packed.len()) as nat)
}

impl PackingBound {
    /// Computes the sum over the packing.
    pub fn calc_sum_over_packing_bound(&self, instance: &Instance) -> (bound: usize)
        requires
            instance.wf(),
            self.packs(instance@),
        ensures
            is_sum_over_packing_bound(instance@, self@, bound as nat),
    {
        let degrees = node_degrees(instance);
        let num_edges = instance.num_edges();
        let mut by_degree: usize = 0;
        let mut k: usize = 0;
        while k < self.packed.len()
            invariant
                instance.wf(),
                self.packs(instance@),
                self@ == self.packed@,
                degrees@.len() == instance@.num_nodes,
                forall|v: int| 0 <= v < degrees@.len() ==> #[trigger] degrees@[v] == instance@.degree(v as NodeIdx),
                k <= self.packed@.len(),
                by_degree == if packed_degree_sum(instance@, self@, k as nat) <= num_edges {
                    packed_degree_sum(instance@, self@, k as nat)
                } else {
                    num_edges as nat
                },
            decreases self.packed@.len() - k,
        {
            let e = self.packed[k];
            proof {
                assert(edge_set(self@).contains(e as int));
            }
            let greatest = greatest_member_degree(instance, &degrees, e);
            if greatest >= num_edges - by_degree {
                by_degree = num_edges;
            } else {
                by_degree = by_degree + greatest;
            }
            k += 1;
        }
        let met = if by_degree >= self.packed.len() {
            by_degree
        } else {
            self.packed.len()
        };
        let demand = if met >= num_edges {
            0
        } else {
            num_edges - met
        };
        let rest = best_threshold_bound(instance, &degrees, demand);
        self.packed.len() + rest
    }
}

/// Two different edges of a greedy packing have no live member in common.
pub proof fn lemma_packed_disjoint(view: InstanceView, packed: Seq<EdgeIdx>, i: int, j: int)
    requires
        ascending(packed),
        is_greedy_packing(view, edge_set(packed)),
        0 <= i < j < packed.len(),
    ensures
        view.edge_live(packed[i] as int),
        view.edge_live(packed[j] as int),
        edges_disjoint(view, packed[i] as int, packed[j] as int),
{
    assert(edge_set(packed).contains(packed[i] as int));
    assert(edge_set(packed).contains(packed[j] as int));
}

/// The node by which `s` meets edge `e`, if it meets it.
pub open spec fn pick(view: InstanceView, s: Set<NodeIdx>, e: int) -> NodeIdx {
    choose|w: NodeIdx| s.contains(w) && view.edges[e].contains(w)
}

/// For each of the first `k` edges listed in `packed`, the node by which `s`
/// meets it.
pub open spec fn representatives(view: InstanceView, s: Set<NodeIdx>, packed: Seq<EdgeIdx>, k: nat) -> Set<
    NodeIdx,
>
    decreases k,
{
    if k == 0 {
        Set::empty()
    } else {
        representatives(view, s, packed, (k - 1) as nat).insert(pick(view, s, packed[k - 1] as int))
    }
}

/// A solution of the sub-problem meets the first `k` edges of a greedy
/// packing by `k` different nodes, which between them meet no more live
/// edges than the greatest degrees in these edges add up to.
pub proof fn lemma_representatives(view: InstanceView, packed: Seq<EdgeIdx>, s: Set<NodeIdx>, k: nat)
    requires
        view.wf(),
        ascending(packed),
        is_greedy_packing(view, edge_set(packed)),
        is_residual_solution(view, s),
        k <= packed.len(),
    ensures
        representatives(view, s, packed, k).finite(),
        representatives(view, s, packed, k).len() == k,
        representatives(view, s, packed, k).subset_of(s),
        representatives(view, s, packed, k).subset_of(packed_nodes(view, packed.subrange(0, k as int))),
        covered(view, representatives(view, s, packed, k)).len() <= packed_degree_sum(view, packed, k),
    decreases k,
{
    let now = representatives(view, s, packed, k);
    if k == 0 {
        assert(covered(view, now) =~= Set::<int>::empty());
    } else {
        let before = representatives(view, s, packed, (k - 1) as nat);
        lemma_representatives(view, packed, s, (k - 1) as nat);
        let e = packed[k - 1] as int;
        assert(edge_set(packed).contains(e));
        let w = pick(view, s, e);
        let j = choose|j: int| 0 <= j < view.edges[e].len() && view.edges[e][j] == w;
        lemma_member_degree(view, e, j);
        let earlier = packed.subrange(0, k - 1);
        let upto = packed.subrange(0, k as int);
        assert(!packed_nodes(view, earlier).contains(w)) by {
            if packed_nodes(view, earlier).contains(w) {
                let a = choose|a: int| 0 <= a < earlier.len() && (#[trigger] view.edges[earlier[a] as int]).contains(w);
                lemma_packed_disjoint(view, packed, a, k - 1);
            }
        }
        assert(now.subset_of(packed_nodes(view, upto))) by {
            assert forall|v: NodeIdx| now.contains(v) implies packed_nodes(view, upto).contains(v) by {
                if v == w {
                    assert(view.edges[upto[k - 1] as int].contains(w));
                }
            }
        }
        lemma_covered_step(view, before, w);
    }
}

/// The packing bound is a lower bound for the sub-problem.
pub proof fn lemma_packing_sound(view: InstanceView, packed: Seq<EdgeIdx>)
    requires
        view.wf(),
        ascending(packed),
        is_greedy_packing(view, edge_set(packed)),
    ensures
        is_residual_lower_bound(view, packed.len()),
{
    assert forall|s: Set<NodeIdx>| #[trigger] is_residual_solution(view, s) implies packed.len() <= s.len() by {
        lemma_representatives(view, packed, s, packed.len());
        vstd::set_lib::lemma_len_subset(representatives(view, s, packed, packed.len()), s);
    }
}

/// The sum over the packing is a lower bound for the sub-problem.
pub proof fn lemma_sum_over_packing_sound(view: InstanceView, packed: Seq<EdgeIdx>, bound: nat)
    requires
        view.wf(),
        view.num_nodes <= usize::MAX,
        ascending(packed),
        is_greedy_packing(view, edge_set(packed)),
        is_sum_over_packing_bound(view, packed, bound),
    ensures
        is_residual_lower_bound(view, bound),
{
    let demand = packing_demand(view, packed);
    let rest = (bound - packed.len()) as nat;
    let t = choose|t: nat| 1 <= t <= top_threshold(view) && #[trigger] threshold_bound(view, demand, t) == rest;
    assert forall|s: Set<NodeIdx>| #[trigger] is_residual_solution(view, s) implies bound <= s.len() by {
        let chosen = representatives(view, s, packed, packed.len());
        lemma_representatives(view, packed, s, packed.len());
        let others = s - chosen;
        assert(s.intersect(chosen) =~= chosen);
        vstd::set_lib::lemma_set_difference_len(s, chosen);
        lemma_threshold_below(view, others, t, view.num_nodes);
        assert(nodes_below(others, view.num_nodes) =~= others);
        lemma_covered_step(view, chosen, 0);
        lemma_covered_step(view, others, 0);
        assert(covered(view, s) =~= view.live_edges());
        vstd::set_lib::lemma_len_union(covered(view, chosen), covered(view, others));
        vstd::set_lib::lemma_len_subset(covered(view, s), covered(view, chosen) + covered(view, others));
        if demand > excess(view, t) {
            lemma_ceil_div_least((demand - excess(view, t)) as nat, t, others.len());
        }
    }
}

/// Where every edge below `k` that is counted on the left is counted in one
/// of the two sums on the right, the left sum is no greater than the two
/// right sums together.
pub proof fn lemma_share_sum_split(
    view: InstanceView,
    whole: spec_fn(int) -> bool,
    part: spec_fn(int) -> bool,
    other: spec_fn(int) -> bool,
    k: nat,
)
    requires
        forall|e: int| 0 <= e < k && #[trigger] whole(e) ==> part(e) || other(e),
    ensures
        share_sum(view, whole, k) <= share_sum(view, part, k) + share_sum(view, other, k),
    decreases k,
{
    if k > 0 {
        lemma_share_sum_split(view, whole, part, other, (k - 1) as nat);
    }
}

/// The live edges around a live node ask for no more than one node between
/// them: each asks for one part in at least as many as there are of them.
pub proof fn lemma_shares_around_node(view: InstanceView, v: NodeIdx, k: nat)
    requires
        view.wf(),
        view.node_live(v),
        k <= view.edges.len(),
    ensures
        share_sum(view, |e: int| view.edge_live(e) && view.edges[e].contains(v), k) <= crate::instance::below(
            k as int,
            |e: int| view.edge_live(e) && view.edges[e].contains(v),
        ).len() * (EFFICIENCY_SCALE as nat / view.degree(v)),
    decreases k,
{
    let around = |e: int| view.edge_live(e) && view.edges[e].contains(v);
    if k > 0 {
        let e = k - 1;
        lemma_shares_around_node(view, v, (k - 1) as nat);
        crate::instance::lemma_below(e, around);
        let count = crate::instance::below(e, around).len();
        let part = EFFICIENCY_SCALE as nat / view.degree(v);
        if around(e) {
            let i = choose|i: int| 0 <= i < view.edges[e].len() && view.edges[e][i] == v;
            lemma_member_degree(view, e, i);
            vstd::arithmetic::div_mod::lemma_div_is_ordered_by_denominator(
                EFFICIENCY_SCALE as int,
                view.degree(v) as int,
                max_member_degree(view, e) as int,
            );
            assert((count + 1) * part == count * part + part) by (nonlinear_arith);
        }
    }
}

/// The live edges that a set of live nodes meets ask for no more nodes than
/// the set has.
pub proof fn lemma_shares_below(view: InstanceView, s: Set<NodeIdx>, p: nat)
    requires
        view.wf(),
        s.finite(),
        forall|v: NodeIdx| s.contains(v) ==> view.node_live(v),
        p <= usize::MAX,
    ensures
        nodes_below(s, p).finite(),
        share_sum(view, |e: int| covered(view, nodes_below(s, p)).contains(e), view.edges.len()) <= nodes_below(
            s,
            p,
        ).len() * EFFICIENCY_SCALE,
    decreases p,
{
    let now = nodes_below(s, p);
    let m = view.edges.len();
    assert(now.subset_of(s));
    if p == 0 {
        lemma_share_sum_split(
            view,
            |e: int| covered(view, now).contains(e),
            |e: int| false,
            |e: int| false,
            m,
        );
        lemma_no_shares(view, m);
    } else {
        let v = (p - 1) as NodeIdx;
        let before = nodes_below(s, (p - 1) as nat);
        lemma_shares_below(view, s, (p - 1) as nat);
        if s.contains(v) {
            assert(now =~= before.insert(v));
            let around = |e: int| view.edge_live(e) && view.edges[e].contains(v);
            lemma_share_sum_split(
                view,
                |e: int| covered(view, now).contains(e),
                |e: int| covered(view, before).contains(e),
                around,
                m,
            );
            lemma_shares_around_node(view, v, m);
            assert(crate::instance::below(m as int, around) =~= view.incident_live_edges(v));
            let d = view.degree(v);
            let part = EFFICIENCY_SCALE as nat / d;
            if d > 0 {
                vstd::arithmetic::div_mod::lemma_fundamental_div_mod(EFFICIENCY_SCALE as int, d as int);
            } else {
                assert(d * part == 0) by (nonlinear_arith)
                    requires
                        d == 0,
                ;
            }
        } else {
            assert(now =~= before);
        }
    }
}

/// A sum that counts no edge is zero.
pub proof fn lemma_no_shares(view: InstanceView, k: nat)
    ensures
        share_sum(view, |e: int| false, k) == 0,
    decreases k,
{
    if k > 0 {
        lemma_no_shares(view, (k - 1) as nat);
    }
}

/// The efficiency bound is a lower bound for the sub-problem.
pub proof fn lemma_efficiency_bound_sound(view: InstanceView, bound: nat)
    requires
        view.wf(),
        view.num_nodes <= usize::MAX,
        efficiency_bound(view) == Some(bound),
    ensures
        is_residual_lower_bound(view, bound),
{
    let m = view.edges.len();
    assert forall|s: Set<NodeIdx>| #[trigger] is_residual_solution(view, s) implies bound <= s.len() by {
        lemma_shares_below(view, s, view.num_nodes);
        assert(nodes_below(s, view.num_nodes) =~= s);
        lemma_share_sum_split(
            view,
            |e: int| view.edge_live(e),
            |e: int| covered(view, s).contains(e),
            |e: int| false,
            m,
        );
        lemma_no_shares(view, m);
    }
}

/// While no deletion is in effect, a lower bound for the sub-problem is a
/// lower bound for the instance: no set of nodes that meets every edge is
/// smaller.
pub proof fn lemma_residual_bound_of_pristine(view: InstanceView, bound: nat)
    requires
        view.wf(),
        view.pristine(),
        is_residual_lower_bound(view, bound),
    ensures
        crate::search_space::is_lower_bound(view, bound),
{
    assert forall|other: Set<NodeIdx>|
        other.finite() && #[trigger] crate::search_space::hits_all_edges(view, other) implies bound
        <= other.len() by {
        let within = nodes_below(other, view.num_nodes);
        vstd::set_lib::lemma_len_subset(within, other);
        assert forall|e: int| #[trigger] view.edge_live(e) implies hits_edge(view, e, within) by {
            assert(hits_edge(view, e, other));
        }
        assert(is_residual_solution(view, within));
    }
}

/// While no deletion is in effect, the bound by the greatest degree and the
/// efficiency bound are both defined.
pub proof fn lemma_bounds_defined_of_pristine(view: InstanceView)
    requires
        view.wf(),
        view.num_nodes <= usize::MAX,
        view.pristine(),
    ensures
        max_degree_bound(view) is Some,
        efficiency_bound(view) is Some,
{
    assert forall|e: int| view.edge_live(e) implies !view.no_live_member(e) by {
        assert(view.node_live(view.edges[e][0]));
    }
    if view.live_edges().len() > 0 {
        let e = view.live_edges().choose();
        assert(view.live_edges().contains(e));
        assert(view.node_live(view.edges[e][0]));
        lemma_member_degree(view, e, 0);
        lemma_max_degree_below(view, view.num_nodes);
    }
}

} // verus!
