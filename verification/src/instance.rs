//! The hypergraph a search works on: a fixed universe of nodes and edges, and
//! on top of it the reversible deletions that carve out the sub-problem of the
//! current search path.

use vstd::prelude::*;

verus! {

/// Index of a node in the node universe of an instance.
pub type NodeIdx = usize;

/// Index of an edge in the edge universe of an instance.
pub type EdgeIdx = usize;

/// What an [`Instance`] stands for.
///
/// The universe (`num_nodes`, `edges`) never changes. `removed` holds the
/// nodes that are currently deleted, `taken` those of them whose incident
/// edges are currently deleted as well. A node is live while it is not
/// removed; an edge is live while none of its members is taken.
pub struct InstanceView {
    pub num_nodes: nat,
    pub edges: Seq<Seq<NodeIdx>>,
    pub removed: Set<NodeIdx>,
    pub taken: Set<NodeIdx>,
}

impl InstanceView {
    /// Every edge is non-empty and names nodes of the universe only, and so
    /// do the two sets of deletions, of which every taken node is removed
    /// as well.
    pub open spec fn wf(self) -> bool {
        &&& self.removed.finite()
        &&& self.taken.finite()
        &&& self.taken.subset_of(self.removed)
        &&& forall|v: NodeIdx| #[trigger] self.removed.contains(v) ==> v < self.num_nodes
        &&& forall|v: NodeIdx| #[trigger] self.taken.contains(v) ==> v < self.num_nodes
        &&& forall|e: int| 0 <= e < self.edges.len() ==> edge_valid(self.num_nodes, #[trigger] self.edges[e])
    }

    /// No deletion is in effect.
    pub open spec fn pristine(self) -> bool {
        self.removed == Set::<NodeIdx>::empty() && self.taken == Set::<NodeIdx>::empty()
    }

    /// `v` is a node of the universe that is not deleted.
    pub open spec fn node_live(self, v: NodeIdx) -> bool {
        v < self.num_nodes && !self.removed.contains(v)
    }

    /// `e` is an edge of the universe that is not deleted: no member of it
    /// is taken.
    pub open spec fn edge_live(self, e: int) -> bool {
        &&& 0 <= e < self.edges.len()
        &&& forall|i: int| 0 <= i < self.edges[e].len() ==> !self.taken.contains(#[trigger] self.edges[e][i])
    }

    /// The nodes that are live.
    pub open spec fn live_nodes(self) -> Set<NodeIdx> {
        Set::new(|v: NodeIdx| self.node_live(v))
    }

    /// The edges that are live.
    pub open spec fn live_edges(self) -> Set<int> {
        Set::new(|e: int| self.edge_live(e))
    }

    /// The live edges that `v` is a member of.
    pub open spec fn incident_live_edges(self, v: NodeIdx) -> Set<int> {
        Set::new(|e: int| self.edge_live(e) && self.edges[e].contains(v))
    }

    /// Number of live edges that `v` is a member of.
    pub open spec fn degree(self, v: NodeIdx) -> nat {
        self.incident_live_edges(v).len()
    }

    /// No member of edge `e` is live.
    pub open spec fn no_live_member(self, e: int) -> bool {
        forall|i: int| 0 <= i < self.edges[e].len() ==> !self.node_live(#[trigger] self.edges[e][i])
    }

    /// `v` is a live member of edge `e`, and the only one.
    pub open spec fn only_live_member(self, e: int, v: NodeIdx) -> bool {
        &&& self.node_live(v)
        &&& self.edges[e].contains(v)
        &&& forall|i: int|
            0 <= i < self.edges[e].len() && self.node_live(#[trigger] self.edges[e][i]) ==> self.edges[e][i] == v
    }

    /// Edge `e` has two live members that differ.
    pub open spec fn several_live_members(self, e: int) -> bool {
        exists|i: int, j: int|
            0 <= i < self.edges[e].len() && 0 <= j < self.edges[e].len() && self.node_live(
                #[trigger] self.edges[e][i],
            ) && self.node_live(#[trigger] self.edges[e][j]) && self.edges[e][i] != self.edges[e][j]
    }

    /// The same universe with the nodes of `nodes` deleted, and their edges
    /// with them.
    pub open spec fn force_nodes(self, nodes: Set<NodeIdx>) -> InstanceView {
        InstanceView { removed: self.removed + nodes, taken: self.taken + nodes, ..self }
    }

    /// The same universe with the nodes of `nodes` live again, and no edge
    /// deleted on their account.
    pub open spec fn unforce_nodes(self, nodes: Set<NodeIdx>) -> InstanceView {
        InstanceView { removed: self.removed - nodes, taken: self.taken - nodes, ..self }
    }

    /// The same universe with `v` deleted as a node.
    pub open spec fn remove_node(self, v: NodeIdx) -> InstanceView {
        InstanceView { removed: self.removed.insert(v), ..self }
    }

    /// The same universe with the edges around `v` deleted.
    pub open spec fn take_node(self, v: NodeIdx) -> InstanceView {
        InstanceView { taken: self.taken.insert(v), ..self }
    }

    /// The same universe with `v` live again.
    pub open spec fn revive_node(self, v: NodeIdx) -> InstanceView {
        InstanceView { removed: self.removed.remove(v), ..self }
    }

    /// The same universe with the edges around `v` no longer deleted on
    /// account of `v`.
    pub open spec fn release_node(self, v: NodeIdx) -> InstanceView {
        InstanceView { taken: self.taken.remove(v), ..self }
    }
}

/// An edge of a universe of `num_nodes` nodes: at least one member, all of
/// them nodes of the universe.
pub open spec fn edge_valid(num_nodes: nat, members: Seq<NodeIdx>) -> bool {
    &&& members.len() > 0
    &&& forall|i: int| 0 <= i < members.len() ==> #[trigger] members[i] < num_nodes
}

/// The member lists of `edges` as sequences.
pub open spec fn edge_seqs(edges: Seq<Vec<NodeIdx>>) -> Seq<Seq<NodeIdx>> {
    Seq::new(edges.len(), |e: int| edges[e]@)
}

/// The live edges of a well-formed view are finitely many, and so are those
/// around a node: no more than the universe has edges.
pub proof fn lemma_live_edges(view: InstanceView, v: NodeIdx)
    ensures
        view.live_edges().finite(),
        view.live_edges().len() <= view.edges.len(),
        view.incident_live_edges(v).finite(),
        view.incident_live_edges(v).subset_of(view.live_edges()),
        view.degree(v) <= view.live_edges().len(),
{
    let live = |e: int| view.edge_live(e);
    lemma_below(view.edges.len() as int, live);
    assert(below(view.edges.len() as int, live) =~= view.live_edges());
    vstd::set_lib::lemma_len_subset(view.incident_live_edges(v), view.live_edges());
}

/// The live nodes below `p`.
pub open spec fn live_below(view: InstanceView, p: nat) -> Set<NodeIdx> {
    Set::new(|v: NodeIdx| v < p && view.node_live(v))
}

/// The live nodes below `p` are finitely many, and one more if `p` is live
/// and counted in.
pub proof fn lemma_live_below(view: InstanceView, p: nat)
    requires
        p < usize::MAX,
    ensures
        live_below(view, p).finite(),
        live_below(view, p + 1).len() == live_below(view, p).len() + if view.node_live(p as NodeIdx) {
            1nat
        } else {
            0nat
        },
    decreases p,
{
    if p == 0 {
        assert(live_below(view, 0) =~= Set::<NodeIdx>::empty());
    } else {
        lemma_live_below(view, (p - 1) as nat);
        if view.node_live((p - 1) as NodeIdx) {
            assert(live_below(view, p) =~= live_below(view, (p - 1) as nat).insert((p - 1) as NodeIdx));
        } else {
            assert(live_below(view, p) =~= live_below(view, (p - 1) as nat));
        }
    }
    if view.node_live(p as NodeIdx) {
        assert(live_below(view, p + 1) =~= live_below(view, p).insert(p as NodeIdx));
    } else {
        assert(live_below(view, p + 1) =~= live_below(view, p));
    }
}

/// The integers of `[0, k)` that satisfy `p`.
pub open spec fn below(k: int, p: spec_fn(int) -> bool) -> Set<int> {
    Set::new(|e: int| 0 <= e < k && p(e))
}

/// `below(k, p)` is finite, has at most `k` elements and grows with `k` by the
/// one element `k` if `p(k)` holds.
pub proof fn lemma_below(k: int, p: spec_fn(int) -> bool)
    requires
        0 <= k,
    ensures
        below(k, p).finite(),
        below(k, p).len() <= k,
        below(k + 1, p) == if p(k) {
            below(k, p).insert(k)
        } else {
            below(k, p)
        },
        below(k + 1, p).len() == below(k, p).len() + if p(k) {
            1nat
        } else {
            0nat
        },
    decreases k,
{
    if k == 0 {
        assert(below(0, p) =~= Set::<int>::empty());
    } else {
        lemma_below(k - 1, p);
    }
    if p(k) {
        assert(below(k + 1, p) =~= below(k, p).insert(k));
    } else {
        assert(below(k + 1, p) =~= below(k, p));
    }
}

/// Why an edge list does not describe a hypergraph.
#[derive(Debug, Clone, Copy, PartialEq, Eq, Structural)]
pub enum InstanceError {
    /// Edge `edge` is empty or names a node outside the universe.
    InvalidEdge { edge: EdgeIdx },
}

/// How many of an edge's members are live.
#[derive(Debug, Clone, Copy, PartialEq, Eq, Structural)]
pub enum LiveMembers {
    /// None is.
    Zero,
    /// Exactly one is: `node`.
    One { node: NodeIdx },
    /// At least two are.
    Many,
}

/// A hypergraph with reversible deletion of nodes and edges.
///
/// The edges are kept as they were given, and beside them, for each node,
/// the list of the edges that it is a member of. Deletions are flags.
#[derive(Debug)]
pub struct Instance {
    num_nodes: usize,
    edges: Vec<Vec<NodeIdx>>,
    incident: Vec<Vec<EdgeIdx>>,
    removed: Vec<bool>,
    taken: Vec<bool>,
}

/// `list` holds, in ascending order, the edges below `e` that `v` is a
/// member of, and `e` itself if `v` is at one of its first `j` places.
spec fn lists_edges_of(edges: Seq<Seq<NodeIdx>>, list: Seq<EdgeIdx>, v: NodeIdx, e: int, j: int) -> bool {
    &&& ascending(list)
    &&& forall|d: EdgeIdx| #[trigger]
        list.contains(d) <==> (d < e && edges[d as int].contains(v)) || (d == e && exists|k: int|
            0 <= k < j && edges[e][k] == v)
}

/// The edges of `list[0 .. i]` that are live.
spec fn live_among(view: InstanceView, list: Seq<EdgeIdx>, i: int) -> Set<int> {
    Set::new(|e: int| view.edge_live(e) && exists|k: int| 0 <= k < i && list[k] == e)
}

/// Going along an ascending list, the live edges seen so far are finitely
/// many, and one more with each live edge that comes.
proof fn lemma_live_among(view: InstanceView, list: Seq<EdgeIdx>, i: int)
    requires
        ascending(list),
        0 <= i < list.len(),
    ensures
        live_among(view, list, i).finite(),
        live_among(view, list, i).len() <= i,
        live_among(view, list, i + 1).finite(),
        live_among(view, list, i + 1).len() == live_among(view, list, i).len() + if view.edge_live(list[i] as int) {
            1nat
        } else {
            0nat
        },
    decreases i,
{
    if i == 0 {
        assert(live_among(view, list, 0) =~= Set::<int>::empty());
    } else {
        lemma_live_among(view, list, i - 1);
    }
    if view.edge_live(list[i] as int) {
        assert(live_among(view, list, i + 1) =~= live_among(view, list, i).insert(list[i] as int));
    } else {
        assert(live_among(view, list, i + 1) =~= live_among(view, list, i));
    }
}

/// For each node of a universe of `num_nodes` nodes, the edges that it is a
/// member of, in ascending order.
fn build_incidence(num_nodes: usize, edges: &Vec<Vec<NodeIdx>>) -> (incident: Vec<Vec<EdgeIdx>>)
    requires
        forall|e: int| 0 <= e < edges@.len() ==> edge_valid(num_nodes as nat, #[trigger] edges@[e]@),
    ensures
        incident@.len() == num_nodes,
        forall|v: int|
            0 <= v < num_nodes ==> lists_edges_of(
                edge_seqs(edges@),
                #[trigger] incident@[v]@,
                v as NodeIdx,
                edges@.len() as int,
                0,
            ),
{
    let mut incident: Vec<Vec<EdgeIdx>> = Vec::new();
    while incident.len() < num_nodes
        invariant
            incident@.len() <= num_nodes,
            forall|v: int| 0 <= v < incident@.len() ==> (#[trigger] incident@[v])@.len() == 0,
        decreases num_nodes - incident@.len(),
    {
        incident.push(Vec::new());
    }
    let mut e: usize = 0;
    while e < edges.len()
        invariant
            forall|d: int| 0 <= d < edges@.len() ==> edge_valid(num_nodes as nat, #[trigger] edges@[d]@),
            incident@.len() == num_nodes,
            e <= edges@.len(),
            forall|v: int|
                0 <= v < num_nodes ==> lists_edges_of(
                    edge_seqs(edges@),
                    #[trigger] incident@[v]@,
                    v as NodeIdx,
                    e as int,
                    0,
                ),
        decreases edges@.len() - e,
    {
        let members = &edges[e];
        let mut j: usize = 0;
        while j < members.len()
            invariant
                forall|d: int| 0 <= d < edges@.len() ==> edge_valid(num_nodes as nat, #[trigger] edges@[d]@),
                incident@.len() == num_nodes,
                e < edges@.len(),
                members@ == edges@[e as int]@,
                j <= members@.len(),
                forall|v: int|
                    0 <= v < num_nodes ==> lists_edges_of(
                        edge_seqs(edges@),
                        #[trigger] incident@[v]@,
                        v as NodeIdx,
                        e as int,
                        j as int,
                    ),
            decreases members@.len() - j,
        {
            let v = members[j];
            let ghost list = incident@[v as int]@;
            let len = incident[v].len();
            let listed = len > 0 && incident[v][len - 1] == e;
            if !listed {
                proof {
                    assert forall|k: int| 0 <= k < list.len() implies list[k] < e by {
                        assert(list.contains(list[k]));
                        if list[k] == e {
                            assert(list.contains(list[list.len() - 1]));
                        }
                    }
                }
                incident[v].push(e);
                proof {
                    let longer = incident@[v as int]@;
                    assert(longer[list.len() as int] == e);
                    assert forall|d: EdgeIdx| #[trigger] longer.contains(d) <==> list.contains(d) || d == e by {
                        if list.contains(d) {
                            let k = choose|k: int| 0 <= k < list.len() && list[k] == d;
                            assert(longer[k] == d);
                        }
                    }
                }
            }
            assert(edge_seqs(edges@)[e as int][j as int] == v);
            j += 1;
        }
        e += 1;
    }
    incident
}

/// The indices at which `flags` holds `true`.
spec fn flagged(flags: Seq<bool>) -> Set<NodeIdx> {
    Set::new(|v: NodeIdx| v < flags.len() && flags[v as int])
}

proof fn lemma_flagged_update(flags: Seq<bool>, v: NodeIdx, b: bool)
    requires
        v < flags.len(),
    ensures
        flagged(flags.update(v as int, b)) == if b {
            flagged(flags).insert(v)
        } else {
            flagged(flags).remove(v)
        },
{
}

impl View for Instance {
    type V = InstanceView;

    closed spec fn view(&self) -> InstanceView {
        InstanceView {
            num_nodes: self.num_nodes as nat,
            edges: edge_seqs(self.edges@),
            removed: flagged(self.removed@),
            taken: flagged(self.taken@),
        }
    }
}

/// A copy of `flags`.
fn copy_flags(flags: &Vec<bool>) -> (copy: Vec<bool>)
    ensures
        copy@ == flags@,
{
    let mut copy: Vec<bool> = Vec::new();
    let mut i: usize = 0;
    while i < flags.len()
        invariant
            i <= flags@.len(),
            copy@ == flags@.subrange(0, i as int),
        decreases flags@.len() - i,
    {
        copy.push(flags[i]);
        i += 1;
    }
    copy
}

/// A copy of `members`.
pub(crate) fn copy_nodes(members: &Vec<NodeIdx>) -> (copy: Vec<NodeIdx>)
    ensures
        copy@ == members@,
{
    let mut copy: Vec<NodeIdx> = Vec::new();
    let mut i: usize = 0;
    while i < members.len()
        invariant
            i <= members@.len(),
            copy@ == members@.subrange(0, i as int),
        decreases members@.len() - i,
    {
        copy.push(members[i]);
        i += 1;
    }
    copy
}

impl Clone for Instance {
    /// A second instance in the same state.
    fn clone(&self) -> (copy: Instance)
        ensures
            copy@ == self@,
            self.wf() ==> copy.wf(),
    {
        let mut edges: Vec<Vec<NodeIdx>> = Vec::new();
        let mut e: usize = 0;
        while e < self.edges.len()
            invariant
                e <= self.edges@.len(),
                edges@.len() == e,
                forall|d: int| 0 <= d < e ==> (#[trigger] edges@[d])@ == self.edges@[d]@,
            decreases self.edges@.len() - e,
        {
            edges.push(copy_nodes(&self.edges[e]));
            e += 1;
        }
        let mut incident: Vec<Vec<EdgeIdx>> = Vec::new();
        let mut v: usize = 0;
        while v < self.incident.len()
            invariant
                v <= self.incident@.len(),
                incident@.len() == v,
                forall|u: int| 0 <= u < v ==> (#[trigger] incident@[u])@ == self.incident@[u]@,
            decreases self.incident@.len() - v,
        {
            incident.push(copy_nodes(&self.incident[v]));
            v += 1;
        }
        let copy = Instance {
            num_nodes: self.num_nodes,
            edges,
            incident,
            removed: copy_flags(&self.removed),
            taken: copy_flags(&self.taken),
        };
        proof {
            assert(edge_seqs(copy.edges@) =~= edge_seqs(self.edges@));
        }
        copy
    }
}

impl Instance {
    /// The representation is consistent with itself.
    pub closed spec fn well_sized(&self) -> bool {
        &&& self.removed@.len() == self.num_nodes
        &&& self.taken@.len() == self.num_nodes
        &&& self.incident@.len() == self.num_nodes
        &&& forall|v: int|
            0 <= v < self.num_nodes ==> lists_edges_of(
                edge_seqs(self.edges@),
                #[trigger] self.incident@[v]@,
                v as NodeIdx,
                self.edges@.len() as int,
                0,
            )
    }

    /// The invariant of an instance: what every operation asks for and keeps.
    pub open spec fn wf(&self) -> bool {
        &&& self.well_sized()
        &&& self@.wf()
        &&& self@.num_nodes <= usize::MAX
        &&& self@.edges.len() <= usize::MAX
    }

    /// Builds the hypergraph with nodes `0 .. num_nodes` and the given edges,
    /// each edge listing its members. Fails on the first edge that is empty or
    /// names a node that does not exist.
    pub fn new(num_nodes: usize, edges: Vec<Vec<NodeIdx>>) -> (made: Result<Instance, InstanceError>)
        ensures
            match made {
                Ok(instance) => {
                    &&& instance.wf()
                    &&& instance@.pristine()
                    &&& instance@.num_nodes == num_nodes
                    &&& instance@.edges == edge_seqs(edges@)
                },
                Err(InstanceError::InvalidEdge { edge }) => {
                    &&& edge < edges@.len()
                    &&& !edge_valid(num_nodes as nat, edges@[edge as int]@)
                    &&& forall|e: int| 0 <= e < edge ==> edge_valid(num_nodes as nat, #[trigger] edges@[e]@)
                },
            },
    {
        let mut e: usize = 0;
        while e < edges.len()
            invariant
                e <= edges@.len(),
                forall|k: int| 0 <= k < e ==> edge_valid(num_nodes as nat, #[trigger] edges@[k]@),
            decreases edges@.len() - e,
        {
            let members = &edges[e];
            if members.len() == 0 {
                return Err(InstanceError::InvalidEdge { edge: e });
            }
            let mut i: usize = 0;
            while i < members.len()
                invariant
                    e < edges@.len(),
                    members@ == edges@[e as int]@,
                    i <= members@.len(),
                    forall|k: int| 0 <= k < i ==> #[trigger] members@[k] < num_nodes,
                    forall|k: int| 0 <= k < e ==> edge_valid(num_nodes as nat, #[trigger] edges@[k]@),
                decreases members@.len() - i,
            {
                if members[i] >= num_nodes {
                    return Err(InstanceError::InvalidEdge { edge: e });
                }
                i += 1;
            }
            e += 1;
        }
        let removed = all_false(num_nodes);
        let taken = all_false(num_nodes);
        let incident = build_incidence(num_nodes, &edges);
        let instance = Instance { num_nodes, edges, incident, removed, taken };
        proof {
            assert(flagged(instance.removed@) =~= Set::<NodeIdx>::empty());
            assert(flagged(instance.taken@) =~= Set::<NodeIdx>::empty());
        }
        Ok(instance)
    }

    /// Size of the node universe.
    pub fn num_nodes_total(&self) -> (n: usize)
        ensures
            n == self@.num_nodes,
    {
        self.num_nodes
    }

    /// Size of the edge universe.
    pub fn num_edges_total(&self) -> (m: usize)
        requires
            self.wf(),
        ensures
            m == self@.edges.len(),
    {
        self.edges.len()
    }

    /// Whether `v` is a node of the universe that is not deleted.
    pub fn is_node_live(&self, v: NodeIdx) -> (live: bool)
        requires
            self.wf(),
        ensures
            live == self@.node_live(v),
    {
        v < self.num_nodes && !self.removed[v]
    }

    /// Whether `e` is an edge of the universe that is not deleted.
    pub fn is_edge_live(&self, e: EdgeIdx) -> (live: bool)
        requires
            self.wf(),
        ensures
            live == self@.edge_live(e as int),
    {
        if e >= self.edges.len() {
            return false;
        }
        let members = &self.edges[e];
        let mut i: usize = 0;
        while i < members.len()
            invariant
                self.wf(),
                e < self.edges@.len(),
                members@ == self@.edges[e as int],
                i <= members@.len(),
                forall|k: int| 0 <= k < i ==> !self@.taken.contains(#[trigger] members@[k]),
            decreases members@.len() - i,
        {
            let v = members[i];
            if self.taken[v] {
                return false;
            }
            i += 1;
        }
        true
    }

    /// The members of edge `e`, live or not, as they were given.
    pub fn edge(&self, e: EdgeIdx) -> (members: &[NodeIdx])
        requires
            self.wf(),
            e < self@.edges.len(),
        ensures
            members@ == self@.edges[e as int],
    {
        self.edges[e].as_slice()
    }

    /// Whether `v` is a member of edge `e`.
    pub fn edge_contains(&self, e: EdgeIdx, v: NodeIdx) -> (found: bool)
        requires
            self.wf(),
            e < self@.edges.len(),
        ensures
            found == self@.edges[e as int].contains(v),
    {
        let members = &self.edges[e];
        let mut i: usize = 0;
        while i < members.len()
            invariant
                members@ == self@.edges[e as int],
                i <= members@.len(),
                forall|k: int| 0 <= k < i ==> members@[k] != v,
            decreases members@.len() - i,
        {
            if members[i] == v {
                return true;
            }
            i += 1;
        }
        false
    }

    /// Tells whether edge `e` has no live member, one, or more.
    pub fn live_members_of(&self, e: EdgeIdx) -> (found: LiveMembers)
        requires
            self.wf(),
            e < self@.edges.len(),
        ensures
            match found {
                LiveMembers::Zero => self@.no_live_member(e as int),
                LiveMembers::One { node } => self@.only_live_member(e as int, node),
                LiveMembers::Many => self@.several_live_members(e as int),
            },
    {
        let members = &self.edges[e];
        let mut found = LiveMembers::Zero;
        let mut i: usize = 0;
        while i < members.len()
            invariant
                self.wf(),
                e < self@.edges.len(),
                members@ == self@.edges[e as int],
                i <= members@.len(),
                match found {
                    LiveMembers::Zero => forall|k: int| 0 <= k < i ==> !self@.node_live(#[trigger] members@[k]),
                    LiveMembers::One { node } => {
                        &&& self@.node_live(node)
                        &&& exists|k: int| 0 <= k < i && members@[k] == node
                        &&& forall|k: int| 0 <= k < i && self@.node_live(#[trigger] members@[k]) ==> members@[k] == node
                    },
                    LiveMembers::Many => false,
                },
            decreases members@.len() - i,
        {
            let v = members[i];
            if self.is_node_live(v) {
                match found {
                    LiveMembers::Zero => {
                        found = LiveMembers::One { node: v };
                    },
                    LiveMembers::One { node } => {
                        if node != v {
                            return LiveMembers::Many;
                        }
                    },
                    LiveMembers::Many => {},
                }
            }
            i += 1;
        }
        found
    }

    /// Number of live edges that `v` is a member of.
    pub fn node_degree(&self, v: NodeIdx) -> (degree: usize)
        requires
            self.wf(),
        ensures
            degree == self@.degree(v),
    {
        if v >= self.num_nodes {
            proof {
                assert(self@.incident_live_edges(v) =~= Set::<int>::empty());
            }
            return 0;
        }
        let list = &self.incident[v];
        let mut degree: usize = 0;
        let mut i: usize = 0;
        proof {
            assert(live_among(self@, list@, 0) =~= Set::<int>::empty());
        }
        while i < list.len()
            invariant
                self.wf(),
                v < self.num_nodes,
                list@ == self.incident@[v as int]@,
                lists_edges_of(edge_seqs(self.edges@), list@, v, self.edges@.len() as int, 0),
                i <= list@.len(),
                degree == live_among(self@, list@, i as int).len(),
                degree <= i,
            decreases list@.len() - i,
        {
            proof {
                lemma_live_among(self@, list@, i as int);
            }
            if self.is_edge_live(list[i]) {
                degree += 1;
            }
            i += 1;
        }
        proof {
            assert(live_among(self@, list@, i as int) =~= self@.incident_live_edges(v)) by {
                assert forall|e: int| live_among(self@, list@, i as int).contains(e)
                    <==> self@.incident_live_edges(v).contains(e) by {
                    if live_among(self@, list@, i as int).contains(e) {
                        let k = choose|k: int| 0 <= k < i && list@[k] == e;
                        assert(list@.contains(list@[k]));
                    }
                    if self@.incident_live_edges(v).contains(e) {
                        assert(list@.contains(e as EdgeIdx));
                    }
                }
            }
        }
        degree
    }

    /// Number of live edges.
    pub fn num_edges(&self) -> (count: usize)
        requires
            self.wf(),
        ensures
            count == self@.live_edges().len(),
    {
        let ghost live = |e: int| self@.edge_live(e);
        let mut count: usize = 0;
        let mut e: usize = 0;
        proof {
            lemma_below(0, live);
        }
        while e < self.edges.len()
            invariant
                self.wf(),
                e <= self@.edges.len(),
                live == |e: int| self@.edge_live(e),
                count == below(e as int, live).len(),
                count <= e,
            decreases self@.edges.len() - e,
        {
            proof {
                lemma_below(e as int, live);
            }
            if self.is_edge_live(e) {
                count += 1;
            }
            e += 1;
        }
        proof {
            assert(below(e as int, live) =~= self@.live_edges());
        }
        count
    }

    /// The live nodes, in ascending order.
    pub fn nodes(&self) -> (live: Vec<NodeIdx>)
        requires
            self.wf(),
        ensures
            ascending(live@),
            forall|v: NodeIdx| live@.contains(v) <==> self@.node_live(v),
            live@.len() == self@.live_nodes().len(),
    {
        let mut live: Vec<NodeIdx> = Vec::new();
        let mut v: usize = 0;
        proof {
            assert(live_below(self@, 0) =~= Set::<NodeIdx>::empty());
        }
        while v < self.num_nodes
            invariant
                self.wf(),
                v <= self.num_nodes,
                ascending(live@),
                forall|k: int| 0 <= k < live@.len() ==> #[trigger] live@[k] < v,
                forall|u: NodeIdx| live@.contains(u) <==> u < v && self@.node_live(u),
                live@.len() == live_below(self@, v as nat).len(),
            decreases self.num_nodes - v,
        {
            proof {
                lemma_live_below(self@, v as nat);
            }
            if !self.removed[v] {
                let ghost before = live@;
                live.push(v);
                assert forall|u: NodeIdx| live@.contains(u) <==> u < v + 1 && self@.node_live(u) by {
                    if u < v + 1 && self@.node_live(u) {
                        if u == v {
                            assert(live@[before.len() as int] == u);
                        } else {
                            let k = choose|k: int| 0 <= k < before.len() && before[k] == u;
                            assert(live@[k] == u);
                        }
                    }
                }
            }
            v += 1;
        }
        proof {
            assert(live_below(self@, v as nat) =~= self@.live_nodes());
        }
        live
    }

    /// The live edges, in ascending order.
    pub fn edges(&self) -> (live: Vec<EdgeIdx>)
        requires
            self.wf(),
        ensures
            ascending(live@),
            forall|e: EdgeIdx| live@.contains(e) <==> self@.edge_live(e as int),
    {
        let mut live: Vec<EdgeIdx> = Vec::new();
        let mut e: usize = 0;
        while e < self.edges.len()
            invariant
                self.wf(),
                e <= self@.edges.len(),
                ascending(live@),
                forall|k: int| 0 <= k < live@.len() ==> #[trigger] live@[k] < e,
                forall|d: EdgeIdx| live@.contains(d) <==> d < e && self@.edge_live(d as int),
            decreases self@.edges.len() - e,
        {
            if self.is_edge_live(e) {
                let ghost before = live@;
                live.push(e);
                assert forall|d: EdgeIdx| live@.contains(d) <==> d < e + 1 && self@.edge_live(d as int) by {
                    if d < e + 1 && self@.edge_live(d as int) {
                        if d == e {
                            assert(live@[before.len() as int] == d);
                        } else {
                            let k = choose|k: int| 0 <= k < before.len() && before[k] == d;
                            assert(live@[k] == d);
                        }
                    }
                }
            }
            e += 1;
        }
        live
    }

    /// Deletes the live node `v`.
    pub fn delete_node(&mut self, v: NodeIdx)
        requires
            old(self).wf(),
            old(self)@.node_live(v),
        ensures
            final(self).wf(),
            final(self)@ == old(self)@.remove_node(v),
    {
        proof {
            lemma_flagged_update(self.removed@, v, true);
        }
        self.removed.set(v, true);
    }

    /// Brings the deleted node `v` back, whose incident edges are not
    /// deleted on its account.
    pub fn restore_node(&mut self, v: NodeIdx)
        requires
            old(self).wf(),
            old(self)@.removed.contains(v),
            !old(self)@.taken.contains(v),
        ensures
            final(self).wf(),
            final(self)@ == old(self)@.revive_node(v),
    {
        proof {
            lemma_flagged_update(self.removed@, v, false);
        }
        self.removed.set(v, false);
    }

    /// Deletes the edges that the deleted node `v` is a member of, on
    /// account of `v`.
    pub fn delete_incident_edges(&mut self, v: NodeIdx)
        requires
            old(self).wf(),
            old(self)@.removed.contains(v),
            !old(self)@.taken.contains(v),
        ensures
            final(self).wf(),
            final(self)@ == old(self)@.take_node(v),
    {
        proof {
            lemma_flagged_update(self.taken@, v, true);
        }
        self.taken.set(v, true);
    }

    /// Brings back the edges that were deleted on account of `v`. An edge
    /// stays deleted while another of its members still accounts for it.
    pub fn restore_incident_edges(&mut self, v: NodeIdx)
        requires
            old(self).wf(),
            old(self)@.taken.contains(v),
        ensures
            final(self).wf(),
            final(self)@ == old(self)@.release_node(v),
    {
        proof {
            lemma_flagged_update(self.taken@, v, false);
        }
        self.taken.set(v, false);
    }
}

/// Each element is smaller than the next.
pub open spec fn ascending(s: Seq<usize>) -> bool {
    forall|i: int, j: int| 0 <= i < j < s.len() ==> s[i] < s[j]
}

/// A vector of `len` times `false`.
pub(crate) fn all_false(len: usize) -> (flags: Vec<bool>)
    ensures
        flags@.len() == len,
        forall|i: int| 0 <= i < len ==> !flags@[i],
{
    let mut flags: Vec<bool> = Vec::new();
    while flags.len() < len
        invariant
            flags@.len() <= len,
            forall|i: int| 0 <= i < flags@.len() ==> !flags@[i],
        decreases len - flags@.len(),
    {
        flags.push(false);
    }
    flags
}

} // verus!
