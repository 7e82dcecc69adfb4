//! The execution DAG: builds and binds as nodes, an edge from each dependency
//! to its dependent, kept in a `petgraph` graph whose node `i` stands for the
//! `i`-th DAG node.
//!
//! Builds may depend only on builds; binds on builds and binds. Execution
//! runs in waves: a node's wave is the length of the longest chain of
//! dependencies leading to it, so every node runs after all its dependencies.
use vstd::prelude::*;
use vstd::set_lib::{set_int_range, lemma_int_range, lemma_len_subset};
use petgraph::graph::{DiGraph, NodeIndex};
use petgraph::Direction;
use crate::hash::ObjectHash;
use crate::strmap::{StrMap, compare_str};
use crate::text::concat_str;
use super::types::ExecuteError;
use crate::inputs::refs::{InputsRef, has_bind_ref, contains_bind_ref};

verus! {

#[verifier::external_type_specification]
#[verifier::external_body]
#[verifier::reject_recursive_types(N)]
#[verifier::reject_recursive_types(E)]
#[verifier::reject_recursive_types(Ty)]
#[verifier::reject_recursive_types(Ix)]
pub struct ExGraph<N, E, Ty, Ix>(petgraph::graph::Graph<N, E, Ty, Ix>);

#[verifier::external_type_specification]
#[verifier::external_body]
pub struct ExDirected(petgraph::Directed);

/// The edges of a graph, as (source, target) node indices, in the order they were added.
pub uninterp spec fn graph_edges(g: DiGraph<(), ()>) -> Seq<(u32, u32)>;

/// The number of nodes of a graph.
pub uninterp spec fn graph_node_count(g: DiGraph<(), ()>) -> nat;

/// Calls `petgraph::graph::Graph::new`. Trusted: the graph has no node and no edge.
#[verifier::external_body]
fn graph_new() -> (g: DiGraph<(), ()>)
    ensures
        graph_edges(g) == Seq::<(u32, u32)>::empty(),
        graph_node_count(g) == 0,
{
    DiGraph::new()
}

/// Calls `petgraph::graph::Graph::add_node`. Trusted: the new node's index is
/// the old node count (the source pushes it at the end); the edges are unchanged.
/// The source asserts that the index stays below `u32::MAX`.
#[verifier::external_body]
fn graph_add_node(g: &mut DiGraph<(), ()>) -> (idx: u32)
    requires
        graph_node_count(*old(g)) < u32::MAX,
    ensures
        idx == graph_node_count(*old(g)),
        graph_node_count(*final(g)) == graph_node_count(*old(g)) + 1,
        graph_edges(*final(g)) == graph_edges(*old(g)),
{
    g.add_node(()).index() as u32
}

/// Calls `petgraph::graph::Graph::add_edge`. Trusted: the edge is appended to
/// the edge list; the nodes are unchanged. The source panics on an index out
/// of bounds, and asserts that the edge index stays below `u32::MAX`.
#[verifier::external_body]
fn graph_add_edge(g: &mut DiGraph<(), ()>, a: u32, b: u32)
    requires
        a < graph_node_count(*old(g)),
        b < graph_node_count(*old(g)),
        graph_edges(*old(g)).len() < u32::MAX,
    ensures
        graph_edges(*final(g)) == graph_edges(*old(g)).push((a, b)),
        graph_node_count(*final(g)) == graph_node_count(*old(g)),
{
    g.add_edge(NodeIndex::new(a as usize), NodeIndex::new(b as usize), ());
}

/// The targets of the edges out of `a`, in the order the edges were added.
pub open spec fn out_targets(edges: Seq<(u32, u32)>, a: u32) -> Seq<u32>
    decreases edges.len(),
{
    if edges.len() == 0 {
        Seq::empty()
    } else if edges.last().0 == a {
        out_targets(edges.drop_last(), a).push(edges.last().1)
    } else {
        out_targets(edges.drop_last(), a)
    }
}

/// The sources of the edges into `a`, in the order the edges were added.
pub open spec fn in_sources(edges: Seq<(u32, u32)>, a: u32) -> Seq<u32>
    decreases edges.len(),
{
    if edges.len() == 0 {
        Seq::empty()
    } else if edges.last().1 == a {
        in_sources(edges.drop_last(), a).push(edges.last().0)
    } else {
        in_sources(edges.drop_last(), a)
    }
}

/// Calls `petgraph::graph::Graph::neighbors_directed` and collects the node
/// indices. Trusted: for a directed graph the source walks the node's list of
/// outgoing (or incoming) edges, on which each new edge is put first, so the
/// neighbors come in reverse order of the edges' addition, as it documents.
#[verifier::external_body]
fn graph_neighbors(g: &DiGraph<(), ()>, a: u32, incoming: bool) -> (r: Vec<u32>)
    requires
        a < graph_node_count(*g),
    ensures
        r@ == (if incoming {
            in_sources(graph_edges(*g), a)
        } else {
            out_targets(graph_edges(*g), a)
        }).reverse(),
{
    let dir = if incoming { Direction::Incoming } else { Direction::Outgoing };
    g.neighbors_directed(NodeIndex::new(a as usize), dir).map(|n| n.index() as u32).collect()
}

/// A cycle: a non-empty walk along edges whose last node has an edge back to its first.
pub open spec fn is_edge(edges: Seq<(u32, u32)>, a: u32, b: u32) -> bool {
    exists|e: int| 0 <= e < edges.len() && edges[e] == (a, b)
}

/// The edges contain a cycle.
pub open spec fn has_cycle(edges: Seq<(u32, u32)>) -> bool {
    exists|c: Seq<u32>| {
        &&& c.len() > 0
        &&& (forall|i: int| 0 <= i < c.len() - 1 ==> #[trigger] is_edge(edges, c[i], c[i + 1]))
        &&& is_edge(edges, c.last(), c[0])
    }
}

/// `order` lists every node of `0..count` once, each before its successors.
pub open spec fn is_topological_order(order: Seq<u32>, count: nat, edges: Seq<(u32, u32)>) -> bool {
    &&& order.len() == count
    &&& order.no_duplicates()
    &&& forall|i: int| 0 <= i < order.len() ==> #[trigger] order[i] < count
    &&& forall|i: int, j: int, e: int|
        #![trigger order[i], order[j], edges[e]]
        0 <= i < order.len() && 0 <= j < order.len() && 0 <= e < edges.len() && order[i] == edges[e].0 && order[j]
            == edges[e].1 ==> i < j
}

/// The order `petgraph::algo::toposort` gives the nodes of an acyclic graph
/// with `count` nodes and these edges, added in this order.
pub uninterp spec fn toposort_of(count: nat, edges: Seq<(u32, u32)>) -> Seq<u32>;

/// Calls `petgraph::algo::toposort`. Trusted, as its documentation says: for
/// an acyclic graph it lists the nodes in topological order (each before its
/// successors); otherwise it reports a node of a cycle (self loops are cycles).
/// Which topological order it picks depends on the graph alone (named).
#[verifier::external_body]
fn graph_toposort(g: &DiGraph<(), ()>) -> (r: Result<Vec<u32>, u32>)
    ensures
        match r {
            Ok(v) => is_topological_order(v@, graph_node_count(*g), graph_edges(*g))
                && v@ == toposort_of(graph_node_count(*g), graph_edges(*g)),
            Err(_) => has_cycle(graph_edges(*g)),
        },
{
    match petgraph::algo::toposort(g, None) {
        Ok(v) => Ok(v.into_iter().map(|n| n.index() as u32).collect()),
        Err(c) => Err(c.node_id().index() as u32),
    }
}

/// A node of the execution DAG.
#[derive(Debug, Clone, PartialEq, Eq, Hash)]
pub enum DagNode {
    /// A build to realize.
    Build(ObjectHash),
    /// A bind to apply.
    Bind(ObjectHash),
}

impl DagNode {
    /// A copy of the node.
    pub fn duplicate(&self) -> (r: Self)
        ensures
            r == *self,
    {
        match self {
            DagNode::Build(h) => DagNode::Build(ObjectHash(h.0.clone())),
            DagNode::Bind(h) => DagNode::Bind(ObjectHash(h.0.clone())),
        }
    }
}

/// The builds and binds an input value references, in order (tables by key,
/// arrays by position).
pub open spec fn deps_of_inputs(i: InputsRef) -> Seq<DagNode>
    decreases i,
{
    match i {
        InputsRef::Build(h) => seq![DagNode::Build(h)],
        InputsRef::Bind(h) => seq![DagNode::Bind(h)],
        InputsRef::Table(v) => deps_of_table(v@),
        InputsRef::Array(v) => deps_of_list(v@),
        _ => Seq::empty(),
    }
}

/// The references in the values of a table, in key order.
pub open spec fn deps_of_table(s: Seq<(String, InputsRef)>) -> Seq<DagNode>
    decreases s,
{
    if s.len() == 0 {
        Seq::empty()
    } else {
        deps_of_table(s.drop_last()) + deps_of_inputs(s.last().1)
    }
}

/// The references in the elements of an array, in order.
pub open spec fn deps_of_list(s: Seq<InputsRef>) -> Seq<DagNode>
    decreases s,
{
    if s.len() == 0 {
        Seq::empty()
    } else {
        deps_of_list(s.drop_last()) + deps_of_inputs(s.last())
    }
}

/// Appends the references of an input value to `deps`.
fn collect_dependencies(inputs: &InputsRef, deps: &mut Vec<DagNode>)
    ensures
        final(deps)@ == old(deps)@ + deps_of_inputs(*inputs),
    decreases inputs,
{
    match inputs {
        InputsRef::Build(h) => {
            deps.push(DagNode::Build(ObjectHash(h.0.clone())));
            proof {
                assert(final(deps)@ =~= old(deps)@ + deps_of_inputs(*inputs));
            }
        },
        InputsRef::Bind(h) => {
            deps.push(DagNode::Bind(ObjectHash(h.0.clone())));
        },
        InputsRef::Table(v) => {
            let mut i: usize = 0;
            while i < v.len()
                invariant
                    i <= v@.len(),
                    *inputs == InputsRef::Table(*v),
                    deps@ == old(deps)@ + deps_of_table(v@.take(i as int)),
                decreases v@.len() - i,
            {
                proof {
                    assert(v@.take(i + 1).drop_last() =~= v@.take(i as int));
                    assert(decreases_to!(*inputs => (*inputs)->Table_0));
                    assert(decreases_to!(*v => v@));
                    assert(decreases_to!(v@ => v@[i as int]));
                    assert(decreases_to!(v@[i as int] => v@[i as int].1));
                }
                collect_dependencies(&v[i].1, deps);
                proof {
                    assert(deps@ =~= old(deps)@ + deps_of_table(v@.take(i + 1)));
                }
                i = i + 1;
            }
            proof {
                assert(v@.take(v@.len() as int) =~= v@);
            }
        },
        InputsRef::Array(v) => {
            let mut i: usize = 0;
            while i < v.len()
                invariant
                    i <= v@.len(),
                    *inputs == InputsRef::Array(*v),
                    deps@ == old(deps)@ + deps_of_list(v@.take(i as int)),
                decreases v@.len() - i,
            {
                proof {
                    assert(v@.take(i + 1).drop_last() =~= v@.take(i as int));
                    assert(decreases_to!(*inputs => (*inputs)->Array_0));
                    assert(decreases_to!(*v => v@));
                    assert(decreases_to!(v@ => v@[i as int]));
                }
                collect_dependencies(&v[i], deps);
                proof {
                    assert(deps@ =~= old(deps)@ + deps_of_list(v@.take(i + 1)));
                }
                i = i + 1;
            }
            proof {
                assert(v@.take(v@.len() as int) =~= v@);
            }
        },
        _ => {
            proof {
                assert(final(deps)@ =~= old(deps)@ + deps_of_inputs(*inputs));
            }
        },
    }
}

/// The builds and binds an input value references, in order.
pub fn extract_dependencies(inputs: &InputsRef) -> (r: Vec<DagNode>)
    ensures
        r@ == deps_of_inputs(*inputs),
{
    let mut deps: Vec<DagNode> = Vec::new();
    collect_dependencies(inputs, &mut deps);
    proof {
        assert(deps@ =~= deps_of_inputs(*inputs));
    }
    deps
}

/// What the DAG needs of a manifest: the inputs of each build and each bind,
/// by hash (in hash order).
pub struct DagManifest {
    /// Build hash to the build's inputs.
    pub builds: StrMap<Option<InputsRef>>,
    /// Bind hash to the bind's inputs.
    pub bindings: StrMap<Option<InputsRef>>,
}

/// The references of optional inputs.
pub open spec fn node_deps(i: Option<InputsRef>) -> Seq<DagNode> {
    match i {
        Some(x) => deps_of_inputs(x),
        None => Seq::empty(),
    }
}

/// Optional inputs that reference a bind.
pub open spec fn opt_has_bind_ref(i: Option<InputsRef>) -> bool {
    match i {
        Some(x) => has_bind_ref(x),
        None => false,
    }
}

/// The message of a build that references a bind.
pub open spec fn bind_ref_message(hash: Seq<char>) -> Seq<char> {
    "build "@ + hash + " has bind references in inputs: builds cannot depend on binds"@
}

impl DagManifest {
    /// Both maps are well formed.
    pub open spec fn wf(&self) -> bool {
        self.builds.wf() && self.bindings.wf()
    }

    /// The number of builds.
    pub open spec fn nb(&self) -> int {
        self.builds.keys().len() as int
    }

    /// The number of nodes: builds first, then binds.
    pub open spec fn node_count(&self) -> int {
        (self.builds.keys().len() + self.bindings.keys().len()) as int
    }

    /// The inputs of the node at an index.
    pub open spec fn inputs_at(&self, i: int) -> Option<InputsRef> {
        if i < self.nb() {
            self.builds@[self.builds.keys()[i]]
        } else {
            self.bindings@[self.bindings.keys()[i - self.nb()]]
        }
    }

    /// The node index of a dependency, when it is a node of the manifest
    /// (a bind only where binds may be depended on).
    pub open spec fn dep_index(&self, d: DagNode, allow_bind: bool) -> Option<u32> {
        match d {
            DagNode::Build(h) => if self.builds@.dom().contains(h.0@) {
                Some(self.builds.keys().index_of(h.0@) as u32)
            } else {
                None
            },
            DagNode::Bind(h) => if allow_bind && self.bindings@.dom().contains(h.0@) {
                Some((self.nb() + self.bindings.keys().index_of(h.0@)) as u32)
            } else {
                None
            },
        }
    }

    /// The edges into `target` for its dependencies, in order.
    pub open spec fn edges_from_deps(&self, deps: Seq<DagNode>, target: u32, allow_bind: bool) -> Seq<(u32, u32)>
        decreases deps.len(),
    {
        if deps.len() == 0 {
            Seq::empty()
        } else {
            self.edges_from_deps(deps.drop_last(), target, allow_bind) + match self.dep_index(deps.last(), allow_bind) {
                Some(k) => seq![(k, target)],
                None => Seq::empty(),
            }
        }
    }

    /// The edges into the node at an index. Builds may depend on builds only.
    pub open spec fn node_edges(&self, i: int) -> Seq<(u32, u32)> {
        self.edges_from_deps(node_deps(self.inputs_at(i)), i as u32, i >= self.nb())
    }

    /// The edges into the first `n` nodes, node after node.
    pub open spec fn edges_upto(&self, n: int) -> Seq<(u32, u32)>
        decreases n,
    {
        if n <= 0 {
            Seq::empty()
        } else {
            self.edges_upto(n - 1) + self.node_edges(n - 1)
        }
    }

    /// All edges of the manifest's DAG, in the order they are added.
    pub open spec fn all_edges(&self) -> Seq<(u32, u32)> {
        self.edges_upto(self.node_count())
    }

    /// No build references a bind.
    pub open spec fn builds_bind_free(&self) -> bool {
        forall|i: int| 0 <= i < self.nb() ==> !opt_has_bind_ref(#[trigger] self.builds@[self.builds.keys()[i]])
    }
}

proof fn lemma_edges_from_deps_prefix(m: &DagManifest, deps: Seq<DagNode>, t: int, target: u32, allow_bind: bool)
    requires
        0 <= t <= deps.len(),
    ensures
        m.edges_from_deps(deps.take(t), target, allow_bind).len() <= m.edges_from_deps(deps, target, allow_bind).len(),
    decreases deps.len() - t,
{
    if t < deps.len() {
        lemma_edges_from_deps_prefix(m, deps, t + 1, target, allow_bind);
        assert(deps.take(t + 1).drop_last() =~= deps.take(t));
    } else {
        assert(deps.take(t) =~= deps);
    }
}

proof fn lemma_edges_upto_monotone(m: &DagManifest, a: int, b: int)
    requires
        0 <= a <= b,
    ensures
        m.edges_upto(a).len() <= m.edges_upto(b).len(),
    decreases b - a,
{
    if a < b {
        lemma_edges_upto_monotone(m, a, b - 1);
    }
}

/// In a list of distinct keys, the index of the `j`-th key is `j`.
proof fn lemma_index_of_distinct(ks: Seq<Seq<char>>, j: int)
    requires
        crate::strmap::strictly_sorted(ks),
        0 <= j < ks.len(),
    ensures
        ks.index_of(ks[j]) == j,
{
    crate::strmap::lemma_sorted_distinct(ks);
    let i = ks.index_of(ks[j]);
    assert(ks.contains(ks[j]));
}

/// The execution DAG of a manifest.
pub struct ExecutionDag {
    graph: DiGraph<(), ()>,
    nodes: Vec<DagNode>,
    build_nodes: StrMap<u32>,
    bind_nodes: StrMap<u32>,
}

impl ExecutionDag {
    /// The nodes, by index.
    pub closed spec fn node_list(&self) -> Seq<DagNode> {
        self.nodes@
    }

    /// The edges (dependency, dependent), in the order they were added.
    pub closed spec fn edge_list(&self) -> Seq<(u32, u32)> {
        graph_edges(self.graph)
    }

    /// The indexes agree with the nodes, the edges join nodes, and the graph is acyclic.
    pub closed spec fn wf(&self) -> bool {
        &&& graph_node_count(self.graph) == self.nodes@.len()
        &&& self.nodes@.len() < u32::MAX
        &&& forall|e: int| 0 <= e < graph_edges(self.graph).len() ==> (#[trigger] graph_edges(self.graph)[e]).0 < self.nodes@.len()
            && graph_edges(self.graph)[e].1 < self.nodes@.len()
        &&& self.build_nodes.wf()
        &&& self.bind_nodes.wf()
        &&& forall|h: Seq<char>| #[trigger] self.build_nodes@.dom().contains(h) ==> self.build_nodes@[h] < self.nodes@.len()
            && (self.nodes@[self.build_nodes@[h] as int] matches DagNode::Build(x) && x.0@ == h)
        &&& forall|h: Seq<char>| #[trigger] self.bind_nodes@.dom().contains(h) ==> self.bind_nodes@[h] < self.nodes@.len()
            && (self.nodes@[self.bind_nodes@[h] as int] matches DagNode::Bind(x) && x.0@ == h)
        &&& forall|i: int| 0 <= i < self.nodes@.len() ==> match #[trigger] self.nodes@[i] {
            DagNode::Build(x) => self.build_nodes@.dom().contains(x.0@) && self.build_nodes@[x.0@] == i,
            DagNode::Bind(x) => self.bind_nodes@.dom().contains(x.0@) && self.bind_nodes@[x.0@] == i,
        }
        &&& exists|o: Seq<u32>| is_topological_order(o, self.nodes@.len(), graph_edges(self.graph))
    }

    /// Builds the DAG of a manifest: a node per build (in hash order), then a
    /// node per bind, and an edge from each dependency to its dependent.
    /// Fails when a build references a bind (builds cannot depend on binds),
    /// naming the first such build, and when the dependencies form a cycle.
    pub fn from_manifest(manifest: &DagManifest) -> (r: Result<Self, ExecuteError>)
        requires
            manifest.wf(),
            manifest.node_count() < u32::MAX,
            manifest.all_edges().len() < u32::MAX,
        ensures
            match r {
                Err(ExecuteError::InvalidManifest(msg)) => exists|i: int| {
                    &&& 0 <= i < manifest.nb()
                    &&& opt_has_bind_ref(#[trigger] manifest.builds@[manifest.builds.keys()[i]])
                    &&& forall|j: int| 0 <= j < i ==> !opt_has_bind_ref(#[trigger] manifest.builds@[manifest.builds.keys()[j]])
                    &&& msg@ == bind_ref_message(manifest.builds.keys()[i])
                },
                Err(ExecuteError::CycleDetected) => manifest.builds_bind_free() && has_cycle(manifest.all_edges()),
                Err(_) => false,
                Ok(dag) => {
                    &&& manifest.builds_bind_free()
                    &&& dag.wf()
                    &&& dag.node_list().len() == manifest.node_count()
                    &&& forall|i: int| 0 <= i < manifest.nb() ==> (#[trigger] dag.node_list()[i] matches DagNode::Build(h)
                        && h.0@ == manifest.builds.keys()[i])
                    &&& forall|j: int| 0 <= j < manifest.bindings.keys().len() ==> (#[trigger] dag.node_list()[manifest.nb() + j] matches DagNode::Bind(h)
                        && h.0@ == manifest.bindings.keys()[j])
                    &&& dag.edge_list() == manifest.all_edges()
                },
            },
    {
        proof {
            manifest.builds.lemma_view();
            manifest.bindings.lemma_view();
        }
        let nb = manifest.builds.len();
        let nbind = manifest.bindings.len();
        // builds cannot depend on binds
        let mut i: usize = 0;
        while i < nb
            invariant
                manifest.wf(),
                nb == manifest.nb(),
                i <= nb,
                forall|j: int| 0 <= j < i ==> !opt_has_bind_ref(#[trigger] manifest.builds@[manifest.builds.keys()[j]]),
            decreases nb - i,
        {
            proof {
                manifest.builds.lemma_view();
            }
            let (key, inputs) = manifest.builds.entry_at(i);
            if let Some(inp) = inputs {
                if contains_bind_ref(inp) {
                    let a = "build ";
                    let b = " has bind references in inputs: builds cannot depend on binds";
                    let msg = concat_str(a, key.as_str());
                    let msg = concat_str(msg.as_str(), b);
                    return Err(ExecuteError::InvalidManifest(msg));
                }
            }
            i = i + 1;
        }
        let mut graph = graph_new();
        let mut nodes: Vec<DagNode> = Vec::new();
        let mut build_nodes: StrMap<u32> = StrMap::new();
        let mut bind_nodes: StrMap<u32> = StrMap::new();
        // a node per build
        let mut i: usize = 0;
        while i < nb
            invariant
                manifest.wf(),
                nb == manifest.nb(),
                nb + nbind == manifest.node_count(),
                manifest.node_count() < u32::MAX,
                i <= nb,
                graph_node_count(graph) == i,
                graph_edges(graph) == Seq::<(u32, u32)>::empty(),
                nodes@.len() == i,
                build_nodes.wf(),
                bind_nodes@ == Map::<Seq<char>, u32>::empty(),
                forall|j: int| 0 <= j < i ==> (#[trigger] nodes@[j] matches DagNode::Build(h) && h.0@ == manifest.builds.keys()[j]),
                build_nodes@.dom() == manifest.builds.keys().take(i as int).to_set(),
                forall|j: int| 0 <= j < i ==> #[trigger] build_nodes@[manifest.builds.keys()[j]] == j,
            decreases nb - i,
        {
            proof {
                manifest.builds.lemma_view();
            }
            let (key, _) = manifest.builds.entry_at(i);
            let idx = graph_add_node(&mut graph);
            nodes.push(DagNode::Build(ObjectHash(key.clone())));
            build_nodes.insert(key.clone(), idx);
            proof {
                crate::strmap::lemma_sorted_distinct(manifest.builds.keys());
                assert(manifest.builds.keys().take(i + 1) =~= manifest.builds.keys().take(i as int).push(manifest.builds.keys()[i as int]));
                manifest.builds.keys().take(i as int).lemma_push_to_set_commute(manifest.builds.keys()[i as int]);
                assert forall|j: int| 0 <= j < i + 1 implies #[trigger] build_nodes@[manifest.builds.keys()[j]] == j by {
                    if j < i {
                        assert(manifest.builds.keys()[j] != manifest.builds.keys()[i as int]);
                    }
                }
            }
            i = i + 1;
        }
        // a node per bind
        proof {
            assert(manifest.builds.keys().take(nb as int) =~= manifest.builds.keys());
        }
        let mut j: usize = 0;
        while j < nbind
            invariant
                manifest.wf(),
                nb == manifest.nb(),
                nbind == manifest.bindings.keys().len(),
                manifest.node_count() < u32::MAX,
                j <= nbind,
                graph_node_count(graph) == nb + j,
                graph_edges(graph) == Seq::<(u32, u32)>::empty(),
                nodes@.len() == nb + j,
                build_nodes.wf(),
                bind_nodes.wf(),
                forall|k: int| 0 <= k < nb ==> (#[trigger] nodes@[k] matches DagNode::Build(h) && h.0@ == manifest.builds.keys()[k]),
                forall|k: int| 0 <= k < j ==> (#[trigger] nodes@[nb + k] matches DagNode::Bind(h) && h.0@ == manifest.bindings.keys()[k]),
                build_nodes@.dom() == manifest.builds.keys().to_set(),
                forall|k: int| 0 <= k < nb ==> #[trigger] build_nodes@[manifest.builds.keys()[k]] == k,
                bind_nodes@.dom() == manifest.bindings.keys().take(j as int).to_set(),
                forall|k: int| 0 <= k < j ==> #[trigger] bind_nodes@[manifest.bindings.keys()[k]] == nb + k,
            decreases nbind - j,
        {
            proof {
                manifest.bindings.lemma_view();
            }
            let (key, _) = manifest.bindings.entry_at(j);
            let idx = graph_add_node(&mut graph);
            nodes.push(DagNode::Bind(ObjectHash(key.clone())));
            bind_nodes.insert(key.clone(), idx);
            proof {
                crate::strmap::lemma_sorted_distinct(manifest.bindings.keys());
                assert(manifest.bindings.keys().take(j + 1) =~= manifest.bindings.keys().take(j as int).push(manifest.bindings.keys()[j as int]));
                manifest.bindings.keys().take(j as int).lemma_push_to_set_commute(manifest.bindings.keys()[j as int]);
                assert forall|k: int| 0 <= k < j + 1 implies #[trigger] bind_nodes@[manifest.bindings.keys()[k]] == nb + k by {
                    if k < j {
                        assert(manifest.bindings.keys()[k] != manifest.bindings.keys()[j as int]);
                    }
                }
            }
            j = j + 1;
        }
        proof {
            assert(manifest.bindings.keys().take(nbind as int) =~= manifest.bindings.keys());
        }
        // an edge from each dependency to its dependent
        let total = nb + nbind;
        let mut i: usize = 0;
        while i < total
            invariant
                manifest.wf(),
                nb == manifest.nb(),
                nbind == manifest.bindings.keys().len(),
                total == nb + nbind,
                total == manifest.node_count(),
                manifest.node_count() < u32::MAX,
                manifest.all_edges().len() < u32::MAX,
                i <= total,
                graph_node_count(graph) == total,
                nodes@.len() == total,
                graph_edges(graph) == manifest.edges_upto(i as int),
                forall|e: int| 0 <= e < graph_edges(graph).len() ==> (#[trigger] graph_edges(graph)[e]).0 < total
                    && graph_edges(graph)[e].1 < total,
                build_nodes.wf(),
                bind_nodes.wf(),
                forall|k: int| 0 <= k < nb ==> (#[trigger] nodes@[k] matches DagNode::Build(h) && h.0@ == manifest.builds.keys()[k]),
                forall|k: int| 0 <= k < nbind ==> (#[trigger] nodes@[nb + k] matches DagNode::Bind(h) && h.0@ == manifest.bindings.keys()[k]),
                build_nodes@.dom() == manifest.builds.keys().to_set(),
                forall|k: int| 0 <= k < nb ==> #[trigger] build_nodes@[manifest.builds.keys()[k]] == k,
                bind_nodes@.dom() == manifest.bindings.keys().to_set(),
                forall|k: int| 0 <= k < nbind ==> #[trigger] bind_nodes@[manifest.bindings.keys()[k]] == nb + k,
            decreases total - i,
        {
            proof {
                manifest.builds.lemma_view();
                manifest.bindings.lemma_view();
            }
            let allow_bind = i >= nb;
            let inputs: &Option<InputsRef> = if i < nb {
                manifest.builds.entry_at(i).1
            } else {
                manifest.bindings.entry_at(i - nb).1
            };
            proof {
                assert(*inputs == manifest.inputs_at(i as int));
                lemma_edges_upto_monotone(manifest, i + 1, manifest.node_count());
            }
            let ghost base = graph_edges(graph);
            if let Some(inp) = inputs {
                let deps = extract_dependencies(inp);
                let mut t: usize = 0;
                proof {
                    assert(deps@.take(0) =~= Seq::<DagNode>::empty());
                }
                while t < deps.len()
                    invariant
                        manifest.wf(),
                        nb == manifest.nb(),
                        nbind == manifest.bindings.keys().len(),
                        total == nb + nbind,
                        i < total,
                        allow_bind == (i >= nb),
                        deps@ == node_deps(manifest.inputs_at(i as int)),
                        base == manifest.edges_upto(i as int),
                        base.len() + manifest.node_edges(i as int).len() < u32::MAX,
                        t <= deps@.len(),
                        graph_node_count(graph) == total,
                        graph_edges(graph) == base + manifest.edges_from_deps(deps@.take(t as int), i as u32, allow_bind),
                        forall|e: int| 0 <= e < graph_edges(graph).len() ==> (#[trigger] graph_edges(graph)[e]).0 < total
                            && graph_edges(graph)[e].1 < total,
                        build_nodes.wf(),
                        bind_nodes.wf(),
                        build_nodes@.dom() == manifest.builds.keys().to_set(),
                        forall|k: int| 0 <= k < nb ==> #[trigger] build_nodes@[manifest.builds.keys()[k]] == k,
                        bind_nodes@.dom() == manifest.bindings.keys().to_set(),
                        forall|k: int| 0 <= k < nbind ==> #[trigger] bind_nodes@[manifest.bindings.keys()[k]] == nb + k,
                    decreases deps@.len() - t,
                {
                    proof {
                        assert(deps@.take(t + 1).drop_last() =~= deps@.take(t as int));
                        assert(deps@.take(t + 1).last() == deps@[t as int]);
                        lemma_edges_from_deps_prefix(manifest, deps@, t + 1, i as u32, allow_bind);
                        manifest.builds.lemma_view();
                        manifest.bindings.lemma_view();
                        crate::strmap::lemma_sorted_distinct(manifest.builds.keys());
                        crate::strmap::lemma_sorted_distinct(manifest.bindings.keys());
                    }
                    let source: Option<u32> = match &deps[t] {
                        DagNode::Build(h) => match build_nodes.get(h.0.as_str()) {
                            Some(k) => Some(*k),
                            None => None,
                        },
                        DagNode::Bind(h) => if allow_bind {
                            match bind_nodes.get(h.0.as_str()) {
                                Some(k) => Some(*k),
                                None => None,
                            }
                        } else {
                            None
                        },
                    };
                    proof {
                        let d = deps@[t as int];
                        match d {
                            DagNode::Build(h) => {
                                if manifest.builds@.dom().contains(h.0@) {
                                    let k = choose|k: int| 0 <= k < nb && manifest.builds.keys()[k] == h.0@;
                                    lemma_index_of_distinct(manifest.builds.keys(), k);
                                    assert(source == Some(k as u32));
                                }
                            },
                            DagNode::Bind(h) => {
                                if allow_bind && manifest.bindings@.dom().contains(h.0@) {
                                    let k = choose|k: int| 0 <= k < nbind && manifest.bindings.keys()[k] == h.0@;
                                    lemma_index_of_distinct(manifest.bindings.keys(), k);
                                    assert(source == Some((nb + k) as u32));
                                }
                            },
                        }
                        assert(source == manifest.dep_index(d, allow_bind));
                    }
                    if let Some(k) = source {
                        graph_add_edge(&mut graph, k, i as u32);
                    }
                    proof {
                        assert(graph_edges(graph) =~= base + manifest.edges_from_deps(deps@.take(t + 1), i as u32, allow_bind));
                    }
                    t = t + 1;
                }
                proof {
                    assert(deps@.take(deps@.len() as int) =~= deps@);
                }
            } else {
                proof {
                    assert(manifest.node_edges(i as int) =~= Seq::<(u32, u32)>::empty());
                }
            }
            proof {
                assert(graph_edges(graph) =~= manifest.edges_upto(i + 1));
            }
            i = i + 1;
        }
        let order = match graph_toposort(&graph) {
            Ok(o) => o,
            Err(_) => return Err(ExecuteError::CycleDetected),
        };
        let dag = ExecutionDag { graph, nodes, build_nodes, bind_nodes };
        proof {
            manifest.builds.lemma_view();
            manifest.bindings.lemma_view();
            assert forall|h: Seq<char>| #[trigger] dag.build_nodes@.dom().contains(h) implies dag.build_nodes@[h] < dag.nodes@.len()
                && (dag.nodes@[dag.build_nodes@[h] as int] matches DagNode::Build(x) && x.0@ == h) by {
                let k = choose|k: int| 0 <= k < nb && manifest.builds.keys()[k] == h;
            }
            assert forall|h: Seq<char>| #[trigger] dag.bind_nodes@.dom().contains(h) implies dag.bind_nodes@[h] < dag.nodes@.len()
                && (dag.nodes@[dag.bind_nodes@[h] as int] matches DagNode::Bind(x) && x.0@ == h) by {
                let k = choose|k: int| 0 <= k < nbind && manifest.bindings.keys()[k] == h;
                assert(dag.nodes@[nb + k] matches DagNode::Bind(x) && x.0@ == h);
            }
            assert forall|i: int| 0 <= i < dag.nodes@.len() implies match #[trigger] dag.nodes@[i] {
                DagNode::Build(x) => dag.build_nodes@.dom().contains(x.0@) && dag.build_nodes@[x.0@] == i,
                DagNode::Bind(x) => dag.bind_nodes@.dom().contains(x.0@) && dag.bind_nodes@[x.0@] == i,
            } by {
                if i < nb {
                    assert(manifest.builds.keys().contains(manifest.builds.keys()[i]));
                } else {
                    let k = i - nb;
                    assert(dag.nodes@[nb + k] matches DagNode::Bind(x) && x.0@ == manifest.bindings.keys()[k]);
                    assert(manifest.bindings.keys().contains(manifest.bindings.keys()[k]));
                }
            }
            assert(is_topological_order(order@, dag.nodes@.len(), graph_edges(dag.graph)));
        }
        Ok(dag)
    }
}

/// A list of `n` distinct indices below `n` holds every index below `n`.
pub proof fn lemma_order_covers(o: Seq<u32>, n: nat)
    requires
        o.len() == n,
        o.no_duplicates(),
        forall|i: int| 0 <= i < o.len() ==> #[trigger] o[i] < n,
    ensures
        forall|x: u32| x < n ==> #[trigger] o.contains(x),
{
    let oi = o.map_values(|x: u32| x as int);
    assert(oi.no_duplicates()) by {
        assert forall|i: int, j: int| 0 <= i < oi.len() && 0 <= j < oi.len() && i != j implies oi[i] != oi[j] by {
            assert(o[i] != o[j]);
        }
    }
    oi.unique_seq_to_set();
    lemma_int_range(0, n as int);
    assert forall|x: u32| x < n implies #[trigger] o.contains(x) by {
        if !o.contains(x) {
            let r = set_int_range(0, n as int).remove(x as int);
            assert forall|y: int| #[trigger] oi.to_set().contains(y) implies r.contains(y) by {
                let i = choose|i: int| 0 <= i < oi.len() && oi[i] == y;
                assert(o[i] as int == y);
                if y == x as int {
                    assert(o[i] == x);
                    assert(o.contains(x));
                }
            }
            lemma_len_subset(oi.to_set(), r);
        }
    }
}

/// A graph with a topological order has no cycle.
pub proof fn lemma_topo_no_cycle(o: Seq<u32>, n: nat, edges: Seq<(u32, u32)>)
    requires
        is_topological_order(o, n, edges),
        forall|e: int| 0 <= e < edges.len() ==> (#[trigger] edges[e]).0 < n && edges[e].1 < n,
    ensures
        !has_cycle(edges),
{
    lemma_order_covers(o, n);
    if has_cycle(edges) {
        let c = choose|c: Seq<u32>| {
            &&& c.len() > 0
            &&& (forall|i: int| 0 <= i < c.len() - 1 ==> #[trigger] is_edge(edges, c[i], c[i + 1]))
            &&& is_edge(edges, c.last(), c[0])
        };
        // positions strictly increase along edges
        assert forall|a: u32, b: u32| #[trigger] is_edge(edges, a, b) implies o.index_of(a) < o.index_of(b) by {
            let e = choose|e: int| 0 <= e < edges.len() && edges[e] == (a, b);
            assert(o.contains(a) && o.contains(b));
            let i = o.index_of(a);
            let j = o.index_of(b);
            assert(o[i] == edges[e].0 && o[j] == edges[e].1);
        }
        lemma_positions_increase(o, edges, c, c.len() - 1);
        assert(is_edge(edges, c.last(), c[0]));
        assert(o.index_of(c.last()) < o.index_of(c[0]));
    }
}

/// Along a walk, positions in a topological order increase.
proof fn lemma_positions_increase(o: Seq<u32>, edges: Seq<(u32, u32)>, c: Seq<u32>, k: int)
    requires
        0 <= k < c.len(),
        forall|i: int| 0 <= i < c.len() - 1 ==> #[trigger] is_edge(edges, c[i], c[i + 1]),
        forall|a: u32, b: u32| #[trigger] is_edge(edges, a, b) ==> o.index_of(a) < o.index_of(b),
    ensures
        o.index_of(c[0]) <= o.index_of(c[k]),
    decreases k,
{
    if k > 0 {
        lemma_positions_increase(o, edges, c, k - 1);
        assert(is_edge(edges, c[k - 1], c[k - 1 + 1]));
    }
}

/// The sources of the edges into `v` are exactly the nodes with an edge to `v`.
proof fn lemma_in_sources(edges: Seq<(u32, u32)>, v: u32)
    ensures
        forall|a: u32| #[trigger] in_sources(edges, v).contains(a) <==> is_edge(edges, a, v),
    decreases edges.len(),
{
    if edges.len() > 0 {
        lemma_in_sources(edges.drop_last(), v);
        let rest = in_sources(edges.drop_last(), v);
        assert forall|a: u32| #[trigger] in_sources(edges, v).contains(a) <==> is_edge(edges, a, v) by {
            if in_sources(edges, v).contains(a) {
                if edges.last().1 == v && a == edges.last().0 {
                    assert(edges[edges.len() - 1] == (a, v));
                } else {
                    if edges.last().1 == v {
                        let k = choose|k: int| 0 <= k < rest.push(edges.last().0).len() && rest.push(edges.last().0)[k] == a;
                        assert(rest[k] == a);
                    }
                    assert(rest.contains(a));
                    let e = choose|e: int| 0 <= e < edges.drop_last().len() && edges.drop_last()[e] == (a, v);
                    assert(edges[e] == (a, v));
                }
            }
            if is_edge(edges, a, v) {
                let e = choose|e: int| 0 <= e < edges.len() && edges[e] == (a, v);
                if e == edges.len() - 1 {
                    assert(in_sources(edges, v) == rest.push(a));
                    assert(rest.push(a)[rest.len() as int] == a);
                } else {
                    assert(edges.drop_last()[e] == (a, v));
                    assert(is_edge(edges.drop_last(), a, v));
                    assert(rest.contains(a));
                    let k = choose|k: int| 0 <= k < rest.len() && rest[k] == a;
                    if edges.last().1 == v {
                        assert(rest.push(edges.last().0)[k] == a);
                    }
                }
            }
        }
    }
}

/// `levels` gives each node the length of the longest chain of edges ending
/// at it: 0 for a node without predecessors, else one more than its highest
/// predecessor's.
pub open spec fn is_levels(levels: Seq<int>, n: nat, edges: Seq<(u32, u32)>) -> bool {
    &&& levels.len() == n
    &&& forall|v: int| 0 <= v < n ==> 0 <= #[trigger] levels[v]
    &&& forall|e: int| 0 <= e < edges.len() ==> levels[(#[trigger] edges[e]).0 as int] < levels[edges[e].1 as int]
    &&& forall|v: int| 0 <= v < n && #[trigger] levels[v] > 0 ==> exists|e: int| 0 <= e < edges.len() && edges[e].1 == v
        && levels[edges[e].0 as int] == levels[v] - 1
}

/// The nodes among the first `k` whose level is `l`, in index order.
pub open spec fn wave_of(levels: Seq<int>, nodes: Seq<DagNode>, l: int, k: int) -> Seq<DagNode>
    decreases k,
{
    if k <= 0 {
        Seq::empty()
    } else if levels[k - 1] == l {
        wave_of(levels, nodes, l, k - 1).push(nodes[k - 1])
    } else {
        wave_of(levels, nodes, l, k - 1)
    }
}

impl ExecutionDag {
    /// Each node's level (see `is_levels`), computed along a topological order.
    fn compute_levels(&self) -> (levels: Vec<usize>)
        requires
            self.wf(),
        ensures
            is_levels(levels@.map_values(|x: usize| x as int), self.nodes@.len(), graph_edges(self.graph)),
            forall|v: int| 0 <= v < levels@.len() ==> #[trigger] levels@[v] < self.nodes@.len(),
    {
        let n = self.nodes.len();
        let ghost edges = graph_edges(self.graph);
        proof {
            let o = choose|o: Seq<u32>| is_topological_order(o, self.nodes@.len(), graph_edges(self.graph));
            lemma_topo_no_cycle(o, self.nodes@.len(), edges);
        }
        let order = match graph_toposort(&self.graph) {
            Ok(o) => o,
            Err(_) => {
                proof {
                    assert(false);
                }
                Vec::new()
            },
        };
        proof {
            lemma_order_covers(order@, n as nat);
        }
        let mut levels: Vec<usize> = Vec::new();
        let mut z: usize = 0;
        while z < n
            invariant
                z <= n,
                levels@.len() == z,
                forall|v: int| 0 <= v < z ==> #[trigger] levels@[v] == 0,
            decreases n - z,
        {
            levels.push(0);
            z = z + 1;
        }
        // positions of the processed nodes
        let ghost mut pos: Map<int, int> = Map::empty();
        let mut k: usize = 0;
        while k < n
            invariant
                self.wf(),
                n == self.nodes@.len(),
                edges == graph_edges(self.graph),
                is_topological_order(order@, n as nat, edges),
                forall|x: u32| x < n ==> #[trigger] order@.contains(x),
                k <= n,
                levels@.len() == n,
                forall|q: int| 0 <= q < k ==> #[trigger] levels@[order@[q] as int] <= q,
                forall|v: int| 0 <= v < n && !order@.take(k as int).contains(v as u32) ==> #[trigger] levels@[v] == 0,
                forall|e: int| 0 <= e < edges.len() && order@.take(k as int).contains((#[trigger] edges[e]).1) ==> levels@[edges[e].0 as int] < levels@[edges[e].1 as int],
                forall|v: int| 0 <= v < n && order@.take(k as int).contains(v as u32) && #[trigger] levels@[v] > 0 ==> exists|e: int| 0 <= e < edges.len()
                    && edges[e].1 == v && levels@[edges[e].0 as int] + 1 == levels@[v],
            decreases n - k,
        {
            let v = order[k];
            let preds = graph_neighbors(&self.graph, v, true);
            proof {
                lemma_in_sources(edges, v);
            }
            let mut lvl: usize = 0;
            let mut t: usize = 0;
            while t < preds.len()
                invariant
                    self.wf(),
                    n == self.nodes@.len(),
                    edges == graph_edges(self.graph),
                    is_topological_order(order@, n as nat, edges),
                    forall|x: u32| x < n ==> #[trigger] order@.contains(x),
                    k < n,
                    v == order@[k as int],
                    preds@ == in_sources(edges, v).reverse(),
                    forall|a: u32| #[trigger] in_sources(edges, v).contains(a) <==> is_edge(edges, a, v),
                    levels@.len() == n,
                    forall|q: int| 0 <= q < k ==> #[trigger] levels@[order@[q] as int] <= q,
                    t <= preds@.len(),
                    lvl <= k,
                    forall|s: int| 0 <= s < t ==> levels@[#[trigger] preds@[s] as int] < lvl,
                    lvl > 0 ==> exists|s: int| 0 <= s < t && levels@[#[trigger] preds@[s] as int] + 1 == lvl,
                decreases preds@.len() - t,
            {
                let p = preds[t];
                proof {
                    assert(in_sources(edges, v).reverse().contains(p)) by {
                        assert(preds@[t as int] == p);
                    }
                    assert(in_sources(edges, v).contains(p)) by {
                        let r = in_sources(edges, v);
                        let s2 = choose|s2: int| 0 <= s2 < r.reverse().len() && r.reverse()[s2] == p;
                        assert(r[r.len() - 1 - s2] == p);
                    }
                    assert(is_edge(edges, p, v));
                    let e = choose|e: int| 0 <= e < edges.len() && edges[e] == (p, v);
                    assert(edges[e].0 < n);
                    assert(p < n);
                    // p comes before v in the order
                    assert(order@.contains(p));
                    let qp = order@.index_of(p);
                    assert(order@[qp] == edges[e].0 && order@[k as int] == edges[e].1);
                    assert(qp < k);
                    assert(levels@[order@[qp] as int] <= qp);
                }
                if levels[p as usize] + 1 > lvl {
                    lvl = levels[p as usize] + 1;
                }
                t = t + 1;
            }
            let ghost before = levels@;
            levels.set(v as usize, lvl);
            proof {
                assert(order@.take(k + 1) =~= order@.take(k as int).push(v));
                assert(!order@.take(k as int).contains(v)) by {
                    if order@.take(k as int).contains(v) {
                        let q = choose|q: int| 0 <= q < k && #[trigger] order@.take(k as int)[q] == v;
                        assert(order@[q] == order@[k as int]);
                    }
                }
                assert forall|w: int| 0 <= w < n && !order@.take(k + 1).contains(w as u32) implies #[trigger] levels@[w] == 0 by {
                    if w != v as int {
                        if order@.take(k as int).contains(w as u32) {
                            let qq = choose|qq: int| 0 <= qq < k && #[trigger] order@.take(k as int)[qq] == w as u32;
                            assert(order@.take(k + 1)[qq] == w as u32);
                        }
                    } else {
                        assert(order@.take(k + 1)[k as int] == v);
                    }
                }
                // the level of v before was 0, and nothing processed depended on it yet
                assert forall|q: int| 0 <= q < k + 1 implies #[trigger] levels@[order@[q] as int] <= q by {
                    if q < k {
                        assert(order@[q] != v);
                    }
                }
                assert forall|e: int| 0 <= e < edges.len() && order@.take(k + 1).contains((#[trigger] edges[e]).1) implies levels@[edges[e].0 as int] < levels@[edges[e].1 as int] by {
                    let a = edges[e].0;
                    let b = edges[e].1;
                    assert(order@.contains(a));
                    let qa = order@.index_of(a);
                    let qb = order@.index_of(b);
                    assert(order@[qa] == edges[e].0 && order@[qb] == edges[e].1);
                    if b == v {
                        assert(is_edge(edges, a, v));
                        assert(in_sources(edges, v).contains(a));
                        let r = in_sources(edges, v);
                        let s1 = choose|s1: int| 0 <= s1 < r.len() && r[s1] == a;
                        assert(preds@[r.len() - 1 - s1] == a);
                        assert(a != v) by {
                            assert(qa < qb);
                        }
                    } else {
                        let qq = choose|qq: int| 0 <= qq < k + 1 && #[trigger] order@.take(k + 1)[qq] == b;
                        assert(qq < k);
                        assert(order@.take(k as int).contains(b)) by {
                            assert(order@.take(k as int)[qq] == b);
                        }
                        assert(qa < qq) by {
                            assert(order@[qq] == b);
                        }
                        assert(a != v) by {
                            assert(order@[qa] == a);
                            assert(qa < k);
                        }
                    }
                }
                assert forall|w: int| 0 <= w < n && order@.take(k + 1).contains(w as u32) && #[trigger] levels@[w] > 0 implies exists|e: int| 0 <= e < edges.len()
                    && edges[e].1 == w && levels@[edges[e].0 as int] + 1 == levels@[w] by {
                    if w == v as int {
                        let s = choose|s: int| 0 <= s < preds@.len() && before[#[trigger] preds@[s] as int] + 1 == lvl;
                        let a = preds@[s];
                        let r = in_sources(edges, v);
                        assert(r.reverse()[s] == a);
                        assert(r.contains(a)) by {
                            assert(r[r.len() - 1 - s] == a);
                        }
                        assert(is_edge(edges, a, v));
                        let e = choose|e: int| 0 <= e < edges.len() && edges[e] == (a, v);
                        assert(a != v) by {
                            assert(order@.contains(a));
                            let qa = order@.index_of(a);
                            assert(order@[qa] == edges[e].0 && order@[k as int] == edges[e].1);
                        }
                        assert(levels@[a as int] == before[a as int]);
                    } else {
                        assert(order@.take(k as int).contains(w as u32)) by {
                            let qq = choose|qq: int| 0 <= qq < k + 1 && #[trigger] order@.take(k + 1)[qq] == w as u32;
                            assert(order@.take(k as int)[qq] == w as u32);
                        }
                        let e = choose|e: int| 0 <= e < edges.len() && edges[e].1 == w && before[edges[e].0 as int] + 1 == before[w];
                        if edges[e].0 == v {
                            // v was unprocessed, so its level was 0; but then w's predecessor edge from v
                            // would have needed v processed: edges into processed nodes come from processed nodes
                            assert(order@.contains(v));
                            let qw = order@.index_of(w as u32);
                            assert(order@[k as int] == edges[e].0 && order@[qw] == edges[e].1);
                        }
                    }
                }
            }
            k = k + 1;
        }
        proof {
            assert(order@.take(n as int) =~= order@);
            let lv = levels@.map_values(|x: usize| x as int);
            assert forall|v: int| 0 <= v < levels@.len() implies #[trigger] levels@[v] < n by {
                assert(order@.contains(v as u32));
                let q = order@.index_of(v as u32);
                assert(levels@[order@[q] as int] <= q);
            }
            assert forall|e: int| 0 <= e < edges.len() implies lv[(#[trigger] edges[e]).0 as int] < lv[edges[e].1 as int] by {
                assert(order@.contains(edges[e].1));
            }
            assert forall|v: int| 0 <= v < n && #[trigger] lv[v] > 0 implies exists|e: int| 0 <= e < edges.len() && edges[e].1 == v
                && lv[edges[e].0 as int] == lv[v] - 1 by {
                assert(order@.contains(v as u32));
                let e = choose|e: int| 0 <= e < edges.len() && edges[e].1 == v && levels@[edges[e].0 as int] + 1 == levels@[v];
            }
        }
        levels
    }
}

/// Every level up to a node's level has a node.
proof fn lemma_levels_contiguous(levels: Seq<int>, n: nat, edges: Seq<(u32, u32)>, v: int, l: int)
    requires
        is_levels(levels, n, edges),
        forall|e: int| 0 <= e < edges.len() ==> (#[trigger] edges[e]).0 < n && edges[e].1 < n,
        0 <= v < n,
        0 <= l <= levels[v],
    ensures
        exists|u: int| 0 <= u < n && levels[u] == l,
    decreases levels[v] - l,
{
    if l < levels[v] {
        let e = choose|e: int| 0 <= e < edges.len() && edges[e].1 == v && levels[edges[e].0 as int] == levels[v] - 1;
        assert(edges[e].0 < n);
        lemma_levels_contiguous(levels, n, edges, edges[e].0 as int, l);
    }
}

/// A node of level `l` among the first `k` puts something in the wave.
proof fn lemma_wave_nonempty(levels: Seq<int>, nodes: Seq<DagNode>, l: int, k: int, u: int)
    requires
        0 <= u < k,
        levels[u] == l,
    ensures
        wave_of(levels, nodes, l, k).len() > 0,
    decreases k,
{
    if u < k - 1 {
        lemma_wave_nonempty(levels, nodes, l, k - 1, u);
    }
}

/// The build hashes among the nodes `srcs`, in order.
pub open spec fn build_hashes(srcs: Seq<u32>, nodes: Seq<DagNode>) -> Seq<ObjectHash>
    decreases srcs.len(),
{
    if srcs.len() == 0 {
        Seq::empty()
    } else {
        build_hashes(srcs.drop_last(), nodes) + match nodes[srcs.last() as int] {
            DagNode::Build(h) => seq![h],
            DagNode::Bind(_) => Seq::empty(),
        }
    }
}

/// The bind hashes among the nodes `srcs`, in order.
pub open spec fn bind_hashes(srcs: Seq<u32>, nodes: Seq<DagNode>) -> Seq<ObjectHash>
    decreases srcs.len(),
{
    if srcs.len() == 0 {
        Seq::empty()
    } else {
        bind_hashes(srcs.drop_last(), nodes) + match nodes[srcs.last() as int] {
            DagNode::Bind(h) => seq![h],
            DagNode::Build(_) => Seq::empty(),
        }
    }
}

/// The build hashes among the first `k` nodes with level `l`, in index order.
pub open spec fn build_wave_of(levels: Seq<int>, nodes: Seq<DagNode>, l: int, k: int) -> Seq<ObjectHash>
    decreases k,
{
    if k <= 0 {
        Seq::empty()
    } else if levels[k - 1] == l && nodes[k - 1] is Build {
        build_wave_of(levels, nodes, l, k - 1).push(nodes[k - 1]->Build_0)
    } else {
        build_wave_of(levels, nodes, l, k - 1)
    }
}

/// The non-empty build waves of the levels below `m`, in level order.
pub open spec fn build_waves_upto(levels: Seq<int>, nodes: Seq<DagNode>, m: int) -> Seq<Seq<ObjectHash>>
    decreases m,
{
    if m <= 0 {
        Seq::empty()
    } else {
        let w = build_wave_of(levels, nodes, m - 1, nodes.len() as int);
        build_waves_upto(levels, nodes, m - 1) + if w.len() > 0 {
            seq![w]
        } else {
            Seq::empty()
        }
    }
}

impl ExecutionDag {
    /// The execution waves: wave `w` holds, in index order, the nodes whose
    /// longest chain of dependencies has length `w` (see `is_levels`). So every
    /// node comes in a later wave than each of its dependencies, and in the
    /// wave right after its latest one. The DAG is acyclic, so this never fails.
    pub fn execution_waves(&self) -> (r: Result<Vec<Vec<DagNode>>, ExecuteError>)
        requires
            self.wf(),
        ensures
            r matches Ok(waves) && exists|lv: Seq<int>| {
                &&& is_levels(lv, self.node_list().len(), self.edge_list())
                &&& forall|v: int| 0 <= v < self.node_list().len() ==> #[trigger] lv[v] < waves@.len()
                &&& forall|w: int| 0 <= w < waves@.len() ==> (#[trigger] waves@[w])@ == wave_of(lv, self.node_list(), w, self.node_list().len() as int)
                    && waves@[w]@.len() > 0
            },
    {
        let levels = self.compute_levels();
        let ghost lv = levels@.map_values(|x: usize| x as int);
        let n = self.nodes.len();
        let mut max: usize = 0;
        let mut v: usize = 0;
        while v < n
            invariant
                v <= n,
                levels@.len() == n,
                forall|u: int| 0 <= u < v ==> #[trigger] levels@[u] <= max,
                v > 0 ==> exists|u: int| 0 <= u < v && levels@[u] == max,
                max < n || n == 0,
                forall|u: int| 0 <= u < levels@.len() ==> #[trigger] levels@[u] < n,
            decreases n - v,
        {
            if levels[v] > max || v == 0 {
                max = levels[v];
            }
            v = v + 1;
        }
        let mut waves: Vec<Vec<DagNode>> = Vec::new();
        if n == 0 {
            proof {
                assert(is_levels(lv, self.node_list().len(), self.edge_list()));
            }
            return Ok(waves);
        }
        let mut l: usize = 0;
        while l <= max
            invariant
                self.wf(),
                n == self.nodes@.len(),
                n > 0,
                max < n,
                levels@.len() == n,
                lv == levels@.map_values(|x: usize| x as int),
                is_levels(lv, n as nat, graph_edges(self.graph)),
                exists|u: int| 0 <= u < n && levels@[u] == max,
                l <= max + 1,
                waves@.len() == l,
                forall|w: int| 0 <= w < l ==> (#[trigger] waves@[w])@ == wave_of(lv, self.nodes@, w, n as int) && waves@[w]@.len() > 0,
            decreases max + 1 - l,
        {
            let mut wave: Vec<DagNode> = Vec::new();
            let mut u: usize = 0;
            while u < n
                invariant
                    n == self.nodes@.len(),
                    levels@.len() == n,
                    lv == levels@.map_values(|x: usize| x as int),
                    u <= n,
                    wave@ == wave_of(lv, self.nodes@, l as int, u as int),
                decreases n - u,
            {
                if levels[u] == l {
                    wave.push(self.nodes[u].duplicate());
                }
                u = u + 1;
            }
            proof {
                let um = choose|um: int| 0 <= um < n && levels@[um] == max;
                lemma_levels_contiguous(lv, n as nat, graph_edges(self.graph), um, l as int);
                let w0 = choose|w0: int| 0 <= w0 < n && lv[w0] == l;
                lemma_wave_nonempty(lv, self.nodes@, l as int, n as int, w0);
            }
            waves.push(wave);
            l = l + 1;
        }
        proof {
            assert forall|v: int| 0 <= v < self.node_list().len() implies #[trigger] lv[v] < waves@.len() by {
                assert(levels@[v] <= max);
            }
            assert(is_levels(lv, self.node_list().len(), self.edge_list()));
            assert(forall|w: int| 0 <= w < waves@.len() ==> (#[trigger] waves@[w])@ == wave_of(lv, self.node_list(), w, self.node_list().len() as int)
                && waves@[w]@.len() > 0);
        }
        Ok(waves)
    }
}

/// A node in a wave is a node of that level.
proof fn lemma_wave_of_member(levels: Seq<int>, nodes: Seq<DagNode>, l: int, k: int, x: DagNode)
    requires
        wave_of(levels, nodes, l, k).contains(x),
    ensures
        exists|v: int| 0 <= v < k && levels[v] == l && nodes[v] == x,
    decreases k,
{
    if k > 0 {
        let prev = wave_of(levels, nodes, l, k - 1);
        if levels[k - 1] == l {
            if prev.contains(x) {
                lemma_wave_of_member(levels, nodes, l, k - 1, x);
            } else {
                let pushed = prev.push(nodes[k - 1]);
                let i = choose|i: int| 0 <= i < pushed.len() && pushed[i] == x;
                if i < prev.len() {
                    assert(prev[i] == x);
                }
                assert(nodes[k - 1] == x);
            }
        } else {
            lemma_wave_of_member(levels, nodes, l, k - 1, x);
        }
    }
}

impl ExecutionDag {
    /// No node occurs twice.
    proof fn lemma_nodes_distinct(&self, i: int, j: int)
        requires
            self.wf(),
            0 <= i < self.node_list().len(),
            0 <= j < self.node_list().len(),
            self.node_list()[i] == self.node_list()[j],
        ensures
            i == j,
    {
        assert(match self.nodes@[i] {
            DagNode::Build(x) => self.build_nodes@[x.0@] == i,
            DagNode::Bind(x) => self.bind_nodes@[x.0@] == i,
        });
        assert(match self.nodes@[j] {
            DagNode::Build(x) => self.build_nodes@[x.0@] == j,
            DagNode::Bind(x) => self.bind_nodes@[x.0@] == j,
        });
    }
}

/// In the execution waves (wave `w` being `wave_of(lv, nodes, w, n)`), a
/// node's dependency sits in an earlier wave than the node; so the nodes of
/// one wave never depend on one another.
pub proof fn lemma_waves_order_dependencies(dag: ExecutionDag, lv: Seq<int>, e: int, w1: int, w2: int)
    requires
        dag.wf(),
        is_levels(lv, dag.node_list().len(), dag.edge_list()),
        0 <= e < dag.edge_list().len(),
        wave_of(lv, dag.node_list(), w1, dag.node_list().len() as int).contains(dag.node_list()[dag.edge_list()[e].0 as int]),
        wave_of(lv, dag.node_list(), w2, dag.node_list().len() as int).contains(dag.node_list()[dag.edge_list()[e].1 as int]),
    ensures
        w1 < w2,
{
    let n = dag.node_list().len() as int;
    let (a, b) = dag.edge_list()[e];
    assert(a < n && b < n);
    lemma_wave_of_member(lv, dag.node_list(), w1, n, dag.node_list()[a as int]);
    lemma_wave_of_member(lv, dag.node_list(), w2, n, dag.node_list()[b as int]);
    let va = choose|v: int| 0 <= v < n && lv[v] == w1 && dag.node_list()[v] == dag.node_list()[a as int];
    let vb = choose|v: int| 0 <= v < n && lv[v] == w2 && dag.node_list()[v] == dag.node_list()[b as int];
    dag.lemma_nodes_distinct(va, a as int);
    dag.lemma_nodes_distinct(vb, b as int);
    assert(lv[dag.edge_list()[e].0 as int] < lv[dag.edge_list()[e].1 as int]);
}

/// The first of `hs` in `failed`, if any.
pub open spec fn first_in(hs: Seq<ObjectHash>, failed: Set<Seq<char>>) -> Option<ObjectHash>
    decreases hs.len(),
{
    if hs.len() == 0 {
        None
    } else if failed.contains(hs[0].0@) {
        Some(hs[0])
    } else {
        first_in(hs.drop_first(), failed)
    }
}

/// The first hash of a list that is in a set.
fn find_first_in(hs: &Vec<ObjectHash>, failed: &StrMap<()>) -> (r: Option<ObjectHash>)
    requires
        failed.wf(),
    ensures
        r == first_in(hs@, failed@.dom()),
{
    let mut i: usize = 0;
    proof {
        assert(hs@.skip(0) =~= hs@);
    }
    while i < hs.len()
        invariant
            failed.wf(),
            i <= hs@.len(),
            first_in(hs@, failed@.dom()) == first_in(hs@.skip(i as int), failed@.dom()),
        decreases hs@.len() - i,
    {
        proof {
            assert(hs@.skip(i as int).drop_first() =~= hs@.skip(i + 1));
            assert(hs@.skip(i as int)[0] == hs@[i as int]);
        }
        if failed.contains_key(hs[i].0.as_str()) {
            return Some(ObjectHash(hs[i].0.clone()));
        }
        i = i + 1;
    }
    proof {
        assert(hs@.skip(i as int) =~= Seq::<ObjectHash>::empty());
    }
    None
}

impl ExecutionDag {
    /// The index of a build node, if the DAG has that build.
    pub open spec fn build_index(&self, h: Seq<char>) -> Option<int> {
        if exists|i: int| 0 <= i < self.node_list().len() && (#[trigger] self.node_list()[i] matches DagNode::Build(x) && x.0@ == h) {
            Some(choose|i: int| 0 <= i < self.node_list().len() && (#[trigger] self.node_list()[i] matches DagNode::Build(x) && x.0@ == h))
        } else {
            None
        }
    }

    /// The index of a bind node, if the DAG has that bind.
    pub open spec fn bind_index(&self, h: Seq<char>) -> Option<int> {
        if exists|i: int| 0 <= i < self.node_list().len() && (#[trigger] self.node_list()[i] matches DagNode::Bind(x) && x.0@ == h) {
            Some(choose|i: int| 0 <= i < self.node_list().len() && (#[trigger] self.node_list()[i] matches DagNode::Bind(x) && x.0@ == h))
        } else {
            None
        }
    }

    /// The direct dependencies of the node at an index, in the graph's order
    /// (the most recently added edge first).
    pub open spec fn incoming(&self, i: int) -> Seq<u32> {
        in_sources(self.edge_list(), i as u32).reverse()
    }

    /// The index map of builds agrees with `build_index`.
    proof fn lemma_build_index(&self, h: Seq<char>)
        requires
            self.wf(),
        ensures
            match self.build_index(h) {
                Some(i) => self.build_nodes@.dom().contains(h) && self.build_nodes@[h] == i,
                None => !self.build_nodes@.dom().contains(h),
            },
    {
        if self.build_nodes@.dom().contains(h) {
            let k = self.build_nodes@[h] as int;
            assert(self.node_list()[k] matches DagNode::Build(x) && x.0@ == h);
            let i = choose|i: int| 0 <= i < self.node_list().len() && (#[trigger] self.node_list()[i] matches DagNode::Build(x) && x.0@ == h);
            assert(self.nodes@[i] matches DagNode::Build(x) && self.build_nodes@[x.0@] == i);
        } else {
            if exists|i: int| 0 <= i < self.node_list().len() && (#[trigger] self.node_list()[i] matches DagNode::Build(x) && x.0@ == h) {
                let i = choose|i: int| 0 <= i < self.node_list().len() && (#[trigger] self.node_list()[i] matches DagNode::Build(x) && x.0@ == h);
                assert(self.nodes@[i] matches DagNode::Build(x) && self.build_nodes@.dom().contains(x.0@));
            }
        }
    }

    /// The index map of binds agrees with `bind_index`.
    proof fn lemma_bind_index(&self, h: Seq<char>)
        requires
            self.wf(),
        ensures
            match self.bind_index(h) {
                Some(i) => self.bind_nodes@.dom().contains(h) && self.bind_nodes@[h] == i,
                None => !self.bind_nodes@.dom().contains(h),
            },
    {
        if self.bind_nodes@.dom().contains(h) {
            let k = self.bind_nodes@[h] as int;
            assert(self.node_list()[k] matches DagNode::Bind(x) && x.0@ == h);
            let i = choose|i: int| 0 <= i < self.node_list().len() && (#[trigger] self.node_list()[i] matches DagNode::Bind(x) && x.0@ == h);
            assert(self.nodes@[i] matches DagNode::Bind(x) && self.bind_nodes@[x.0@] == i);
        } else {
            if exists|i: int| 0 <= i < self.node_list().len() && (#[trigger] self.node_list()[i] matches DagNode::Bind(x) && x.0@ == h) {
                let i = choose|i: int| 0 <= i < self.node_list().len() && (#[trigger] self.node_list()[i] matches DagNode::Bind(x) && x.0@ == h);
                assert(self.nodes@[i] matches DagNode::Bind(x) && self.bind_nodes@.dom().contains(x.0@));
            }
        }
    }

    /// The builds (or binds) among the direct dependencies of the node at an index.
    fn incoming_of_kind(&self, idx: u32, builds: bool) -> (r: Vec<ObjectHash>)
        requires
            self.wf(),
            idx < self.node_list().len(),
        ensures
            r@ == (if builds {
                build_hashes(self.incoming(idx as int), self.node_list())
            } else {
                bind_hashes(self.incoming(idx as int), self.node_list())
            }),
    {
        let preds = graph_neighbors(&self.graph, idx, true);
        let ghost ps = preds@;
        let mut r: Vec<ObjectHash> = Vec::new();
        let mut t: usize = 0;
        proof {
            lemma_in_sources(graph_edges(self.graph), idx);
            assert(ps.take(0) =~= Seq::<u32>::empty());
        }
        while t < preds.len()
            invariant
                self.wf(),
                ps == preds@,
                ps == self.incoming(idx as int),
                forall|a: u32| #[trigger] in_sources(graph_edges(self.graph), idx).contains(a) <==> is_edge(graph_edges(self.graph), a, idx),
                t <= ps.len(),
                r@ == (if builds {
                    build_hashes(ps.take(t as int), self.node_list())
                } else {
                    bind_hashes(ps.take(t as int), self.node_list())
                }),
            decreases ps.len() - t,
        {
            let p = preds[t];
            proof {
                assert(ps.take(t + 1).drop_last() =~= ps.take(t as int));
                assert(ps.take(t + 1).last() == p);
                let src = in_sources(graph_edges(self.graph), idx);
                assert(src.contains(p)) by {
                    assert(src[src.len() - 1 - t] == p);
                }
                let e = choose|e: int| 0 <= e < graph_edges(self.graph).len() && graph_edges(self.graph)[e] == (p, idx);
                assert(graph_edges(self.graph)[e].0 < self.nodes@.len());
            }
            match &self.nodes[p as usize] {
                DagNode::Build(h) => {
                    if builds {
                        r.push(ObjectHash(h.0.clone()));
                    }
                },
                DagNode::Bind(h) => {
                    if !builds {
                        r.push(ObjectHash(h.0.clone()));
                    }
                },
            }
            proof {
                assert(r@ =~= (if builds {
                    build_hashes(ps.take(t + 1), self.node_list())
                } else {
                    bind_hashes(ps.take(t + 1), self.node_list())
                }));
            }
            t = t + 1;
        }
        proof {
            assert(ps.take(ps.len() as int) =~= ps);
        }
        r
    }

    /// The builds a build depends on directly (empty for an unknown build).
    pub fn build_dependencies(&self, hash: &ObjectHash) -> (r: Vec<ObjectHash>)
        requires
            self.wf(),
        ensures
            r@ == match self.build_index(hash.0@) {
                Some(i) => build_hashes(self.incoming(i), self.node_list()),
                None => Seq::empty(),
            },
    {
        proof {
            self.lemma_build_index(hash.0@);
        }
        match self.build_nodes.get(hash.0.as_str()) {
            Some(idx) => self.incoming_of_kind(*idx, true),
            None => Vec::new(),
        }
    }

    /// The binds a build depends on directly (none in a DAG built from a
    /// manifest, since builds cannot depend on binds).
    pub fn bind_dependencies(&self, hash: &ObjectHash) -> (r: Vec<ObjectHash>)
        requires
            self.wf(),
        ensures
            r@ == match self.build_index(hash.0@) {
                Some(i) => bind_hashes(self.incoming(i), self.node_list()),
                None => Seq::empty(),
            },
    {
        proof {
            self.lemma_build_index(hash.0@);
        }
        match self.build_nodes.get(hash.0.as_str()) {
            Some(idx) => self.incoming_of_kind(*idx, false),
            None => Vec::new(),
        }
    }

    /// Whether a build has any direct dependency.
    pub fn has_dependencies(&self, hash: &ObjectHash) -> (b: bool)
        requires
            self.wf(),
        ensures
            b == match self.build_index(hash.0@) {
                Some(i) => self.incoming(i).len() > 0,
                None => false,
            },
    {
        proof {
            self.lemma_build_index(hash.0@);
        }
        match self.build_nodes.get(hash.0.as_str()) {
            Some(idx) => graph_neighbors(&self.graph, *idx, true).len() > 0,
            None => false,
        }
    }

    /// The builds a bind depends on directly (empty for an unknown bind).
    pub fn bind_build_dependencies(&self, hash: &ObjectHash) -> (r: Vec<ObjectHash>)
        requires
            self.wf(),
        ensures
            r@ == match self.bind_index(hash.0@) {
                Some(i) => build_hashes(self.incoming(i), self.node_list()),
                None => Seq::empty(),
            },
    {
        proof {
            self.lemma_bind_index(hash.0@);
        }
        match self.bind_nodes.get(hash.0.as_str()) {
            Some(idx) => self.incoming_of_kind(*idx, true),
            None => Vec::new(),
        }
    }

    /// The binds a bind depends on directly (empty for an unknown bind).
    pub fn bind_bind_dependencies(&self, hash: &ObjectHash) -> (r: Vec<ObjectHash>)
        requires
            self.wf(),
        ensures
            r@ == match self.bind_index(hash.0@) {
                Some(i) => bind_hashes(self.incoming(i), self.node_list()),
                None => Seq::empty(),
            },
    {
        proof {
            self.lemma_bind_index(hash.0@);
        }
        match self.bind_nodes.get(hash.0.as_str()) {
            Some(idx) => self.incoming_of_kind(*idx, false),
            None => Vec::new(),
        }
    }

    /// The manifest's entry (the inputs) of a bind, when the DAG holds that bind.
    pub fn get_bind<'a>(&self, hash: &ObjectHash, manifest: &'a DagManifest) -> (r: Option<&'a Option<InputsRef>>)
        requires
            self.wf(),
            manifest.wf(),
        ensures
            r == (if self.bind_index(hash.0@) is Some && manifest.bindings@.dom().contains(hash.0@) {
                Some(&manifest.bindings@[hash.0@])
            } else {
                None
            }),
    {
        proof {
            self.lemma_bind_index(hash.0@);
        }
        if self.bind_nodes.contains_key(hash.0.as_str()) {
            manifest.bindings.get(hash.0.as_str())
        } else {
            None
        }
    }

    /// The builds of the DAG, in node order.
    pub fn all_builds(&self) -> (r: Vec<ObjectHash>)
        requires
            self.wf(),
        ensures
            r@ == build_hashes(Seq::new(self.node_list().len(), |i: int| i as u32), self.node_list()),
    {
        self.nodes_of_kind(true)
    }

    /// The binds of the DAG, in node order.
    pub fn all_binds(&self) -> (r: Vec<ObjectHash>)
        requires
            self.wf(),
        ensures
            r@ == bind_hashes(Seq::new(self.node_list().len(), |i: int| i as u32), self.node_list()),
    {
        self.nodes_of_kind(false)
    }

    /// The number of builds.
    pub fn build_count(&self) -> (n: usize)
        requires
            self.wf(),
        ensures
            n == build_hashes(Seq::new(self.node_list().len(), |i: int| i as u32), self.node_list()).len(),
    {
        self.nodes_of_kind(true).len()
    }

    /// The number of binds.
    pub fn bind_count(&self) -> (n: usize)
        requires
            self.wf(),
        ensures
            n == bind_hashes(Seq::new(self.node_list().len(), |i: int| i as u32), self.node_list()).len(),
    {
        self.nodes_of_kind(false).len()
    }

    /// The builds (or binds) of the DAG, in node order.
    fn nodes_of_kind(&self, builds: bool) -> (r: Vec<ObjectHash>)
        requires
            self.wf(),
        ensures
            r@ == (if builds {
                build_hashes(Seq::new(self.node_list().len(), |i: int| i as u32), self.node_list())
            } else {
                bind_hashes(Seq::new(self.node_list().len(), |i: int| i as u32), self.node_list())
            }),
    {
        let n = self.nodes.len();
        let ghost all = Seq::new(n as nat, |i: int| i as u32);
        let mut r: Vec<ObjectHash> = Vec::new();
        let mut i: usize = 0;
        proof {
            assert(all.take(0) =~= Seq::<u32>::empty());
        }
        while i < n
            invariant
                self.wf(),
                n == self.nodes@.len(),
                all == Seq::new(n as nat, |i: int| i as u32),
                i <= n,
                r@ == (if builds {
                    build_hashes(all.take(i as int), self.node_list())
                } else {
                    bind_hashes(all.take(i as int), self.node_list())
                }),
            decreases n - i,
        {
            proof {
                assert(all.take(i + 1).drop_last() =~= all.take(i as int));
                assert(all.take(i + 1).last() == i as u32);
            }
            match &self.nodes[i] {
                DagNode::Build(h) => {
                    if builds {
                        r.push(ObjectHash(h.0.clone()));
                    }
                },
                DagNode::Bind(h) => {
                    if !builds {
                        r.push(ObjectHash(h.0.clone()));
                    }
                },
            }
            proof {
                assert(r@ =~= (if builds {
                    build_hashes(all.take(i + 1), self.node_list())
                } else {
                    bind_hashes(all.take(i + 1), self.node_list())
                }));
            }
            i = i + 1;
        }
        proof {
            assert(all.take(n as int) =~= all);
        }
        r
    }

    /// The builds in the topological order petgraph gives (each after the
    /// builds it depends on).
    pub fn topological_builds(&self) -> (r: Result<Vec<ObjectHash>, ExecuteError>)
        requires
            self.wf(),
        ensures
            r matches Ok(v) && is_topological_order(toposort_of(self.node_list().len(), self.edge_list()), self.node_list().len(), self.edge_list())
                && v@ == build_hashes(toposort_of(self.node_list().len(), self.edge_list()), self.node_list()),
    {
        proof {
            let o = choose|o: Seq<u32>| is_topological_order(o, self.nodes@.len(), graph_edges(self.graph));
            lemma_topo_no_cycle(o, self.nodes@.len(), graph_edges(self.graph));
        }
        let order = match graph_toposort(&self.graph) {
            Ok(o) => o,
            Err(_) => {
                proof {
                    assert(false);
                }
                return Err(ExecuteError::CycleDetected);
            },
        };
        let mut r: Vec<ObjectHash> = Vec::new();
        let mut i: usize = 0;
        proof {
            assert(order@.take(0) =~= Seq::<u32>::empty());
        }
        while i < order.len()
            invariant
                self.wf(),
                is_topological_order(order@, self.nodes@.len(), graph_edges(self.graph)),
                i <= order@.len(),
                r@ == build_hashes(order@.take(i as int), self.node_list()),
            decreases order@.len() - i,
        {
            let v = order[i];
            proof {
                assert(order@.take(i + 1).drop_last() =~= order@.take(i as int));
                assert(order@.take(i + 1).last() == v);
            }
            if let DagNode::Build(h) = &self.nodes[v as usize] {
                r.push(ObjectHash(h.0.clone()));
            }
            proof {
                assert(r@ =~= build_hashes(order@.take(i + 1), self.node_list()));
            }
            i = i + 1;
        }
        proof {
            assert(order@.take(order@.len() as int) =~= order@);
        }
        Ok(r)
    }

    /// The build waves: wave by wave (see `execution_waves`), the builds in
    /// node order; waves holding only binds are left out.
    pub fn build_waves(&self) -> (r: Result<Vec<Vec<ObjectHash>>, ExecuteError>)
        requires
            self.wf(),
        ensures
            r matches Ok(waves) && exists|lv: Seq<int>| {
                &&& is_levels(lv, self.node_list().len(), self.edge_list())
                &&& waves@.map_values(|w: Vec<ObjectHash>| w@) == build_waves_upto(lv, self.node_list(), self.node_list().len() as int)
            },
    {
        let levels = self.compute_levels();
        let ghost lv = levels@.map_values(|x: usize| x as int);
        let n = self.nodes.len();
        let mut waves: Vec<Vec<ObjectHash>> = Vec::new();
        let mut l: usize = 0;
        while l < n
            invariant
                self.wf(),
                n == self.nodes@.len(),
                levels@.len() == n,
                lv == levels@.map_values(|x: usize| x as int),
                l <= n,
                waves@.map_values(|w: Vec<ObjectHash>| w@) == build_waves_upto(lv, self.node_list(), l as int),
            decreases n - l,
        {
            let mut wave: Vec<ObjectHash> = Vec::new();
            let mut u: usize = 0;
            while u < n
                invariant
                    n == self.nodes@.len(),
                    levels@.len() == n,
                    lv == levels@.map_values(|x: usize| x as int),
                    u <= n,
                    wave@ == build_wave_of(lv, self.nodes@, l as int, u as int),
                decreases n - u,
            {
                if levels[u] == l {
                    if let DagNode::Build(h) = &self.nodes[u] {
                        wave.push(ObjectHash(h.0.clone()));
                    }
                }
                u = u + 1;
            }
            let ghost before = waves@.map_values(|w: Vec<ObjectHash>| w@);
            if wave.len() > 0 {
                waves.push(wave);
                proof {
                    assert(waves@.map_values(|w: Vec<ObjectHash>| w@) =~= before.push(build_wave_of(lv, self.nodes@, l as int, n as int)));
                }
            }
            proof {
                assert(waves@.map_values(|w: Vec<ObjectHash>| w@) =~= build_waves_upto(lv, self.node_list(), l + 1));
            }
            l = l + 1;
        }
        proof {
            assert(is_levels(lv, self.node_list().len(), self.edge_list()));
        }
        Ok(waves)
    }
}

/// The dependency whose failure makes a node skipped: for a build, the first
/// of its build dependencies that failed (or was skipped); for a bind, the
/// first such build dependency, else the first such bind dependency.
pub open spec fn spec_failed_dependency(dag: ExecutionDag, node: DagNode, failed_builds: Set<Seq<char>>, failed_binds: Set<Seq<char>>) -> Option<super::types::FailedDependency> {
    match node {
        DagNode::Build(h) => {
            let deps = match dag.build_index(h.0@) {
                Some(i) => build_hashes(dag.incoming(i), dag.node_list()),
                None => Seq::empty(),
            };
            match first_in(deps, failed_builds) {
                Some(d) => Some(super::types::FailedDependency::Build(d)),
                None => None,
            }
        },
        DagNode::Bind(h) => {
            let (bd, dd) = match dag.bind_index(h.0@) {
                Some(i) => (build_hashes(dag.incoming(i), dag.node_list()), bind_hashes(dag.incoming(i), dag.node_list())),
                None => (Seq::empty(), Seq::empty()),
            };
            match first_in(bd, failed_builds) {
                Some(d) => Some(super::types::FailedDependency::Build(d)),
                None => match first_in(dd, failed_binds) {
                    Some(d) => Some(super::types::FailedDependency::Bind(d)),
                    None => None,
                },
            }
        },
    }
}

/// Finds the failed dependency that makes a node skipped (see `spec_failed_dependency`).
pub fn find_failed_dependency(node: &DagNode, dag: &ExecutionDag, failed_builds: &StrMap<()>, failed_binds: &StrMap<()>) -> (r: Option<super::types::FailedDependency>)
    requires
        dag.wf(),
        failed_builds.wf(),
        failed_binds.wf(),
    ensures
        r == spec_failed_dependency(*dag, *node, failed_builds@.dom(), failed_binds@.dom()),
{
    match node {
        DagNode::Build(h) => {
            let deps = dag.build_dependencies(h);
            match find_first_in(&deps, failed_builds) {
                Some(d) => Some(super::types::FailedDependency::Build(d)),
                None => None,
            }
        },
        DagNode::Bind(h) => {
            let bd = dag.bind_build_dependencies(h);
            match find_first_in(&bd, failed_builds) {
                Some(d) => Some(super::types::FailedDependency::Build(d)),
                None => {
                    let dd = dag.bind_bind_dependencies(h);
                    match find_first_in(&dd, failed_binds) {
                        Some(d) => Some(super::types::FailedDependency::Bind(d)),
                        None => None,
                    }
                },
            }
        },
    }
}

} // verus!
