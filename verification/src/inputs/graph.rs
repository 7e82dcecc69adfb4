//! The dependency graph of inputs.
//!
//! It holds the root inputs of a config and the transitive dependencies found
//! while fetching them, resolves `follows` declarations (chains of at most
//! [`MAX_FOLLOWS_DEPTH`] hops), orders nodes so that dependencies come before
//! dependents, and finds cycles.
use vstd::prelude::*;
use crate::strmap::{StrMap, StrSet, add_to_set_map};
use crate::text::{child_path, join_child_path, last_index_of, find_last_char, char_substring, char_len};
use super::types::{InputDecl, InputOverride, MAX_FOLLOWS_DEPTH};

verus! {

/// A node of the dependency graph.
#[derive(Debug)]
pub struct GraphNode {
    /// The input name, as declared in the parent's inputs table.
    pub name: String,
    /// The input declaration.
    pub decl: InputDecl,
    /// Path of the parent node; empty for root-level inputs.
    pub parent_path: String,
    /// Full path of this node, such as `pkgs` or `pkgs/utils`.
    pub full_path: String,
    /// Declared dependencies of this input, once extracted.
    pub declared_inputs: Option<StrMap<InputDecl>>,
    /// Whether this node's dependencies have been extracted.
    pub deps_extracted: bool,
}

impl GraphNode {
    /// A new root-level node.
    pub fn root_input(name: String, decl: InputDecl) -> (n: Self)
        ensures
            n.name == name,
            n.decl == decl,
            n.parent_path@ == Seq::<char>::empty(),
            n.full_path@ == name@,
            n.declared_inputs is None,
            !n.deps_extracted,
    {
        let full_path = name.clone();
        GraphNode {
            name,
            decl,
            parent_path: String::new(),
            full_path,
            declared_inputs: None,
            deps_extracted: false,
        }
    }

    /// A new transitive dependency node under `parent_path`.
    pub fn transitive(name: String, decl: InputDecl, parent_path: &str) -> (n: Self)
        ensures
            n.name == name,
            n.decl == decl,
            n.parent_path@ == parent_path@,
            n.full_path@ == child_path(parent_path@, name@),
            n.declared_inputs is None,
            !n.deps_extracted,
    {
        let full_path = join_child_path(parent_path, name.as_str());
        GraphNode {
            name,
            decl,
            parent_path: parent_path.to_owned(),
            full_path,
            declared_inputs: None,
            deps_extracted: false,
        }
    }

    /// Whether this is a root-level input (declared directly in the config).
    pub fn is_root_level(&self) -> (b: bool)
        ensures
            b <==> self.parent_path@.len() == 0,
    {
        self.parent_path.as_str().is_empty()
    }
}

/// Errors of graph operations.
#[derive(Debug)]
pub enum GraphError {
    /// A follows target does not exist.
    FollowsTargetNotFound { from: String, target: String },
    /// A follows chain comes back to a path it already visited.
    CircularFollows { chain: String },
    /// A follows chain is longer than the maximum number of hops.
    FollowsChainTooDeep { max: usize, chain: String },
    /// A follows path is malformed.
    InvalidFollowsPath { path: String, reason: String },
}

/// Why following a chain of `follows` failed.
#[derive(Debug, Clone, Copy, PartialEq, Eq)]
pub enum ChainFailure {
    Circular,
    TooDeep,
    InvalidPath,
}

impl GraphError {
    /// The kind of chain failure an error reports (`None` for a missing target).
    pub open spec fn chain_failure(&self) -> Option<ChainFailure> {
        match self {
            GraphError::CircularFollows { .. } => Some(ChainFailure::Circular),
            GraphError::FollowsChainTooDeep { .. } => Some(ChainFailure::TooDeep),
            GraphError::InvalidFollowsPath { .. } => Some(ChainFailure::InvalidPath),
            GraphError::FollowsTargetNotFound { .. } => None,
        }
    }
}

/// The dependency graph.
#[derive(Debug)]
pub struct DependencyGraph {
    /// All nodes, keyed by full path.
    pub nodes: StrMap<GraphNode>,
    /// Edges: from path to the paths of its dependencies.
    pub edges: StrMap<StrSet>,
    /// Reverse edges: from path to the paths that depend on it.
    pub reverse_edges: StrMap<StrSet>,
    /// Resolved follows: source path to final target path.
    pub follows_resolved: StrMap<String>,
}

/// The view of a map of strings.
pub open spec fn strings_view(m: Map<Seq<char>, String>) -> Map<Seq<char>, Seq<char>> {
    m.map_values(|s: String| s@)
}

/// The target that a pending `follows` override gives for `path`:
/// `path` is `parent/dep`, and the node at `parent` overrides `dep` with `follows`.
pub open spec fn pending_follows(nodes: Map<Seq<char>, GraphNode>, path: Seq<char>) -> Option<Seq<char>> {
    let i = last_index_of(path, '/');
    if i < 0 {
        None
    } else {
        let parent = path.subrange(0, i);
        let dep = path.subrange(i + 1, path.len() as int);
        if nodes.dom().contains(parent) {
            match nodes[parent].decl.spec_overrides() {
                Some(ov) => if ov@.dom().contains(dep) {
                    ov@[dep].spec_follows()
                } else {
                    None
                },
                None => None,
            }
        } else {
            None
        }
    }
}

/// One hop of a follows chain: an already resolved target, else a pending override.
pub open spec fn follows_step(
    nodes: Map<Seq<char>, GraphNode>,
    resolved: Map<Seq<char>, Seq<char>>,
    path: Seq<char>,
) -> Option<Seq<char>> {
    if resolved.dom().contains(path) {
        Some(resolved[path])
    } else {
        pending_follows(nodes, path)
    }
}

/// Follows a chain from `cur`, with `fuel` hops left, never revisiting a path.
pub open spec fn follows_chain(
    nodes: Map<Seq<char>, GraphNode>,
    resolved: Map<Seq<char>, Seq<char>>,
    cur: Seq<char>,
    visited: Set<Seq<char>>,
    fuel: nat,
) -> Result<Seq<char>, ChainFailure>
    decreases fuel,
{
    if fuel == 0 {
        Err(ChainFailure::TooDeep)
    } else if visited.contains(cur) {
        Err(ChainFailure::Circular)
    } else if cur.len() == 0 {
        Err(ChainFailure::InvalidPath)
    } else {
        match follows_step(nodes, resolved, cur) {
            Some(next) => follows_chain(nodes, resolved, next, visited.insert(cur), (fuel - 1) as nat),
            None => Ok(cur),
        }
    }
}

/// The follows declarations of one node: (source path, declared target), in key order.
pub open spec fn node_follows_decls(n: GraphNode) -> Seq<(Seq<char>, Seq<char>)> {
    match n.decl.spec_overrides() {
        None => Seq::empty(),
        Some(ov) => ov.pairs().filter(|p: (Seq<char>, InputOverride)| p.1 is Follows).map_values(
            |p: (Seq<char>, InputOverride)| (child_path(n.full_path@, p.0), p.1->Follows_0@),
        ),
    }
}

/// All follows declarations of the nodes, in node order.
pub open spec fn all_follows_decls(ns: Seq<(Seq<char>, GraphNode)>) -> Seq<(Seq<char>, Seq<char>)>
    decreases ns.len(),
{
    if ns.len() == 0 {
        Seq::empty()
    } else {
        all_follows_decls(ns.drop_last()) + node_follows_decls(ns.last().1)
    }
}

/// Resolves the declarations in order, each chain seeing the targets resolved before it.
pub open spec fn resolve_all(
    nodes: Map<Seq<char>, GraphNode>,
    resolved: Map<Seq<char>, Seq<char>>,
    decls: Seq<(Seq<char>, Seq<char>)>,
) -> Result<Map<Seq<char>, Seq<char>>, ChainFailure>
    decreases decls.len(),
{
    if decls.len() == 0 {
        Ok(resolved)
    } else {
        match resolve_all(nodes, resolved, decls.drop_last()) {
            Err(e) => Err(e),
            Ok(r) => match follows_chain(nodes, r, decls.last().1, Set::empty(), MAX_FOLLOWS_DEPTH as nat) {
                Err(e) => Err(e),
                Ok(t) => Ok(r.insert(decls.last().0, t)),
            },
        }
    }
}

/// Adding the edge `parent -> child` and its reverse edge to mirrored maps
/// leaves them mirrored.
proof fn lemma_link_keeps_mirror(before: DependencyGraph, after: DependencyGraph, parent: Seq<char>, child: Seq<char>)
    requires
        before.edges_mirrored(),
        forall|u: Seq<char>, v: Seq<char>| #[trigger] after.has_edge(u, v) <==> (before.has_edge(u, v) || (u == parent
            && v == child)),
        after.reverse_edges@.dom() == before.reverse_edges@.dom().insert(child),
        after.reverse_edges@[child]@.dom() == (if before.reverse_edges@.dom().contains(child) {
            before.reverse_edges@[child]@.dom()
        } else {
            Set::empty()
        }).insert(parent),
        forall|k: Seq<char>| #[trigger] before.reverse_edges@.dom().contains(k) && k != child
            ==> after.reverse_edges@[k] == before.reverse_edges@[k],
    ensures
        after.edges_mirrored(),
{
    assert forall|u: Seq<char>, v: Seq<char>| #[trigger] after.has_edge(u, v) <==> #[trigger] after.has_reverse_edge(v, u) by {
        assert(before.has_edge(u, v) <==> before.has_reverse_edge(v, u));
        if v != child && before.reverse_edges@.dom().contains(v) {
            assert(after.reverse_edges@[v] == before.reverse_edges@[v]);
        }
    }
}

impl DependencyGraph {
    /// All maps are well formed.
    pub open spec fn wf(&self) -> bool {
        &&& self.nodes.wf()
        &&& self.edges.wf()
        &&& self.reverse_edges.wf()
        &&& self.follows_resolved.wf()
        &&& forall|k: Seq<char>| #[trigger] self.edges@.dom().contains(k) ==> self.edges@[k].wf()
        &&& forall|k: Seq<char>| #[trigger] self.reverse_edges@.dom().contains(k) ==> self.reverse_edges@[k].wf()
        &&& forall|k: Seq<char>| #[trigger] self.nodes@.dom().contains(k) ==> self.nodes@[k].decl.wf()
    }

    /// There is an edge from `u` to `v`.
    pub open spec fn has_edge(&self, u: Seq<char>, v: Seq<char>) -> bool {
        self.edges@.dom().contains(u) && self.edges@[u]@.dom().contains(v)
    }

    /// There is a reverse edge from `v` back to `u` (`u` depends on `v`).
    pub open spec fn has_reverse_edge(&self, v: Seq<char>, u: Seq<char>) -> bool {
        self.reverse_edges@.dom().contains(v) && self.reverse_edges@[v]@.dom().contains(u)
    }

    /// Every edge has its reverse edge and every reverse edge its edge.
    pub open spec fn edges_mirrored(&self) -> bool {
        forall|u: Seq<char>, v: Seq<char>| #[trigger] self.has_edge(u, v) <==> #[trigger] self.has_reverse_edge(v, u)
    }

    /// A new empty graph.
    pub fn new() -> (g: Self)
        ensures
            g.wf(),
            g.edges_mirrored(),
            g.nodes@ == Map::<Seq<char>, GraphNode>::empty(),
            g.edges@ == Map::<Seq<char>, StrSet>::empty(),
            g.reverse_edges@ == Map::<Seq<char>, StrSet>::empty(),
            g.follows_resolved@ == Map::<Seq<char>, String>::empty(),
    {
        DependencyGraph {
            nodes: StrMap::new(),
            edges: StrMap::new(),
            reverse_edges: StrMap::new(),
            follows_resolved: StrMap::new(),
        }
    }

    /// Adds a root-level input.
    pub fn add_root_input(&mut self, name: &str, decl: InputDecl)
        requires
            old(self).wf(),
            decl.wf(),
        ensures
            final(self).wf(),
            final(self).nodes@.dom() == old(self).nodes@.dom().insert(name@),
            forall|k: Seq<char>| #[trigger] old(self).nodes@.dom().contains(k) && k != name@ ==> final(self).nodes@[k]
                == old(self).nodes@[k],
            final(self).nodes@[name@].name@ == name@,
            final(self).nodes@[name@].decl == decl,
            final(self).nodes@[name@].parent_path@ == Seq::<char>::empty(),
            final(self).nodes@[name@].full_path@ == name@,
            final(self).nodes@[name@].declared_inputs is None,
            !final(self).nodes@[name@].deps_extracted,
            final(self).edges == old(self).edges,
            final(self).reverse_edges == old(self).reverse_edges,
            final(self).follows_resolved == old(self).follows_resolved,
            old(self).edges_mirrored() ==> final(self).edges_mirrored(),
    {
        let node = GraphNode::root_input(name.to_owned(), decl);
        let key = node.full_path.clone();
        self.nodes.insert(key, node);
        proof {
            if old(self).edges_mirrored() {
                assert forall|u: Seq<char>, v: Seq<char>| #[trigger] self.has_edge(u, v) <==> #[trigger] self.has_reverse_edge(v, u) by {
                    assert(old(self).has_edge(u, v) <==> old(self).has_reverse_edge(v, u));
                }
            }
        }
    }

    /// Adds a transitive dependency under `parent_path`, with edges both ways; returns its full path.
    pub fn add_transitive(&mut self, name: &str, decl: InputDecl, parent_path: &str) -> (full: String)
        requires
            old(self).wf(),
            decl.wf(),
        ensures
            final(self).wf(),
            full@ == child_path(parent_path@, name@),
            final(self).nodes@.dom() == old(self).nodes@.dom().insert(full@),
            forall|k: Seq<char>| #[trigger] old(self).nodes@.dom().contains(k) && k != full@ ==> final(self).nodes@[k]
                == old(self).nodes@[k],
            final(self).nodes@[full@].name@ == name@,
            final(self).nodes@[full@].decl == decl,
            final(self).nodes@[full@].parent_path@ == parent_path@,
            final(self).nodes@[full@].full_path@ == full@,
            final(self).nodes@[full@].declared_inputs is None,
            !final(self).nodes@[full@].deps_extracted,
            final(self).edges@.dom() == old(self).edges@.dom().insert(parent_path@),
            forall|u: Seq<char>, v: Seq<char>| #[trigger] final(self).has_edge(u, v) <==> (old(self).has_edge(u, v) || (u
                == parent_path@ && v == full@)),
            final(self).reverse_edges@.dom() == old(self).reverse_edges@.dom().insert(full@),
            final(self).reverse_edges@[full@]@.dom() == (if old(self).reverse_edges@.dom().contains(full@) {
                old(self).reverse_edges@[full@]@.dom()
            } else {
                Set::empty()
            }).insert(parent_path@),
            forall|k: Seq<char>| #[trigger] old(self).reverse_edges@.dom().contains(k) && k != full@
                ==> final(self).reverse_edges@[k] == old(self).reverse_edges@[k],
            final(self).follows_resolved == old(self).follows_resolved,
            old(self).edges_mirrored() ==> final(self).edges_mirrored(),
    {
        let node = GraphNode::transitive(name.to_owned(), decl, parent_path);
        let full_path = node.full_path.clone();
        add_to_set_map(&mut self.edges, parent_path, full_path.clone());
        add_to_set_map(&mut self.reverse_edges, full_path.as_str(), parent_path.to_owned());
        self.nodes.insert(full_path.clone(), node);
        proof {
            assert(forall|u: Seq<char>, v: Seq<char>| #[trigger] self.has_edge(u, v) <==> (old(self).has_edge(u, v) || (u
                == parent_path@ && v == full_path@)));
            assert(forall|k: Seq<char>| #[trigger] old(self).reverse_edges@.dom().contains(k) && k != full_path@
                ==> self.reverse_edges@[k] == old(self).reverse_edges@[k]);
            if old(self).edges_mirrored() {
                lemma_link_keeps_mirror(*old(self), *self, parent_path@, full_path@);
            }
        }
        full_path
    }

    /// The node at a full path.
    pub fn get(&self, path: &str) -> (r: Option<&GraphNode>)
        requires
            self.wf(),
        ensures
            match r {
                Some(n) => self.nodes@.dom().contains(path@) && *n == self.nodes@[path@],
                None => !self.nodes@.dom().contains(path@),
            },
    {
        self.nodes.get(path)
    }

    /// A mutable reference to the node at a full path. Changing the node keeps
    /// the graph well formed as long as its declaration stays well formed.
    pub fn get_mut(&mut self, path: &str) -> (r: Option<&mut GraphNode>)
        requires
            old(self).wf(),
        ensures
            final(self).edges == old(self).edges,
            final(self).reverse_edges == old(self).reverse_edges,
            final(self).follows_resolved == old(self).follows_resolved,
            final(self).nodes.keys() == old(self).nodes.keys(),
            final(self).nodes.wf(),
            match r {
                Some(n) => {
                    &&& old(self).nodes@.dom().contains(path@)
                    &&& *n == old(self).nodes@[path@]
                    &&& final(self).nodes@ == old(self).nodes@.insert(path@, *final(n))
                    &&& final(n).decl.wf() ==> final(self).wf()
                },
                None => !old(self).nodes@.dom().contains(path@) && final(self).nodes@ == old(self).nodes@ && final(self).wf(),
            },
    {
        self.nodes.get_mut(path)
    }

    /// Names of the root-level inputs, in path order.
    pub fn root_inputs(&self) -> (r: Vec<&str>)
        requires
            self.wf(),
        ensures
            r@.map_values(|s: &str| s@) == self.nodes.pairs().filter(
                |p: (Seq<char>, GraphNode)| p.1.parent_path@.len() == 0,
            ).map_values(|p: (Seq<char>, GraphNode)| p.1.name@),
    {
        let ghost ps = self.nodes.pairs();
        let ghost keep = |p: (Seq<char>, GraphNode)| p.1.parent_path@.len() == 0;
        let ghost name_of = |p: (Seq<char>, GraphNode)| p.1.name@;
        let mut r: Vec<&str> = Vec::new();
        let n = self.nodes.len();
        let mut i: usize = 0;
        proof {
            self.nodes.lemma_view();
            assert(ps.take(0).filter(keep) =~= Seq::empty());
        }
        while i < n
            invariant
                self.wf(),
                ps == self.nodes.pairs(),
                n == ps.len(),
                i <= n,
                keep == (|p: (Seq<char>, GraphNode)| p.1.parent_path@.len() == 0),
                name_of == (|p: (Seq<char>, GraphNode)| p.1.name@),
                r@.map_values(|s: &str| s@) == ps.take(i as int).filter(keep).map_values(name_of),
            decreases n - i,
        {
            proof {
                self.nodes.lemma_view();
            }
            let (_, node) = self.nodes.entry_at(i);
            proof {
                assert(ps.take(i + 1).drop_last() =~= ps.take(i as int));
                reveal(Seq::filter);
            }
            let b = node.is_root_level();
            assert(b == keep(ps[i as int]));
            if b {
                let ghost old_r = r@;
                r.push(node.name.as_str());
                proof {
                    assert(r@.map_values(|s: &str| s@) =~= old_r.map_values(|s: &str| s@).push(node.name@));
                    assert(ps.take(i as int).filter(keep).push(ps[i as int]).map_values(name_of) =~= ps.take(
                        i as int,
                    ).filter(keep).map_values(name_of).push(name_of(ps[i as int])));
                }
                proof {
                    assert(ps.take(i + 1) =~= ps.take(i as int).push(ps[i as int]));
                    ps.take(i as int).lemma_filter_push(ps[i as int], keep);
                    assert(ps.take(i + 1).filter(keep) == ps.take(i as int).filter(keep).push(ps[i as int]));
                    assert(r@.map_values(|s: &str| s@) =~= ps.take(i as int).filter(keep).push(ps[i as int]).map_values(
                        name_of,
                    ));
                }
            } else {
                proof {
                    assert(ps.take(i + 1) =~= ps.take(i as int).push(ps[i as int]));
                    ps.take(i as int).lemma_filter_push(ps[i as int], keep);
                    assert(ps.take(i + 1).filter(keep) == ps.take(i as int).filter(keep));
                }
            }
            i = i + 1;
        }
        proof {
            assert(ps.take(n as int) =~= ps);
        }
        r
    }

    /// The direct dependencies of a node, in path order.
    pub fn dependencies(&self, path: &str) -> (r: Vec<String>)
        requires
            self.wf(),
        ensures
            r@.map_values(|s: String| s@) == (if self.edges@.dom().contains(path@) {
                self.edges@[path@].keys()
            } else {
                Seq::empty()
            }),
    {
        match self.edges.get(path) {
            Some(set) => set.key_list(),
            None => {
                let v: Vec<String> = Vec::new();
                assert(v@.map_values(|s: String| s@) =~= Seq::<Seq<char>>::empty());
                v
            },
        }
    }

    /// The direct dependents of a node (nodes that depend on it), in path order.
    pub fn dependents(&self, path: &str) -> (r: Vec<String>)
        requires
            self.wf(),
        ensures
            r@.map_values(|s: String| s@) == (if self.reverse_edges@.dom().contains(path@) {
                self.reverse_edges@[path@].keys()
            } else {
                Seq::empty()
            }),
    {
        match self.reverse_edges.get(path) {
            Some(set) => set.key_list(),
            None => {
                let v: Vec<String> = Vec::new();
                assert(v@.map_values(|s: String| s@) =~= Seq::<Seq<char>>::empty());
                v
            },
        }
    }

    /// Checks that a follows path is not empty.
    fn normalize_follows_path(&self, path: &str) -> (r: Result<String, GraphError>)
        ensures
            match r {
                Ok(p) => p@ == path@ && path@.len() > 0,
                Err(e) => path@.len() == 0 && e.chain_failure() == Some(ChainFailure::InvalidPath),
            },
    {
        if path.is_empty() {
            return Err(GraphError::InvalidFollowsPath { path: path.to_owned(), reason: "path cannot be empty".to_owned() });
        }
        Ok(path.to_owned())
    }

    /// The next hop of a follows chain from `path`, if it has one.
    fn get_follows_target(&self, path: &str) -> (r: Option<String>)
        requires
            self.wf(),
        ensures
            r matches Some(t) ==> follows_step(self.nodes@, strings_view(self.follows_resolved@), path@) == Some(t@),
            r is None ==> follows_step(self.nodes@, strings_view(self.follows_resolved@), path@) is None,
    {
        if let Some(resolved) = self.follows_resolved.get(path) {
            return Some(resolved.clone());
        }
        match find_last_char(path, '/') {
            None => None,
            Some(i) => {
                proof {
                    crate::text::lemma_last_index_of(path@, '/');
                }
                let n = char_len(path);
                let parent = char_substring(path, 0, i);
                let dep = char_substring(path, i + 1, n);
                match self.nodes.get(parent.as_str()) {
                    None => None,
                    Some(node) => match node.decl.overrides() {
                        None => None,
                        Some(overrides) => match overrides.get(dep.as_str()) {
                            Some(InputOverride::Follows(target)) => Some(target.clone()),
                            _ => None,
                        },
                    },
                }
            },
        }
    }

    /// Follows a chain from `initial_target` to its final target.
    fn resolve_follows_chain(&self, source: &str, initial_target: &str) -> (r: Result<String, GraphError>)
        requires
            self.wf(),
        ensures
            match r {
                Ok(t) => follows_chain(
                    self.nodes@,
                    strings_view(self.follows_resolved@),
                    initial_target@,
                    Set::empty(),
                    MAX_FOLLOWS_DEPTH as nat,
                ) == Ok::<Seq<char>, ChainFailure>(t@),
                Err(e) => e.chain_failure() matches Some(k) && follows_chain(
                    self.nodes@,
                    strings_view(self.follows_resolved@),
                    initial_target@,
                    Set::empty(),
                    MAX_FOLLOWS_DEPTH as nat,
                ) == Err::<Seq<char>, ChainFailure>(k),
            },
    {
        let ghost nodes = self.nodes@;
        let ghost resolved = strings_view(self.follows_resolved@);
        let ghost whole = follows_chain(nodes, resolved, initial_target@, Set::empty(), MAX_FOLLOWS_DEPTH as nat);
        let mut visited = StrSet::new();
        let mut chain: Vec<String> = Vec::new();
        chain.push(source.to_owned());
        let mut current = initial_target.to_owned();
        let mut depth: usize = 0;
        assert(visited@.dom() =~= Set::<Seq<char>>::empty());
        while depth < MAX_FOLLOWS_DEPTH
            invariant
                self.wf(),
                nodes == self.nodes@,
                resolved == strings_view(self.follows_resolved@),
                whole == follows_chain(nodes, resolved, initial_target@, Set::empty(), MAX_FOLLOWS_DEPTH as nat),
                visited.wf(),
                depth <= MAX_FOLLOWS_DEPTH,
                whole == follows_chain(nodes, resolved, current@, visited@.dom(), (MAX_FOLLOWS_DEPTH - depth) as nat),
            decreases MAX_FOLLOWS_DEPTH - depth,
        {
            let ghost vis0 = visited@.dom();
            let ghost fuel = (MAX_FOLLOWS_DEPTH - depth) as nat;
            assert(fuel > 0);
            if visited.contains_key(current.as_str()) {
                assert(whole == Err::<Seq<char>, ChainFailure>(ChainFailure::Circular));
                assert(whole == follows_chain(self.nodes@, strings_view(self.follows_resolved@), initial_target@, Set::empty(), MAX_FOLLOWS_DEPTH as nat));
                chain.push(current.clone());
                return Err(GraphError::CircularFollows { chain: join_chain(&chain) });
            }
            visited.insert(current.clone(), ());
            assert(visited@.dom() =~= vis0.insert(current@));
            chain.push(current.clone());
            let normalized = self.normalize_follows_path(current.as_str())?;
            match self.get_follows_target(normalized.as_str()) {
                Some(next) => {
                    assert(whole == follows_chain(nodes, resolved, next@, vis0.insert(current@), (fuel - 1) as nat));
                    current = next;
                },
                None => {
                    assert(whole == Ok::<Seq<char>, ChainFailure>(current@));
                    return Ok(normalized);
                },
            }
            depth = depth + 1;
        }
        Err(GraphError::FollowsChainTooDeep { max: MAX_FOLLOWS_DEPTH, chain: join_chain(&chain) })
    }

    /// Resolves every follows declaration of the graph to its final target.
    ///
    /// Declarations are taken node by node in path order, and within a node by
    /// dependency name; each chain sees the targets resolved before it.
    pub fn resolve_follows(&mut self) -> (r: Result<(), GraphError>)
        requires
            old(self).wf(),
        ensures
            final(self).wf(),
            final(self).nodes == old(self).nodes,
            final(self).edges == old(self).edges,
            final(self).reverse_edges == old(self).reverse_edges,
            match r {
                Ok(()) => resolve_all(
                    old(self).nodes@,
                    strings_view(old(self).follows_resolved@),
                    all_follows_decls(old(self).nodes.pairs()),
                ) == Ok::<Map<Seq<char>, Seq<char>>, ChainFailure>(strings_view(final(self).follows_resolved@)),
                Err(e) => {
                    let dv = all_follows_decls(old(self).nodes.pairs());
                    let start = strings_view(old(self).follows_resolved@);
                    &&& e.chain_failure() matches Some(k) && resolve_all(old(self).nodes@, start, dv)
                        == Err::<Map<Seq<char>, Seq<char>>, ChainFailure>(k)
                    &&& exists|n: int|
                        0 <= n < dv.len() && resolve_all(old(self).nodes@, start, #[trigger] dv.take(n))
                            == Ok::<Map<Seq<char>, Seq<char>>, ChainFailure>(strings_view(final(self).follows_resolved@))
                            && resolve_all(old(self).nodes@, start, dv.take(n + 1)) is Err
                },
            },
    {
        let decls = self.collect_follows_decls();
        let ghost nodes = self.nodes@;
        let ghost start = strings_view(self.follows_resolved@);
        let ghost dv = all_follows_decls(self.nodes.pairs());
        let mut i: usize = 0;
        while i < decls.len()
            invariant
                self.wf(),
                self.nodes == old(self).nodes,
                self.edges == old(self).edges,
                self.reverse_edges == old(self).reverse_edges,
                nodes == self.nodes@,
                start == strings_view(old(self).follows_resolved@),
                dv == all_follows_decls(old(self).nodes.pairs()),
                decls@.len() == dv.len(),
                forall|j: int| 0 <= j < dv.len() ==> (#[trigger] decls@[j]).0@ == dv[j].0 && decls@[j].1@ == dv[j].1,
                i <= decls@.len(),
                resolve_all(nodes, start, dv.take(i as int)) == Ok::<Map<Seq<char>, Seq<char>>, ChainFailure>(
                    strings_view(self.follows_resolved@),
                ),
            decreases decls@.len() - i,
        {
            proof {
                assert(dv.take(i + 1).drop_last() =~= dv.take(i as int));
                assert(dv.take(i + 1).last() == dv[i as int]);
            }
            let resolved = self.resolve_follows_chain(decls[i].0.as_str(), decls[i].1.as_str());
            match resolved {
                Err(e) => {
                    proof {
                        lemma_resolve_all_err_extends(nodes, start, dv, i as int + 1);
                        assert(dv.take(dv.len() as int) =~= dv);
                        assert(resolve_all(nodes, start, dv.take(i as int + 1)) is Err);
                        assert(resolve_all(nodes, start, dv.take(i as int)) == Ok::<Map<Seq<char>, Seq<char>>, ChainFailure>(
                            strings_view(self.follows_resolved@),
                        ));
                    }
                    return Err(e);
                },
                Ok(t) => {
                    let ghost before = self.follows_resolved@;
                    self.follows_resolved.insert(decls[i].0.clone(), t);
                    proof {
                        assert(strings_view(self.follows_resolved@) =~= strings_view(before).insert(dv[i as int].0, t@));
                    }
                },
            }
            i = i + 1;
        }
        proof {
            assert(dv.take(decls@.len() as int) =~= dv);
        }
        Ok(())
    }

    /// The follows declarations, as (source path, target) pairs.
    fn collect_follows_decls(&self) -> (r: Vec<(String, String)>)
        requires
            self.wf(),
        ensures
            r@.len() == all_follows_decls(self.nodes.pairs()).len(),
            forall|j: int| 0 <= j < r@.len() ==> (#[trigger] r@[j]).0@ == all_follows_decls(self.nodes.pairs())[j].0
                && r@[j].1@ == all_follows_decls(self.nodes.pairs())[j].1,
    {
        let ghost ps = self.nodes.pairs();
        let mut r: Vec<(String, String)> = Vec::new();
        let n = self.nodes.len();
        let mut i: usize = 0;
        proof {
            self.nodes.lemma_view();
        }
        while i < n
            invariant
                self.wf(),
                ps == self.nodes.pairs(),
                n == ps.len(),
                i <= n,
                r@.len() == all_follows_decls(ps.take(i as int)).len(),
                forall|j: int| 0 <= j < r@.len() ==> (#[trigger] r@[j]).0@ == all_follows_decls(ps.take(i as int))[j].0
                    && r@[j].1@ == all_follows_decls(ps.take(i as int))[j].1,
            decreases n - i,
        {
            proof {
                self.nodes.lemma_view();
            }
            let (key, node) = self.nodes.entry_at(i);
            proof {
                assert(ps.take(i + 1).drop_last() =~= ps.take(i as int));
                assert(ps.take(i + 1).last() == ps[i as int]);
                assert(self.nodes@.dom().contains(ps[i as int].0));
            }
            let ghost prev = r@;
            let ghost nd = node_follows_decls(*node);
            let ghost old_len = r@.len();
            self.push_node_follows_decls(node, &mut r);
            proof {
                assert(all_follows_decls(ps.take(i + 1)) == all_follows_decls(ps.take(i as int)) + nd);
                let a = all_follows_decls(ps.take(i as int));
                assert forall|j: int| 0 <= j < r@.len() implies (#[trigger] r@[j]).0@ == all_follows_decls(ps.take(i + 1))[j].0
                    && r@[j].1@ == all_follows_decls(ps.take(i + 1))[j].1 by {
                    if j < a.len() {
                        assert(r@[j] == prev[j]);
                    } else {
                        assert(r@[old_len + (j - old_len)] == r@[j]);
                    }
                }
            }
            i = i + 1;
        }
        proof {
            assert(ps.take(n as int) =~= ps);
        }
        r
    }

    /// Appends the follows declarations of one node.
    fn push_node_follows_decls(&self, node: &GraphNode, r: &mut Vec<(String, String)>)
        requires
            node.decl.wf(),
        ensures
            final(r)@.len() == old(r)@.len() + node_follows_decls(*node).len(),
            forall|j: int| 0 <= j < old(r)@.len() ==> #[trigger] final(r)@[j] == old(r)@[j],
            forall|j: int| 0 <= j < node_follows_decls(*node).len() ==> (#[trigger] final(r)@[old(r)@.len() + j]).0@
                == node_follows_decls(*node)[j].0 && final(r)@[old(r)@.len() + j].1@ == node_follows_decls(*node)[j].1,
    {
        let ghost start = old(r)@.len();
        match node.decl.overrides() {
            None => {},
            Some(overrides) => {
                let ghost ps = overrides.pairs();
                let ghost is_f = |p: (Seq<char>, InputOverride)| p.1 is Follows;
                let ghost mk = |p: (Seq<char>, InputOverride)| (child_path(node.full_path@, p.0), p.1->Follows_0@);
                let m = overrides.len();
                let mut i: usize = 0;
                proof {
                    overrides.lemma_view();
                    assert(ps.take(0).filter(is_f) =~= Seq::empty());
                }
                while i < m
                    invariant
                        overrides.wf(),
                        ps == overrides.pairs(),
                        m == ps.len(),
                        is_f == (|p: (Seq<char>, InputOverride)| p.1 is Follows),
                        mk == (|p: (Seq<char>, InputOverride)| (child_path(node.full_path@, p.0), p.1->Follows_0@)),
                        start == old(r)@.len(),
                        i <= m,
                        r@.len() == start + ps.take(i as int).filter(is_f).len(),
                        forall|j: int| 0 <= j < start ==> #[trigger] r@[j] == old(r)@[j],
                        forall|j: int| 0 <= j < ps.take(i as int).filter(is_f).len() ==> (#[trigger] r@[start + j]).0@
                            == mk(ps.take(i as int).filter(is_f)[j]).0 && r@[start + j].1@ == mk(
                            ps.take(i as int).filter(is_f)[j],
                        ).1,
                    decreases m - i,
                {
                    proof {
                        overrides.lemma_view();
                    }
                    let (dep, ov) = overrides.entry_at(i);
                    proof {
                        assert(ps.take(i + 1).drop_last() =~= ps.take(i as int));
                        reveal(Seq::filter);
                    }
                    match ov {
                        InputOverride::Follows(target) => {
                            let source = join_child_path(node.full_path.as_str(), dep.as_str());
                            r.push((source, target.clone()));
                            proof {
                                assert(ps.take(i + 1) =~= ps.take(i as int).push(ps[i as int]));
                                ps.take(i as int).lemma_filter_push(ps[i as int], is_f);
                                assert(ps.take(i + 1).filter(is_f) == ps.take(i as int).filter(is_f).push(ps[i as int]));
                            }
                        },
                        InputOverride::Url(_) => {
                            proof {
                                assert(ps.take(i + 1) =~= ps.take(i as int).push(ps[i as int]));
                                ps.take(i as int).lemma_filter_push(ps[i as int], is_f);
                                assert(ps.take(i + 1).filter(is_f) == ps.take(i as int).filter(is_f));
                            }
                        },
                    }
                    i = i + 1;
                }
                proof {
                    assert(ps.take(m as int) =~= ps);
                }
            },
        }
    }
}

/// If resolving a prefix of the declarations fails, resolving all of them fails the same way.
proof fn lemma_resolve_all_err_extends(
    nodes: Map<Seq<char>, GraphNode>,
    start: Map<Seq<char>, Seq<char>>,
    decls: Seq<(Seq<char>, Seq<char>)>,
    n: int,
)
    requires
        0 <= n <= decls.len(),
        resolve_all(nodes, start, decls.take(n)) is Err,
    ensures
        resolve_all(nodes, start, decls) == resolve_all(nodes, start, decls.take(n)),
    decreases decls.len() - n,
{
    if n < decls.len() {
        assert(decls.take(n + 1).drop_last() =~= decls.take(n));
        lemma_resolve_all_err_extends(nodes, start, decls, n + 1);
    } else {
        assert(decls.take(n) =~= decls);
    }
}

/// Paths joined with ` -> ` between them.
pub open spec fn chain_text(ps: Seq<Seq<char>>) -> Seq<char>
    decreases ps.len(),
{
    if ps.len() == 0 {
        Seq::empty()
    } else if ps.len() == 1 {
        ps[0]
    } else {
        chain_text(ps.drop_last()) + " -> "@ + ps.last()
    }
}

/// The chain of paths joined with " -> ", for error messages.
fn join_chain(chain: &Vec<String>) -> (r: String)
    ensures
        r@ == chain_text(chain@.map_values(|x: String| x@)),
{
    let ghost all = chain@.map_values(|x: String| x@);
    let mut s = String::new();
    let mut i: usize = 0;
    proof {
        assert(all.take(0) =~= Seq::<Seq<char>>::empty());
    }
    while i < chain.len()
        invariant
            i <= chain@.len(),
            all == chain@.map_values(|x: String| x@),
            s@ == chain_text(all.take(i as int)),
        decreases chain@.len() - i,
    {
        proof {
            assert(all.take(i + 1).drop_last() =~= all.take(i as int));
            assert(all.take(i + 1).last() == chain@[i as int]@);
        }
        if i > 0 {
            s.append(" -> ");
        }
        s.append(chain[i].as_str());
        proof {
            if i == 0 {
                assert(all.take(1).len() == 1);
            }
            assert(s@ =~= chain_text(all.take(i + 1)));
        }
        i = i + 1;
    }
    proof {
        assert(all.take(i as int) =~= all);
    }
    s
}

/// Builds a graph with one root-level node per declaration.
pub fn build_initial_graph(root_inputs: &StrMap<InputDecl>) -> (g: DependencyGraph)
    requires
        root_inputs.wf(),
        forall|k: Seq<char>| #[trigger] root_inputs@.dom().contains(k) ==> root_inputs@[k].wf(),
    ensures
        g.wf(),
        g.nodes@.dom() == root_inputs@.dom(),
        forall|k: Seq<char>| #[trigger] g.nodes@.dom().contains(k) ==> {
            &&& g.nodes@[k].name@ == k
            &&& g.nodes@[k].full_path@ == k
            &&& g.nodes@[k].parent_path@.len() == 0
            &&& g.nodes@[k].decl.same_as(&root_inputs@[k])
        },
        g.edges@ == Map::<Seq<char>, StrSet>::empty(),
        g.reverse_edges@ == Map::<Seq<char>, StrSet>::empty(),
        g.follows_resolved@ == Map::<Seq<char>, String>::empty(),
{
    let mut graph = DependencyGraph::new();
    let n = root_inputs.len();
    let mut i: usize = 0;
    proof {
        root_inputs.lemma_view();
    }
    while i < n
        invariant
            graph.wf(),
            root_inputs.wf(),
            forall|k: Seq<char>| #[trigger] root_inputs@.dom().contains(k) ==> root_inputs@[k].wf(),
            n == root_inputs.keys().len(),
            i <= n,
            graph.nodes@.dom() == root_inputs.keys().take(i as int).to_set(),
            forall|k: Seq<char>| #[trigger] graph.nodes@.dom().contains(k) ==> {
                &&& graph.nodes@[k].name@ == k
                &&& graph.nodes@[k].full_path@ == k
                &&& graph.nodes@[k].parent_path@.len() == 0
                &&& graph.nodes@[k].decl.same_as(&root_inputs@[k])
            },
            graph.edges@ == Map::<Seq<char>, StrSet>::empty(),
            graph.reverse_edges@ == Map::<Seq<char>, StrSet>::empty(),
            graph.follows_resolved@ == Map::<Seq<char>, String>::empty(),
        decreases n - i,
    {
        proof {
            root_inputs.lemma_view();
        }
        let (name, decl) = root_inputs.entry_at(i);
        proof {
            assert(root_inputs@.dom().contains(root_inputs.keys()[i as int]));
        }
        graph.add_root_input(name.as_str(), decl.duplicate());
        proof {
            assert(root_inputs.keys().take(i + 1) =~= root_inputs.keys().take(i as int).push(root_inputs.keys()[i as int]));
            root_inputs.keys().take(i as int).lemma_push_to_set_commute(root_inputs.keys()[i as int]);
        }
        i = i + 1;
    }
    proof {
        root_inputs.lemma_view();
        assert(root_inputs.keys().take(n as int) =~= root_inputs.keys());
        assert(graph.nodes@.dom() =~= root_inputs@.dom());
    }
    graph
}

} // verus!
