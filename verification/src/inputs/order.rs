//! Ordering the dependency graph: dependencies before dependents, and cycles.
use vstd::prelude::*;
use vstd::set_lib::lemma_len_subset;
use vstd::seq_lib::seq_to_set_is_finite;
use crate::strmap::StrSet;
use super::graph::DependencyGraph;

verus! {

/// The character sequences of a list of strings.
pub open spec fn views_of(v: Seq<String>) -> Seq<Seq<char>> {
    v.map_values(|s: String| s@)
}

/// All keys of all sets, set after set.
pub open spec fn flatten_keys(ps: Seq<(Seq<char>, StrSet)>) -> Seq<Seq<char>>
    decreases ps.len(),
{
    if ps.len() == 0 {
        Seq::empty()
    } else {
        flatten_keys(ps.drop_last()) + ps.last().1.keys()
    }
}

pub proof fn lemma_flatten_keys_contains(ps: Seq<(Seq<char>, StrSet)>, i: int, v: Seq<char>)
    requires
        0 <= i < ps.len(),
        ps[i].1.keys().contains(v),
    ensures
        flatten_keys(ps).contains(v),
    decreases ps.len(),
{
    let a = flatten_keys(ps.drop_last());
    let b = ps.last().1.keys();
    if i == ps.len() - 1 {
        let k = choose|k: int| 0 <= k < b.len() && b[k] == v;
        assert((a + b)[a.len() + k] == v);
    } else {
        assert(ps.drop_last()[i] == ps[i]);
        lemma_flatten_keys_contains(ps.drop_last(), i, v);
        let k = choose|k: int| 0 <= k < a.len() && a[k] == v;
        assert((a + b)[k] == v);
    }
}

impl DependencyGraph {
    /// Every path the graph mentions: node paths, edge sources and edge targets.
    pub open spec fn universe(&self) -> Set<Seq<char>> {
        (self.nodes.keys() + self.edges.keys() + flatten_keys(self.edges.pairs())).to_set()
    }

    /// `p` is a non-empty walk along edges.
    pub open spec fn is_path(&self, p: Seq<Seq<char>>) -> bool {
        &&& p.len() > 0
        &&& forall|i: int| 0 <= i < p.len() - 1 ==> #[trigger] self.has_edge(p[i], p[i + 1])
    }

    /// There is a walk from `a` to `b`.
    pub open spec fn reachable(&self, a: Seq<char>, b: Seq<char>) -> bool {
        exists|p: Seq<Seq<char>>| #[trigger] self.is_path(p) && p[0] == a && p.last() == b
    }

    /// `c` is a cycle: a walk whose last node has an edge back to its first.
    pub open spec fn is_cycle(&self, c: Seq<Seq<char>>) -> bool {
        self.is_path(c) && self.has_edge(c.last(), c[0])
    }

    /// Every edge out of a listed node leads to a node listed before it,
    /// unless the edge closes a cycle (its target reaches its source).
    pub open spec fn dependencies_first(&self, order: Seq<Seq<char>>) -> bool {
        forall|i: int, w: Seq<char>|
            0 <= i < order.len() && #[trigger] self.has_edge(order[i], w) ==> (exists|j: int|
                0 <= j < i && order[j] == w) || self.reachable(w, order[i])
    }

    /// The graph has no cycle.
    pub open spec fn acyclic(&self) -> bool {
        forall|u: Seq<char>, w: Seq<char>| #[trigger] self.has_edge(u, w) ==> !self.reachable(w, u)
    }

    /// No edge leaves `b`, and no cycle passes through a node of `b`.
    pub open spec fn closed_without_cycles(&self, b: Set<Seq<char>>) -> bool {
        &&& forall|u: Seq<char>, w: Seq<char>| b.contains(u) && #[trigger] self.has_edge(u, w) ==> b.contains(w)
        &&& forall|c: Seq<Seq<char>>, i: int| self.is_cycle(c) && 0 <= i < c.len() ==> !b.contains(#[trigger] c[i])
    }

    /// Along a walk that starts in a set no edge leaves, every node stays in the set.
    proof fn lemma_walk_stays(&self, c: Seq<Seq<char>>, b: Set<Seq<char>>, j: int, k: int)
        requires
            forall|u: Seq<char>, w: Seq<char>| b.contains(u) && #[trigger] self.has_edge(u, w) ==> b.contains(w),
            self.is_path(c),
            0 <= j <= k < c.len(),
            b.contains(c[j]),
        ensures
            b.contains(c[k]),
        decreases k - j,
    {
        if k > j {
            self.lemma_walk_stays(c, b, j, k - 1);
            assert(self.has_edge(c[k - 1], c[(k - 1) + 1]));
        }
    }

    /// A cycle with one node in a set no edge leaves lies wholly in it.
    proof fn lemma_cycle_stays(&self, c: Seq<Seq<char>>, b: Set<Seq<char>>, j: int, k: int)
        requires
            forall|u: Seq<char>, w: Seq<char>| b.contains(u) && #[trigger] self.has_edge(u, w) ==> b.contains(w),
            self.is_cycle(c),
            0 <= j < c.len(),
            0 <= k < c.len(),
            b.contains(c[j]),
        ensures
            b.contains(c[k]),
    {
        if k >= j {
            self.lemma_walk_stays(c, b, j, k);
        } else {
            self.lemma_walk_stays(c, b, j, c.len() - 1);
            assert(self.has_edge(c.last(), c[0]));
            self.lemma_walk_stays(c, b, 0, k);
        }
    }

    pub proof fn lemma_universe_finite(&self)
        ensures
            self.universe().finite(),
    {
        seq_to_set_is_finite(self.nodes.keys() + self.edges.keys() + flatten_keys(self.edges.pairs()));
    }

    pub proof fn lemma_edge_in_universe(&self, u: Seq<char>, v: Seq<char>)
        requires
            self.wf(),
            self.has_edge(u, v),
        ensures
            self.universe().contains(u),
            self.universe().contains(v),
    {
        let a = self.nodes.keys();
        let b = self.edges.keys();
        let c = flatten_keys(self.edges.pairs());
        self.edges.lemma_view();
        let i = choose|i: int| 0 <= i < b.len() && b[i] == u;
        assert((a + b + c)[a.len() + i] == u);
        let set = self.edges@[u];
        set.lemma_view();
        assert(self.edges.pairs()[i].1 == set);
        lemma_flatten_keys_contains(self.edges.pairs(), i, v);
        let k = choose|k: int| 0 <= k < c.len() && c[k] == v;
        assert((a + b + c)[a.len() + b.len() + k] == v);
    }

    pub proof fn lemma_node_in_universe(&self, k: Seq<char>)
        requires
            self.wf(),
            self.nodes@.dom().contains(k),
        ensures
            self.universe().contains(k),
    {
        let a = self.nodes.keys();
        let b = self.edges.keys();
        let c = flatten_keys(self.edges.pairs());
        self.nodes.lemma_view();
        let i = choose|i: int| 0 <= i < a.len() && a[i] == k;
        assert((a + b + c)[i] == k);
    }

    /// A suffix of a walk is a walk.
    pub proof fn lemma_path_suffix(&self, p: Seq<Seq<char>>, m: int)
        requires
            self.is_path(p),
            0 <= m < p.len(),
        ensures
            self.is_path(p.subrange(m, p.len() as int)),
            self.reachable(p[m], p.last()),
    {
        let q = p.subrange(m, p.len() as int);
        assert forall|i: int| 0 <= i < q.len() - 1 implies #[trigger] self.has_edge(q[i], q[i + 1]) by {
            assert(q[i] == p[m + i]);
            assert(q[i + 1] == p[m + i + 1]);
            assert(self.has_edge(p[m + i], p[m + i + 1]));
        }
        assert(q[0] == p[m]);
        assert(q.last() == p.last());
    }

    /// Extending a walk by an edge gives a walk.
    pub proof fn lemma_path_push(&self, p: Seq<Seq<char>>, v: Seq<char>)
        requires
            p.len() == 0 || (self.is_path(p) && self.has_edge(p.last(), v)),
        ensures
            self.is_path(p.push(v)),
    {
        let q = p.push(v);
        assert forall|i: int| 0 <= i < q.len() - 1 implies #[trigger] self.has_edge(q[i], q[i + 1]) by {
            if i < p.len() - 1 {
                assert(self.has_edge(p[i], p[i + 1]));
            }
        }
    }

    /// Orders the nodes so that dependencies come before dependents.
    ///
    /// Every node path appears exactly once; the order also lists the edge
    /// targets met on the way. Each edge leads backwards in the order unless
    /// it closes a cycle.
    pub fn topological_sort(&self) -> (order: Vec<String>)
        requires
            self.wf(),
        ensures
            views_of(order@).no_duplicates(),
            forall|k: Seq<char>| #[trigger] self.nodes@.dom().contains(k) ==> views_of(order@).contains(k),
            forall|x: Seq<char>| #[trigger] views_of(order@).contains(x) ==> self.universe().contains(x),
            self.dependencies_first(views_of(order@)),
    {
        let mut result: Vec<String> = Vec::new();
        let mut visited = StrSet::new();
        let mut in_stack = StrSet::new();
        let keys = self.nodes.key_list();
        let mut i: usize = 0;
        proof {
            self.nodes.lemma_view();
            assert(views_of(result@) =~= Seq::<Seq<char>>::empty());
            assert(visited@.dom() =~= views_of(result@).to_set());
            assert(in_stack@.dom() =~= Seq::<Seq<char>>::empty().to_set());
        }
        while i < keys.len()
            invariant
                self.wf(),
                keys@.map_values(|s: String| s@) == self.nodes.keys(),
                i <= keys@.len(),
                visited.wf(),
                in_stack.wf(),
                in_stack@.dom() == Seq::<Seq<char>>::empty().to_set(),
                visited@.dom() == views_of(result@).to_set(),
                views_of(result@).no_duplicates(),
                self.dependencies_first(views_of(result@)),
                forall|x: Seq<char>| #[trigger] views_of(result@).contains(x) ==> self.universe().contains(x),
                forall|j: int| 0 <= j < i ==> #[trigger] visited@.dom().contains(self.nodes.keys()[j]),
            decreases keys@.len() - i,
        {
            proof {
                self.nodes.lemma_view();
                assert(self.nodes.keys()[i as int] == keys@[i as int]@);
                self.lemma_node_in_universe(keys@[i as int]@);
                assert(in_stack@.dom() =~= Set::<Seq<char>>::empty());
            }
            let ghost vis_before = visited@.dom();
            if !visited.contains_key(keys[i].as_str()) {
                self.topo_visit(keys[i].as_str(), &mut visited, &mut in_stack, &mut result, Ghost(Seq::empty()));
            }
            proof {
                assert forall|j: int| 0 <= j < i + 1 implies #[trigger] visited@.dom().contains(self.nodes.keys()[j]) by {
                    if j < i {
                        assert(vis_before.contains(self.nodes.keys()[j]));
                    }
                }
            }
            i = i + 1;
        }
        proof {
            self.nodes.lemma_view();
            assert forall|k: Seq<char>| #[trigger] self.nodes@.dom().contains(k) implies views_of(result@).contains(k) by {
                let j = choose|j: int| 0 <= j < self.nodes.keys().len() && self.nodes.keys()[j] == k;
                assert(visited@.dom().contains(self.nodes.keys()[j]));
            }
        }
        result
    }

    /// Depth-first visit for [`topological_sort`](Self::topological_sort): lists `path` after its dependencies.
    fn topo_visit(
        &self,
        path: &str,
        visited: &mut StrSet,
        in_stack: &mut StrSet,
        result: &mut Vec<String>,
        Ghost(stack): Ghost<Seq<Seq<char>>>,
    )
        requires
            self.wf(),
            old(visited).wf(),
            old(in_stack).wf(),
            self.universe().contains(path@),
            old(in_stack)@.dom().subset_of(self.universe()),
            old(in_stack)@.dom() == stack.to_set(),
            stack.len() == 0 || (self.is_path(stack) && self.has_edge(stack.last(), path@)),
            old(visited)@.dom() == views_of(old(result)@).to_set(),
            views_of(old(result)@).no_duplicates(),
            self.dependencies_first(views_of(old(result)@)),
            forall|x: Seq<char>| #[trigger] views_of(old(result)@).contains(x) ==> self.universe().contains(x),
        ensures
            final(visited).wf(),
            final(in_stack).wf(),
            final(in_stack)@ == old(in_stack)@,
            final(visited)@.dom() == views_of(final(result)@).to_set(),
            views_of(final(result)@).no_duplicates(),
            self.dependencies_first(views_of(final(result)@)),
            forall|x: Seq<char>| #[trigger] views_of(final(result)@).contains(x) ==> self.universe().contains(x),
            views_of(old(result)@).is_prefix_of(views_of(final(result)@)),
            old(visited)@.dom().subset_of(final(visited)@.dom()),
            forall|x: Seq<char>| #[trigger] final(visited)@.dom().contains(x) && !old(visited)@.dom().contains(x)
                ==> !old(in_stack)@.dom().contains(x),
            !old(in_stack)@.dom().contains(path@) ==> final(visited)@.dom().contains(path@),
        decreases self.universe().len() - old(in_stack)@.dom().len(),
    {
        if visited.contains_key(path) {
            return;
        }
        if in_stack.contains_key(path) {
            return;
        }
        let ghost stack2 = stack.push(path@);
        let ghost in0 = in_stack@;
        let ghost res0 = views_of(result@);
        let ghost vis0 = visited@.dom();
        proof {
            self.lemma_universe_finite();
            lemma_len_subset(in_stack@.dom().insert(path@), self.universe());
            self.lemma_path_push(stack, path@);
            in_stack.lemma_view();
        }
        in_stack.insert(path.to_owned(), ());
        proof {
            assert(in_stack@.dom() =~= stack2.to_set()) by {
                stack.lemma_push_to_set_commute(path@);
            }
            in_stack.lemma_view();
        }
        let deps = self.dependencies(path);
        let ghost dv = views_of(deps@);
        let mut k: usize = 0;
        while k < deps.len()
            invariant
                self.wf(),
                visited.wf(),
                in_stack.wf(),
                dv == views_of(deps@),
                dv == (if self.edges@.dom().contains(path@) {
                    self.edges@[path@].keys()
                } else {
                    Seq::empty()
                }),
                k <= deps@.len(),
                in_stack@ == in0.insert(path@, ()),
                in0 == old(in_stack)@,
                in_stack@.dom() == stack2.to_set(),
                in_stack@.dom().subset_of(self.universe()),
                in_stack@.dom().len() == in0.dom().len() + 1,
                self.universe().finite(),
                self.universe().len() >= in_stack@.dom().len(),
                self.is_path(stack2),
                stack2.last() == path@,
                visited@.dom() == views_of(result@).to_set(),
                views_of(result@).no_duplicates(),
                self.dependencies_first(views_of(result@)),
                forall|x: Seq<char>| #[trigger] views_of(result@).contains(x) ==> self.universe().contains(x),
                res0.is_prefix_of(views_of(result@)),
                vis0.subset_of(visited@.dom()),
                forall|x: Seq<char>| #[trigger] visited@.dom().contains(x) && !vis0.contains(x) ==> !in_stack@.dom().contains(x),
                !visited@.dom().contains(path@),
                forall|j: int| 0 <= j < k ==> #[trigger] visited@.dom().contains(dv[j]) || stack2.to_set().contains(dv[j]),
            decreases deps@.len() - k,
        {
            proof {
                assert(dv.len() == deps@.len());
                assert(dv[k as int] == deps@[k as int]@);
                assert(self.edges@.dom().contains(path@));
                self.edges.lemma_view();
                let set = self.edges@[path@];
                set.lemma_view();
                assert(self.has_edge(path@, dv[k as int]));
                self.lemma_edge_in_universe(path@, dv[k as int]);
            }
            let ghost before_vis = visited@.dom();
            self.topo_visit(deps[k].as_str(), visited, in_stack, result, Ghost(stack2));
            proof {
                assert forall|j: int| 0 <= j < k + 1 implies #[trigger] visited@.dom().contains(dv[j])
                    || stack2.to_set().contains(dv[j]) by {
                    if j < k {
                        if before_vis.contains(dv[j]) {
                            assert(visited@.dom().contains(dv[j]));
                        }
                    }
                }
            }
            k = k + 1;
        }
        let ghost res1 = views_of(result@);
        in_stack.remove(path);
        proof {
            assert(in_stack@ =~= in0);
        }
        visited.insert(path.to_owned(), ());
        result.push(path.to_owned());
        proof {
            let res2 = views_of(result@);
            assert(res2 =~= res1.push(path@));
            res1.lemma_push_to_set_commute(path@);
            assert(visited@.dom() =~= res2.to_set());
            assert(res0.is_prefix_of(res2));
            assert(vis0.subset_of(visited@.dom()));
            assert forall|i: int, j: int| 0 <= i < res2.len() && 0 <= j < res2.len() && i != j implies res2[i] != res2[j] by {
                if i == res1.len() {
                    assert(res1.to_set().contains(res1[j]));
                } else if j == res1.len() {
                    assert(res1.to_set().contains(res1[i]));
                }
            }
            assert forall|x: Seq<char>| #[trigger] res2.contains(x) implies self.universe().contains(x) by {
                let j = choose|j: int| 0 <= j < res2.len() && res2[j] == x;
                if j < res1.len() {
                    assert(res1.contains(x));
                }
            }
            assert forall|i: int, w: Seq<char>|
                0 <= i < res2.len() && #[trigger] self.has_edge(res2[i], w) implies (exists|j: int|
                0 <= j < i && res2[j] == w) || self.reachable(w, res2[i]) by {
                if i < res1.len() {
                    assert(res2[i] == res1[i]);
                    if exists|j: int| 0 <= j < i && res1[j] == w {
                        let j = choose|j: int| 0 <= j < i && res1[j] == w;
                        assert(res2[j] == w);
                    }
                } else {
                    assert(res2[i] == path@);
                    self.edges.lemma_view();
                    let set = self.edges@[path@];
                    set.lemma_view();
                    let m = choose|m: int| 0 <= m < dv.len() && dv[m] == w;
                    if vis0.contains(w) || visited@.dom().contains(w) {
                        if visited@.dom().contains(w) && w != path@ {
                            assert(res1.to_set().contains(w));
                            let j = choose|j: int| 0 <= j < res1.len() && res1[j] == w;
                            assert(res2[j] == w);
                        }
                    }
                    if stack2.to_set().contains(w) {
                        let m2 = choose|m2: int| 0 <= m2 < stack2.len() && stack2[m2] == w;
                        self.lemma_path_suffix(stack2, m2);
                    }
                }
            }
        }
    }

    /// Finds cycles: each reported cycle is a walk whose last node has an edge
    /// back to its first; none is reported only where no cycle passes through
    /// a node of the graph.
    pub fn find_cycles(&self) -> (cycles: Vec<Vec<String>>)
        requires
            self.wf(),
        ensures
            forall|i: int| 0 <= i < cycles@.len() ==> self.is_cycle(views_of(#[trigger] cycles@[i]@)),
            cycles@.len() == 0 ==> forall|c: Seq<Seq<char>>, i: int|
                self.is_cycle(c) && 0 <= i < c.len() ==> !self.nodes@.dom().contains(#[trigger] c[i]),
    {
        let mut cycles: Vec<Vec<String>> = Vec::new();
        let mut visited = StrSet::new();
        let mut stack: Vec<String> = Vec::new();
        let mut on_stack = StrSet::new();
        let keys = self.nodes.key_list();
        let mut i: usize = 0;
        proof {
            self.nodes.lemma_view();
            assert(visited@.dom() =~= Set::<Seq<char>>::empty());
            assert(visited@.dom().difference(on_stack@.dom()) =~= Set::<Seq<char>>::empty());
        }
        while i < keys.len()
            invariant
                self.wf(),
                keys@.map_values(|s: String| s@) == self.nodes.keys(),
                i <= keys@.len(),
                visited.wf(),
                on_stack.wf(),
                stack@.len() == 0,
                on_stack@.dom() == views_of(stack@).to_set(),
                on_stack@.dom().subset_of(visited@.dom()),
                visited@.dom().subset_of(self.universe()),
                forall|c: int| 0 <= c < cycles@.len() ==> self.is_cycle(views_of(#[trigger] cycles@[c]@)),
                cycles@.len() == 0 ==> self.closed_without_cycles(visited@.dom().difference(on_stack@.dom())),
                forall|j: int| 0 <= j < i ==> #[trigger] visited@.dom().contains(self.nodes.keys()[j]),
            decreases keys@.len() - i,
        {
            proof {
                self.nodes.lemma_view();
                assert(self.nodes.keys()[i as int] == keys@[i as int]@);
                self.lemma_node_in_universe(keys@[i as int]@);
            }
            let ghost vis_before = visited@.dom();
            if !visited.contains_key(keys[i].as_str()) {
                self.find_cycles_dfs(keys[i].as_str(), &mut visited, &mut stack, &mut on_stack, &mut cycles);
            }
            proof {
                assert forall|j: int| 0 <= j < i + 1 implies #[trigger] visited@.dom().contains(self.nodes.keys()[j]) by {
                    if j < i {
                        assert(vis_before.contains(self.nodes.keys()[j]));
                    }
                }
            }
            i = i + 1;
        }
        proof {
            if cycles@.len() == 0 {
                assert(views_of(stack@) =~= Seq::<Seq<char>>::empty());
                assert(on_stack@.dom() =~= Set::<Seq<char>>::empty());
                assert(visited@.dom().difference(on_stack@.dom()) =~= visited@.dom());
                self.nodes.lemma_view();
                assert forall|c: Seq<Seq<char>>, i: int|
                    self.is_cycle(c) && 0 <= i < c.len() implies !self.nodes@.dom().contains(#[trigger] c[i]) by {
                    if self.nodes@.dom().contains(c[i]) {
                        let j = choose|j: int| 0 <= j < self.nodes.keys().len() && self.nodes.keys()[j] == c[i];
                        assert(visited@.dom().contains(self.nodes.keys()[j]));
                    }
                }
            }
        }
        cycles
    }

    /// Depth-first search for [`find_cycles`](Self::find_cycles).
    fn find_cycles_dfs(
        &self,
        path: &str,
        visited: &mut StrSet,
        stack: &mut Vec<String>,
        on_stack: &mut StrSet,
        cycles: &mut Vec<Vec<String>>,
    )
        requires
            self.wf(),
            old(visited).wf(),
            old(on_stack).wf(),
            self.universe().contains(path@),
            !old(visited)@.dom().contains(path@),
            old(visited)@.dom().subset_of(self.universe()),
            old(on_stack)@.dom() == views_of(old(stack)@).to_set(),
            old(on_stack)@.dom().subset_of(old(visited)@.dom()),
            old(stack)@.len() == 0 || (self.is_path(views_of(old(stack)@)) && self.has_edge(
                views_of(old(stack)@).last(),
                path@,
            )),
            forall|c: int| 0 <= c < old(cycles)@.len() ==> self.is_cycle(views_of(#[trigger] old(cycles)@[c]@)),
            old(cycles)@.len() == 0 ==> self.closed_without_cycles(old(visited)@.dom().difference(old(on_stack)@.dom())),
        ensures
            final(visited).wf(),
            final(on_stack).wf(),
            final(stack)@ == old(stack)@,
            final(on_stack)@.dom() == old(on_stack)@.dom(),
            old(visited)@.dom().subset_of(final(visited)@.dom()),
            final(visited)@.dom().contains(path@),
            final(visited)@.dom().subset_of(self.universe()),
            forall|c: int| 0 <= c < final(cycles)@.len() ==> self.is_cycle(views_of(#[trigger] final(cycles)@[c]@)),
            old(cycles)@.len() <= final(cycles)@.len(),
            final(cycles)@.len() == 0 ==> self.closed_without_cycles(final(visited)@.dom().difference(final(on_stack)@.dom())),
        decreases self.universe().len() - old(visited)@.dom().len(),
    {
        let ghost c0 = cycles@.len();
        let ghost vis0 = visited@.dom();
        let ghost st0 = views_of(stack@);
        let ghost on0 = on_stack@.dom();
        proof {
            self.lemma_universe_finite();
            lemma_len_subset(visited@.dom().insert(path@), self.universe());
            lemma_len_subset(visited@.dom(), self.universe());
        }
        visited.insert(path.to_owned(), ());
        stack.push(path.to_owned());
        let ghost st1 = views_of(stack@);
        let ghost full_stack = stack@;
        proof {
            assert(st1 =~= st0.push(path@));
            self.lemma_path_push(st0, path@);
            st0.lemma_push_to_set_commute(path@);
        }
        on_stack.insert(path.to_owned(), ());
        proof {
            assert(visited@.dom().difference(on_stack@.dom()) =~= vis0.difference(on0));
        }
        let deps = self.dependencies(path);
        let ghost dv = views_of(deps@);
        let mut k: usize = 0;
        while k < deps.len()
            invariant
                self.wf(),
                visited.wf(),
                on_stack.wf(),
                c0 == old(cycles)@.len(),
                c0 <= cycles@.len(),
                cycles@.len() == 0 ==> self.closed_without_cycles(visited@.dom().difference(on_stack@.dom())),
                cycles@.len() == 0 ==> forall|j: int| 0 <= j < k ==> #[trigger] visited@.dom().contains(dv[j])
                    && !on_stack@.dom().contains(dv[j]),
                dv == views_of(deps@),
                dv == (if self.edges@.dom().contains(path@) {
                    self.edges@[path@].keys()
                } else {
                    Seq::empty()
                }),
                k <= deps@.len(),
                views_of(stack@) == st1,
                stack@ == full_stack,
                full_stack == old(stack)@.push(full_stack.last()),
                self.is_path(st1),
                st1.last() == path@,
                on_stack@.dom() == st1.to_set(),
                on_stack@.dom() == on0.insert(path@),
                on_stack@.dom().subset_of(visited@.dom()),
                !on0.contains(path@),
                vis0.insert(path@).subset_of(visited@.dom()),
                vis0 == old(visited)@.dom(),
                !vis0.contains(path@),
                vis0.finite(),
                visited@.dom().subset_of(self.universe()),
                self.universe().finite(),
                self.universe().len() > vis0.len(),
                forall|c: int| 0 <= c < cycles@.len() ==> self.is_cycle(views_of(#[trigger] cycles@[c]@)),
            decreases deps@.len() - k,
        {
            proof {
                assert(dv.len() == deps@.len());
                assert(dv[k as int] == deps@[k as int]@);
                assert(self.edges@.dom().contains(path@));
                self.edges.lemma_view();
                let set = self.edges@[path@];
                set.lemma_view();
                assert(self.has_edge(path@, dv[k as int]));
                self.lemma_edge_in_universe(path@, dv[k as int]);
            }
            let dep = deps[k].as_str();
            let ghost vis_k = visited@.dom();
            if !visited.contains_key(dep) {
                proof {
                    lemma_len_subset(visited@.dom(), self.universe());
                    lemma_len_subset(vis0.insert(path@), visited@.dom());
                    assert(vis0.insert(path@).len() == vis0.len() + 1);
                }
                self.find_cycles_dfs(dep, visited, stack, on_stack, cycles);
                proof {
                    assert(!on_stack@.dom().contains(dv[k as int]));
                    if cycles@.len() == 0 {
                        assert forall|j: int| 0 <= j < k + 1 implies #[trigger] visited@.dom().contains(dv[j])
                            && !on_stack@.dom().contains(dv[j]) by {
                            if j < k {
                                assert(vis_k.contains(dv[j]));
                            }
                        }
                    }
                }
            } else if on_stack.contains_key(dep) {
                let start = position_of(stack, dep);
                let mut cycle: Vec<String> = Vec::new();
                let mut j: usize = start;
                while j < stack.len()
                    invariant
                        start <= j <= stack@.len(),
                        cycle@.len() == j - start,
                        forall|m: int| 0 <= m < cycle@.len() ==> #[trigger] cycle@[m] == stack@[start + m],
                    decreases stack@.len() - j,
                {
                    cycle.push(stack[j].clone());
                    j = j + 1;
                }
                proof {
                    assert(views_of(cycle@) =~= st1.subrange(start as int, st1.len() as int));
                    self.lemma_path_suffix(st1, start as int);
                }
                cycles.push(cycle);
            }
            k = k + 1;
        }
        let ghost b_loop = visited@.dom().difference(on_stack@.dom());
        proof {
            assert(!b_loop.contains(path@));
            if cycles@.len() == 0 {
                assert forall|w: Seq<char>| #[trigger] self.has_edge(path@, w) implies b_loop.contains(w) by {
                    self.edges.lemma_view();
                    let set = self.edges@[path@];
                    set.lemma_view();
                    assert(set.keys().contains(w));
                    let j = choose|j: int| 0 <= j < dv.len() && dv[j] == w;
                    assert(visited@.dom().contains(dv[j]) && !on_stack@.dom().contains(dv[j]));
                }
            }
        }
        stack.pop();
        on_stack.remove(path);
        proof {
            assert(stack@ =~= old(stack)@);
            assert(on_stack@.dom() =~= on0);
            if cycles@.len() == 0 {
                let b = visited@.dom().difference(on_stack@.dom());
                assert(b =~= b_loop.insert(path@));
                assert forall|u: Seq<char>, w: Seq<char>| b.contains(u) && #[trigger] self.has_edge(u, w) implies b.contains(w) by {
                    if u != path@ {
                        assert(b_loop.contains(u));
                    }
                }
                assert forall|c: Seq<Seq<char>>, i: int| self.is_cycle(c) && 0 <= i < c.len() implies !b.contains(#[trigger] c[i]) by {
                    if b.contains(c[i]) && c[i] == path@ {
                        // the cycle leaves `path` into the finished nodes, which no edge leaves
                        let n = if i + 1 < c.len() { i + 1 } else { 0 };
                        if i + 1 < c.len() {
                            assert(self.has_edge(c[i], c[i + 1]));
                        } else {
                            assert(self.has_edge(c.last(), c[0]));
                        }
                        assert(b_loop.contains(c[n]));
                        self.lemma_cycle_stays(c, b_loop, n, i);
                    }
                }
            }
        }
    }
}

/// Position of `s` in the stack; the stack holds it.
fn position_of(stack: &Vec<String>, s: &str) -> (r: usize)
    requires
        views_of(stack@).contains(s@),
    ensures
        r < stack@.len(),
        stack@[r as int]@ == s@,
{
    let mut i: usize = 0;
    while i < stack.len()
        invariant
            i <= stack@.len(),
            views_of(stack@).contains(s@),
            forall|j: int| 0 <= j < i ==> stack@[j]@ != s@,
        decreases stack@.len() - i,
    {
        if crate::strmap::compare_str(stack[i].as_str(), s) == 0 {
            return i;
        }
        i = i + 1;
    }
    proof {
        let j = choose|j: int| 0 <= j < views_of(stack@).len() && views_of(stack@)[j] == s@;
        assert(stack@[j]@ == s@);
    }
    0
}

} // verus!
