//! Lock files.
//!
//! A lock file pins input revisions. It is a graph of nodes keyed by label:
//! the root node (label `root`) lists the root inputs by name, and each input
//! node lists its own dependencies by name, every entry pointing at a label.
//! Removing a root input also removes every node no longer reachable from the root.
use vstd::prelude::*;
use vstd::set_lib::lemma_len_subset;
use vstd::seq_lib::seq_to_set_is_finite;
use crate::strmap::{StrMap, StrSet, compare_str};
use super::store::{InputStore, store_label, STORE_HASH_LEN};
use super::types::LockNode;
use super::order::views_of;
use crate::text::{path_join, join_path};

verus! {

/// Current lock file format version.
pub const LOCK_VERSION: u32 = 1;

/// Lock file name.
pub const LOCK_FILENAME: &'static str = "syslua.lock";

/// Label of the root node.
pub const ROOT_NODE_LABEL: &'static str = "root";

/// A locked input entry.
#[derive(Debug, Clone, PartialEq)]
pub struct LockedInput {
    /// Input type: "git" or "path".
    pub type_: String,
    /// URL from the config.
    pub url: String,
    /// Pinned revision.
    pub rev: String,
    /// Unix time of the last fetch.
    pub last_modified: Option<u64>,
}

impl LockedInput {
    /// A locked input entry without a timestamp.
    pub fn new(type_: &str, url: &str, rev: &str) -> (r: Self)
        ensures
            r.type_@ == type_@,
            r.url@ == url@,
            r.rev@ == rev@,
            r.last_modified is None,
    {
        LockedInput { type_: type_.to_owned(), url: url.to_owned(), rev: rev.to_owned(), last_modified: None }
    }

    /// Sets the last modified timestamp.
    pub fn with_last_modified(self, timestamp: u64) -> (r: Self)
        ensures
            r.type_ == self.type_,
            r.url == self.url,
            r.rev == self.rev,
            r.last_modified == Some(timestamp),
    {
        LockedInput { last_modified: Some(timestamp), ..self }
    }
}

/// An edge of the lock graph: node `u` lists `v` among its inputs.
pub open spec fn lock_edge(nodes: Map<Seq<char>, LockNode>, u: Seq<char>, v: Seq<char>) -> bool {
    nodes.dom().contains(u) && exists|k: Seq<char>| #[trigger] nodes[u].inputs@.dom().contains(k) && nodes[u].inputs@[k]@ == v
}

/// A non-empty walk along lock edges.
pub open spec fn lock_path(nodes: Map<Seq<char>, LockNode>, p: Seq<Seq<char>>) -> bool {
    &&& p.len() > 0
    &&& forall|i: int| 0 <= i < p.len() - 1 ==> #[trigger] lock_edge(nodes, p[i], p[i + 1])
}

/// `to` can be reached from `from` along lock edges (every label reaches itself).
pub open spec fn lock_reachable(nodes: Map<Seq<char>, LockNode>, from: Seq<char>, to: Seq<char>) -> bool {
    exists|p: Seq<Seq<char>>| #[trigger] lock_path(nodes, p) && p[0] == from && p.last() == to
}

/// The labels that the nodes' inputs point at, node after node.
pub open spec fn all_labels(ps: Seq<(Seq<char>, LockNode)>) -> Seq<Seq<char>>
    decreases ps.len(),
{
    if ps.len() == 0 {
        Seq::empty()
    } else {
        all_labels(ps.drop_last()) + ps.last().1.inputs.pairs().map_values(|p: (Seq<char>, String)| p.1@)
    }
}

pub proof fn lemma_all_labels_contains(ps: Seq<(Seq<char>, LockNode)>, i: int, j: int)
    requires
        0 <= i < ps.len(),
        0 <= j < ps[i].1.inputs.pairs().len(),
    ensures
        all_labels(ps).contains(ps[i].1.inputs.pairs()[j].1@),
    decreases ps.len(),
{
    let a = all_labels(ps.drop_last());
    let b = ps.last().1.inputs.pairs().map_values(|p: (Seq<char>, String)| p.1@);
    if i == ps.len() - 1 {
        assert((a + b)[a.len() + j] == b[j]);
    } else {
        assert(ps.drop_last()[i] == ps[i]);
        lemma_all_labels_contains(ps.drop_last(), i, j);
        let k = choose|k: int| 0 <= k < a.len() && a[k] == ps[i].1.inputs.pairs()[j].1@;
        assert((a + b)[k] == a[k]);
    }
}

/// A V1 lock file.
#[derive(Debug, Clone, PartialEq)]
pub struct LockFileV1 {
    /// Format version.
    pub version: u32,
    /// Label of the root node.
    pub root: String,
    /// All nodes, keyed by label.
    pub nodes: StrMap<LockNode>,
}

impl LockFileV1 {
    /// All maps are well formed.
    pub open spec fn wf(&self) -> bool {
        &&& self.nodes.wf()
        &&& forall|k: Seq<char>| #[trigger] self.nodes@.dom().contains(k) ==> self.nodes@[k].inputs.wf()
    }

    /// The labels reachable from the root.
    pub open spec fn reachable_labels(&self) -> Set<Seq<char>> {
        Set::new(|x: Seq<char>| lock_reachable(self.nodes@, self.root@, x))
    }

    /// Every label the lock file mentions.
    pub open spec fn label_universe(&self) -> Set<Seq<char>> {
        (self.nodes.keys() + all_labels(self.nodes.pairs()) + seq![self.root@]).to_set()
    }

    /// The label a node's input points at lies in the label universe.
    proof fn lemma_edge_in_universe(&self, u: Seq<char>, k: Seq<char>)
        requires
            self.wf(),
            self.nodes@.dom().contains(u),
            self.nodes@[u].inputs@.dom().contains(k),
        ensures
            self.label_universe().contains(self.nodes@[u].inputs@[k]@),
    {
        self.nodes.lemma_view();
        let ks = self.nodes.keys();
        let i = choose|i: int| 0 <= i < ks.len() && ks[i] == u;
        let m = self.nodes@[u].inputs;
        m.lemma_view();
        assert(self.nodes.pairs()[i].1.inputs == m);
        let j = choose|j: int| 0 <= j < m.keys().len() && m.keys()[j] == k;
        lemma_all_labels_contains(self.nodes.pairs(), i, j);
        let a = self.nodes.keys();
        let b = all_labels(self.nodes.pairs());
        let c = seq![self.root@];
        let t = choose|t: int| 0 <= t < b.len() && b[t] == m.pairs()[j].1@;
        assert((a + b + c)[a.len() + t] == b[t]);
    }

    /// A new lock file with an empty root node.
    pub fn new() -> (l: Self)
        ensures
            l.wf(),
            l.version == LOCK_VERSION,
            l.root@ == ROOT_NODE_LABEL@,
            l.nodes@.dom() == set![ROOT_NODE_LABEL@],
            l.nodes@[ROOT_NODE_LABEL@].spec_is_root(),
            l.nodes@[ROOT_NODE_LABEL@].type_ is None,
            l.nodes@[ROOT_NODE_LABEL@].url is None,
            l.nodes@[ROOT_NODE_LABEL@].rev is None,
            l.nodes@[ROOT_NODE_LABEL@].last_modified is None,
            l.nodes@[ROOT_NODE_LABEL@].inputs@ == Map::<Seq<char>, String>::empty(),
    {
        let mut nodes: StrMap<LockNode> = StrMap::new();
        nodes.insert(ROOT_NODE_LABEL.to_owned(), LockNode::root(StrMap::new()));
        proof {
            assert(nodes@.dom() =~= set![ROOT_NODE_LABEL@]);
        }
        LockFileV1 { version: LOCK_VERSION, root: ROOT_NODE_LABEL.to_owned(), nodes }
    }

    /// The root node.
    pub fn root_node(&self) -> (r: Option<&LockNode>)
        requires
            self.wf(),
        ensures
            match r {
                Some(n) => self.nodes@.dom().contains(self.root@) && *n == self.nodes@[self.root@],
                None => !self.nodes@.dom().contains(self.root@),
            },
    {
        self.nodes.get(self.root.as_str())
    }

    /// A mutable reference to the root node.
    pub fn root_node_mut(&mut self) -> (r: Option<&mut LockNode>)
        requires
            old(self).wf(),
        ensures
            final(self).root == old(self).root,
            final(self).version == old(self).version,
            final(self).nodes.keys() == old(self).nodes.keys(),
            match r {
                Some(n) => {
                    &&& old(self).nodes@.dom().contains(old(self).root@)
                    &&& *n == old(self).nodes@[old(self).root@]
                    &&& final(self).nodes@ == old(self).nodes@.insert(old(self).root@, *final(n))
                    &&& final(n).inputs.wf() ==> final(self).wf()
                },
                None => !old(self).nodes@.dom().contains(old(self).root@) && final(self).nodes@ == old(self).nodes@
                    && final(self).wf(),
            },
    {
        let root = self.root.clone();
        self.nodes.get_mut(root.as_str())
    }

    /// The node with a label.
    pub fn get_node(&self, label: &str) -> (r: Option<&LockNode>)
        requires
            self.wf(),
        ensures
            match r {
                Some(n) => self.nodes@.dom().contains(label@) && *n == self.nodes@[label@],
                None => !self.nodes@.dom().contains(label@),
            },
    {
        self.nodes.get(label)
    }

    /// Inserts or replaces a node.
    pub fn insert_node(&mut self, label: String, node: LockNode)
        requires
            old(self).wf(),
            node.inputs.wf(),
        ensures
            final(self).wf(),
            final(self).nodes@ == old(self).nodes@.insert(label@, node),
            final(self).root == old(self).root,
            final(self).version == old(self).version,
    {
        self.nodes.insert(label, node);
    }

    /// Adds `name -> label` to the node at `parent`, and a node for the label if there is none yet.
    fn link_input(
        &mut self,
        parent: &str,
        name: &str,
        url: &str,
        rev: &str,
        type_: &str,
        last_modified: Option<u64>,
    ) -> (label: String)
        requires
            old(self).wf(),
        ensures
            final(self).wf(),
            label@ == store_label(name@, url@, rev@),
            label@.len() == name@.len() + STORE_HASH_LEN + 1,
            final(self).root == old(self).root,
            final(self).version == old(self).version,
            final(self).nodes@.dom() == old(self).nodes@.dom().insert(label@),
            old(self).nodes@.dom().contains(label@) && label@ != parent@ ==> final(self).nodes@[label@] == old(self).nodes@[label@],
            !old(self).nodes@.dom().contains(label@) ==> {
                let n = final(self).nodes@[label@];
                &&& n.type_ matches Some(t) && t@ == type_@
                &&& n.url matches Some(u) && u@ == url@
                &&& n.rev matches Some(r) && r@ == rev@
                &&& n.last_modified == last_modified
                &&& n.inputs@ == Map::<Seq<char>, String>::empty()
            },
            old(self).nodes@.dom().contains(parent@) ==> final(self).nodes@[parent@].inputs@ == old(self).nodes@[parent@].inputs@.insert(
                name@,
                label,
            ) && final(self).nodes@[parent@].type_ == old(self).nodes@[parent@].type_ && final(self).nodes@[parent@].url
                == old(self).nodes@[parent@].url && final(self).nodes@[parent@].rev == old(self).nodes@[parent@].rev
                && final(self).nodes@[parent@].last_modified == old(self).nodes@[parent@].last_modified,
            forall|k: Seq<char>| #[trigger] old(self).nodes@.dom().contains(k) && k != parent@ && k != label@ ==> final(self).nodes@[k] == old(self).nodes@[k],
    {
        let label = InputStore::compute_store_label(name, url, rev);
        if let Some(p) = self.nodes.get_mut(parent) {
            p.inputs.insert(name.to_owned(), label.clone());
        }
        if !self.nodes.contains_key(label.as_str()) {
            let node = LockNode::input(type_, url, rev, last_modified, StrMap::new());
            self.nodes.insert(label.clone(), node);
        }
        proof {
            assert(self.nodes@.dom() =~= old(self).nodes@.dom().insert(label@));
        }
        label
    }

    /// Adds a root input: the root node lists `name` under its store label
    /// (its other inputs kept), a node for that label is added unless one
    /// exists (an existing one is kept as it is), and no other node changes.
    pub fn add_root_input(&mut self, name: &str, url: &str, rev: &str, type_: &str, last_modified: Option<u64>)
        requires
            old(self).wf(),
        ensures
            final(self).wf(),
            final(self).root == old(self).root,
            final(self).version == old(self).version,
            store_label(name@, url@, rev@).len() == name@.len() + STORE_HASH_LEN + 1,
            final(self).nodes@.dom() == old(self).nodes@.dom().insert(store_label(name@, url@, rev@)),
            old(self).nodes@.dom().contains(old(self).root@) ==> {
                let o = old(self).nodes@[old(self).root@];
                let f = final(self).nodes@[old(self).root@];
                &&& f.inputs@.dom() == o.inputs@.dom().insert(name@)
                &&& f.inputs@[name@]@ == store_label(name@, url@, rev@)
                &&& forall|n: Seq<char>| #[trigger] o.inputs@.dom().contains(n) && n != name@ ==> f.inputs@[n] == o.inputs@[n]
                &&& f.type_ == o.type_ && f.url == o.url && f.rev == o.rev && f.last_modified == o.last_modified
            },
            old(self).nodes@.dom().contains(store_label(name@, url@, rev@)) && store_label(name@, url@, rev@) != old(self).root@
                ==> final(self).nodes@[store_label(name@, url@, rev@)] == old(self).nodes@[store_label(name@, url@, rev@)],
            !old(self).nodes@.dom().contains(store_label(name@, url@, rev@)) ==> {
                let n = final(self).nodes@[store_label(name@, url@, rev@)];
                &&& n.type_ matches Some(t) && t@ == type_@
                &&& n.url matches Some(u) && u@ == url@
                &&& n.rev matches Some(r) && r@ == rev@
                &&& n.last_modified == last_modified
                &&& n.inputs@ == Map::<Seq<char>, String>::empty()
            },
            forall|k: Seq<char>| #[trigger] old(self).nodes@.dom().contains(k) && k != old(self).root@ && k != store_label(name@, url@, rev@)
                ==> final(self).nodes@[k] == old(self).nodes@[k],
    {
        let root = self.root.clone();
        let ghost r0 = old(self).nodes@[old(self).root@];
        let label = self.link_input(root.as_str(), name, url, rev, type_, last_modified);
        proof {
            if old(self).nodes@.dom().contains(old(self).root@) {
                let f = self.nodes@[old(self).root@];
                assert(f.inputs@ == r0.inputs@.insert(name@, label));
                assert(f.inputs@.dom() =~= r0.inputs@.dom().insert(name@));
            }
        }
    }

    /// Adds a transitive input under the node labelled `parent_label`: that
    /// node lists `dep_name` under its store label (its other inputs kept), a
    /// node for that label is added unless one exists (an existing one is kept
    /// as it is), and no other node changes.
    pub fn add_transitive_input(
        &mut self,
        parent_label: &str,
        dep_name: &str,
        url: &str,
        rev: &str,
        type_: &str,
        last_modified: Option<u64>,
    )
        requires
            old(self).wf(),
        ensures
            final(self).wf(),
            final(self).root == old(self).root,
            final(self).version == old(self).version,
            store_label(dep_name@, url@, rev@).len() == dep_name@.len() + STORE_HASH_LEN + 1,
            final(self).nodes@.dom() == old(self).nodes@.dom().insert(store_label(dep_name@, url@, rev@)),
            old(self).nodes@.dom().contains(parent_label@) ==> {
                let o = old(self).nodes@[parent_label@];
                let f = final(self).nodes@[parent_label@];
                &&& f.inputs@.dom() == o.inputs@.dom().insert(dep_name@)
                &&& f.inputs@[dep_name@]@ == store_label(dep_name@, url@, rev@)
                &&& forall|n: Seq<char>| #[trigger] o.inputs@.dom().contains(n) && n != dep_name@ ==> f.inputs@[n] == o.inputs@[n]
                &&& f.type_ == o.type_ && f.url == o.url && f.rev == o.rev && f.last_modified == o.last_modified
            },
            old(self).nodes@.dom().contains(store_label(dep_name@, url@, rev@)) && store_label(dep_name@, url@, rev@) != parent_label@
                ==> final(self).nodes@[store_label(dep_name@, url@, rev@)] == old(self).nodes@[store_label(dep_name@, url@, rev@)],
            !old(self).nodes@.dom().contains(store_label(dep_name@, url@, rev@)) ==> {
                let n = final(self).nodes@[store_label(dep_name@, url@, rev@)];
                &&& n.type_ matches Some(t) && t@ == type_@
                &&& n.url matches Some(u) && u@ == url@
                &&& n.rev matches Some(r) && r@ == rev@
                &&& n.last_modified == last_modified
                &&& n.inputs@ == Map::<Seq<char>, String>::empty()
            },
            forall|k: Seq<char>| #[trigger] old(self).nodes@.dom().contains(k) && k != parent_label@ && k != store_label(dep_name@, url@, rev@)
                ==> final(self).nodes@[k] == old(self).nodes@[k],
    {
        let ghost p0 = old(self).nodes@[parent_label@];
        let label = self.link_input(parent_label, dep_name, url, rev, type_, last_modified);
        proof {
            if old(self).nodes@.dom().contains(parent_label@) {
                let f = self.nodes@[parent_label@];
                assert(f.inputs@ == p0.inputs@.insert(dep_name@, label));
                assert(f.inputs@.dom() =~= p0.inputs@.dom().insert(dep_name@));
            }
        }
    }

    /// The label of a root input.
    pub fn get_root_input_label(&self, name: &str) -> (r: Option<&str>)
        requires
            self.wf(),
        ensures
            match r {
                Some(l) => self.nodes@.dom().contains(self.root@) && self.nodes@[self.root@].inputs@.dom().contains(
                    name@,
                ) && self.nodes@[self.root@].inputs@[name@]@ == l@,
                None => !(self.nodes@.dom().contains(self.root@) && self.nodes@[self.root@].inputs@.dom().contains(
                    name@,
                )),
            },
    {
        match self.root_node() {
            Some(root) => match root.inputs.get(name) {
                Some(l) => Some(l.as_str()),
                None => None,
            },
            None => None,
        }
    }

    /// The node of a root input.
    pub fn get_root_input(&self, name: &str) -> (r: Option<&LockNode>)
        requires
            self.wf(),
        ensures
            match r {
                Some(n) => {
                    &&& self.nodes@.dom().contains(self.root@)
                    &&& self.nodes@[self.root@].inputs@.dom().contains(name@)
                    &&& self.nodes@.dom().contains(self.nodes@[self.root@].inputs@[name@]@)
                    &&& *n == self.nodes@[self.nodes@[self.root@].inputs@[name@]@]
                },
                None => !(self.nodes@.dom().contains(self.root@) && self.nodes@[self.root@].inputs@.dom().contains(
                    name@,
                ) && self.nodes@.dom().contains(self.nodes@[self.root@].inputs@[name@]@)),
            },
    {
        match self.get_root_input_label(name) {
            Some(label) => self.nodes.get(label),
            None => None,
        }
    }

    /// The names of the root inputs, in order.
    pub fn root_input_names(&self) -> (r: Vec<String>)
        requires
            self.wf(),
        ensures
            views_of(r@) == (if self.nodes@.dom().contains(self.root@) {
                self.nodes@[self.root@].inputs.keys()
            } else {
                Seq::empty()
            }),
    {
        match self.root_node() {
            Some(root) => root.inputs.key_list(),
            None => {
                let v: Vec<String> = Vec::new();
                assert(views_of(v@) =~= Seq::<Seq<char>>::empty());
                v
            },
        }
    }

    /// Removes a root input, then every node no longer reachable from the root.
    /// Returns whether the input was there.
    pub fn remove_root_input(&mut self, name: &str) -> (removed: bool)
        requires
            old(self).wf(),
        ensures
            final(self).wf(),
            final(self).root == old(self).root,
            removed == (old(self).nodes@.dom().contains(old(self).root@) && old(self).nodes@[old(self).root@].inputs@.dom().contains(
                name@,
            )),
            !removed ==> final(self).nodes@ == old(self).nodes@,
            removed ==> final(self).nodes@.dom() == old(self).nodes@.dom().filter(
                |x: Seq<char>| final(self).reachable_labels().contains(x),
            ),
            removed ==> final(self).nodes@[old(self).root@].inputs@ == old(self).nodes@[old(self).root@].inputs@.remove(name@),
            removed ==> final(self).nodes@.dom().contains(final(self).root@),
            removed ==> forall|x: Seq<char>| #[trigger] final(self).nodes@.dom().contains(x) && x != old(self).root@
                ==> final(self).nodes@[x] == old(self).nodes@[x],
            final(self).version == old(self).version,
    {
        let root = self.root.clone();
        let had = match self.nodes.get(root.as_str()) {
            Some(r) => r.inputs.contains_key(name),
            None => false,
        };
        if had {
            if let Some(r) = self.nodes.get_mut(root.as_str()) {
                r.inputs.remove(name);
            }
            let ghost mid = self.nodes@;
            self.remove_orphaned_nodes();
            proof {
                assert(self.nodes@.dom().contains(self.root@)) by {
                    assert(lock_path(mid, seq![self.root@]));
                }
            }
            true
        } else {
            false
        }
    }

    /// The labels reachable from the root.
    fn collect_reachable_nodes(&self) -> (r: StrSet)
        requires
            self.wf(),
        ensures
            r.wf(),
            forall|x: Seq<char>| #[trigger] r@.dom().contains(x) <==> lock_reachable(self.nodes@, self.root@, x),
    {
        let mut reachable = StrSet::new();
        let mut stack: Vec<String> = Vec::new();
        stack.push(self.root.clone());
        let ghost nodes = self.nodes@;
        let ghost uni = self.label_universe();
        proof {
            seq_to_set_is_finite(self.nodes.keys() + all_labels(self.nodes.pairs()) + seq![self.root@]);
            let a = self.nodes.keys() + all_labels(self.nodes.pairs());
            assert((a + seq![self.root@])[a.len() as int] == self.root@);
            assert(lock_path(nodes, seq![self.root@]));
            assert(reachable@.dom() =~= Set::<Seq<char>>::empty());
            assert(views_of(stack@)[0] == self.root@);
        }
        while stack.len() > 0
            invariant
                self.wf(),
                nodes == self.nodes@,
                uni == self.label_universe(),
                uni.finite(),
                reachable.wf(),
                reachable@.dom().subset_of(uni),
                forall|x: Seq<char>| #[trigger] views_of(stack@).contains(x) ==> uni.contains(x),
                forall|x: Seq<char>| #[trigger] reachable@.dom().contains(x) ==> lock_reachable(nodes, self.root@, x),
                forall|x: Seq<char>| #[trigger] views_of(stack@).contains(x) ==> lock_reachable(nodes, self.root@, x),
                reachable@.dom().contains(self.root@) || views_of(stack@).contains(self.root@),
                forall|u: Seq<char>, v: Seq<char>| #[trigger] reachable@.dom().contains(u) && #[trigger] lock_edge(nodes, u, v)
                    ==> reachable@.dom().contains(v) || views_of(stack@).contains(v),
            decreases uni.len() - reachable@.dom().len(), stack@.len(),
        {
            let ghost st0 = views_of(stack@);
            let label = stack.pop().unwrap();
            let ghost sp = views_of(stack@);
            proof {
                assert(st0.contains(label@)) by {
                    assert(st0[st0.len() - 1] == label@);
                }
                assert(views_of(stack@) =~= st0.drop_last());
                lemma_len_subset(reachable@.dom(), uni);
            }
            if !reachable.contains_key(label.as_str()) {
                let ghost r0 = reachable@.dom();
                reachable.insert(label.clone(), ());
                proof {
                    lemma_len_subset(reachable@.dom(), uni);
                    assert(reachable@.dom() =~= r0.insert(label@));
                }
                if let Some(node) = self.nodes.get(label.as_str()) {
                    let ghost st1 = views_of(stack@);
                    let n = node.inputs.len();
                    let mut j: usize = 0;
                    proof {
                        node.inputs.lemma_view();
                    }
                    while j < n
                        invariant
                            self.wf(),
                            nodes == self.nodes@,
                            uni == self.label_universe(),
                            nodes.dom().contains(label@),
                            *node == nodes[label@],
                            node.inputs.wf(),
                            n == node.inputs.keys().len(),
                            j <= n,
                            views_of(stack@).len() >= st1.len(),
                            forall|x: Seq<char>| #[trigger] st1.contains(x) ==> views_of(stack@).contains(x),
                            forall|x: Seq<char>| #[trigger] views_of(stack@).contains(x) ==> st1.contains(x) || lock_edge(
                                nodes,
                                label@,
                                x,
                            ),
                            forall|t: int| 0 <= t < j ==> #[trigger] views_of(stack@).contains(node.inputs.pairs()[t].1@),
                        decreases n - j,
                    {
                        proof {
                            node.inputs.lemma_view();
                        }
                        let (_, dep) = node.inputs.entry_at(j);
                        let ghost sv = views_of(stack@);
                        stack.push(dep.clone());
                        proof {
                            assert(views_of(stack@) =~= sv.push(dep@));
                            assert(views_of(stack@)[sv.len() as int] == dep@);
                            assert forall|x: Seq<char>| #[trigger] views_of(stack@).contains(x) implies st1.contains(x)
                                || lock_edge(nodes, label@, x) by {
                                if x == dep@ {
                                    let k = node.inputs.keys()[j as int];
                                    assert(node.inputs@.dom().contains(k));
                                    assert(nodes[label@].inputs@.dom().contains(k));
                                    assert(nodes[label@].inputs@[k]@ == x);
                                    assert(lock_edge(nodes, label@, x));
                                } else {
                                    let m = choose|m: int| 0 <= m < views_of(stack@).len() && views_of(stack@)[m] == x;
                                    assert(m < sv.len());
                                    assert(sv[m] == x);
                                    assert(sv.contains(x));
                                }
                            }
                            assert forall|x: Seq<char>| #[trigger] st1.contains(x) implies views_of(stack@).contains(x) by {
                                let m = choose|m: int| 0 <= m < sv.len() && sv[m] == x;
                                assert(views_of(stack@)[m] == x);
                            }
                            assert forall|t: int| 0 <= t < j + 1 implies #[trigger] views_of(stack@).contains(
                                node.inputs.pairs()[t].1@,
                            ) by {
                                if t < j {
                                    assert(sv.contains(node.inputs.pairs()[t].1@));
                                    let m = choose|m: int| 0 <= m < sv.len() && sv[m] == node.inputs.pairs()[t].1@;
                                    assert(views_of(stack@)[m] == sv[m]);
                                }
                            }
                        }
                        j = j + 1;
                    }
                    proof {
                        node.inputs.lemma_view();
                        // every new stack entry is reachable and in the universe
                        assert forall|x: Seq<char>| #[trigger] views_of(stack@).contains(x) implies lock_reachable(
                            nodes,
                            self.root@,
                            x,
                        ) && uni.contains(x) by {
                            if st1.contains(x) {
                                assert(st0.contains(x)) by {
                                    let m = choose|m: int| 0 <= m < st1.len() && st1[m] == x;
                                    assert(st0[m] == x);
                                }
                                assert(lock_reachable(nodes, self.root@, x));
                                assert(uni.contains(x));
                            } else {
                                assert(lock_edge(nodes, label@, x));
                                let k = choose|k: Seq<char>| #[trigger] nodes[label@].inputs@.dom().contains(k)
                                    && nodes[label@].inputs@[k]@ == x;
                                self.lemma_edge_in_universe(label@, k);
                                assert(lock_reachable(nodes, self.root@, label@));
                                let p = choose|p: Seq<Seq<char>>| #[trigger] lock_path(nodes, p) && p[0] == self.root@
                                    && p.last() == label@;
                                let q = p.push(x);
                                assert(lock_path(nodes, q)) by {
                                    assert forall|i: int| 0 <= i < q.len() - 1 implies #[trigger] lock_edge(
                                        nodes,
                                        q[i],
                                        q[i + 1],
                                    ) by {
                                        if i < p.len() - 1 {
                                            assert(lock_edge(nodes, p[i], p[i + 1]));
                                        } else {
                                            assert(q[i] == label@);
                                            assert(q[i + 1] == x);
                                        }
                                    }
                                }
                                assert(q[0] == self.root@ && q.last() == x);
                            }
                        }
                        assert forall|v: Seq<char>| #[trigger] lock_edge(nodes, label@, v) implies views_of(
                            stack@,
                        ).contains(v) by {
                            let k = choose|k: Seq<char>| #[trigger] nodes[label@].inputs@.dom().contains(k)
                                && nodes[label@].inputs@[k]@ == v;
                            let t = choose|t: int| 0 <= t < node.inputs.keys().len() && node.inputs.keys()[t] == k;
                            assert(node.inputs@[node.inputs.keys()[t]] == node.inputs.pairs()[t].1);
                        }
                        assert forall|u: Seq<char>, v: Seq<char>| #[trigger] reachable@.dom().contains(u) && #[trigger] lock_edge(
                            nodes,
                            u,
                            v,
                        ) implies reachable@.dom().contains(v) || views_of(stack@).contains(v) by {
                            if u != label@ && !r0.contains(v) && v != label@ {
                                assert(r0.contains(u));
                                assert(st0.contains(v));
                                let m = choose|m: int| 0 <= m < st0.len() && st0[m] == v;
                                assert(m < st0.len() - 1);
                                assert(st1[m] == v);
                                assert(st1.contains(v));
                            }
                        }
                    }
                } else {
                    proof {
                        assert forall|u: Seq<char>, v: Seq<char>| #[trigger] reachable@.dom().contains(u) && #[trigger] lock_edge(
                            nodes,
                            u,
                            v,
                        ) implies reachable@.dom().contains(v) || views_of(stack@).contains(v) by {
                            if u != label@ && !r0.contains(v) && v != label@ {
                                assert(st0.contains(v));
                                let m = choose|m: int| 0 <= m < st0.len() && st0[m] == v;
                                if m < st0.len() - 1 {
                                    assert(views_of(stack@)[m] == v);
                                }
                            }
                        }
                        assert forall|x: Seq<char>| #[trigger] views_of(stack@).contains(x) implies lock_reachable(
                            nodes,
                            self.root@,
                            x,
                        ) && uni.contains(x) by {
                            let m = choose|m: int| 0 <= m < views_of(stack@).len() && views_of(stack@)[m] == x;
                            assert(st0[m] == x);
                            assert(st0.contains(x));
                            assert(lock_reachable(nodes, self.root@, x));
                            assert(uni.contains(x));
                        }
                    }
                }
                proof {
                    if !reachable@.dom().contains(self.root@) {
                        assert(label@ != self.root@);
                        assert(!r0.contains(self.root@));
                        assert(st0.contains(self.root@));
                        let m = choose|m: int| 0 <= m < st0.len() && st0[m] == self.root@;
                        assert(st0[st0.len() - 1] == label@);
                        assert(m < st0.len() - 1);
                        assert(sp[m] == self.root@);
                        assert(sp.contains(self.root@));
                    }
                }
            } else {
                proof {
                    assert forall|u: Seq<char>, v: Seq<char>| #[trigger] reachable@.dom().contains(u) && #[trigger] lock_edge(
                        nodes,
                        u,
                        v,
                    ) implies reachable@.dom().contains(v) || views_of(stack@).contains(v) by {
                        if !reachable@.dom().contains(v) {
                            let m = choose|m: int| 0 <= m < st0.len() && st0[m] == v;
                            assert(views_of(stack@)[m] == v);
                        }
                    }
                    assert forall|x: Seq<char>| #[trigger] views_of(stack@).contains(x) implies lock_reachable(
                        nodes,
                        self.root@,
                        x,
                    ) && uni.contains(x) by {
                        let m = choose|m: int| 0 <= m < views_of(stack@).len() && views_of(stack@)[m] == x;
                        assert(st0[m] == x);
                        assert(st0.contains(x));
                        assert(lock_reachable(nodes, self.root@, x));
                        assert(uni.contains(x));
                    }
                    if !reachable@.dom().contains(self.root@) {
                        let m = choose|m: int| 0 <= m < st0.len() && st0[m] == self.root@;
                        assert(views_of(stack@)[m] == self.root@);
                    }
                }
            }
        }
        proof {
            assert forall|x: Seq<char>| lock_reachable(nodes, self.root@, x) implies #[trigger] reachable@.dom().contains(x) by {
                let p = choose|p: Seq<Seq<char>>| #[trigger] lock_path(nodes, p) && p[0] == self.root@ && p.last() == x;
                lemma_closed_contains_path(nodes, reachable@.dom(), p);
            }
        }
        reachable
    }

    /// Removes every node not reachable from the root; returns how many were removed.
    pub fn remove_orphaned_nodes(&mut self) -> (removed: usize)
        requires
            old(self).wf(),
        ensures
            final(self).wf(),
            final(self).root == old(self).root,
            final(self).version == old(self).version,
            final(self).nodes@ == old(self).nodes@.restrict(old(self).reachable_labels()),
            final(self).reachable_labels() == old(self).reachable_labels(),
            removed == old(self).nodes@.dom().len() - final(self).nodes@.dom().len(),
    {
        let reachable = self.collect_reachable_nodes();
        let all = self.nodes.key_list();
        let ghost n0 = self.nodes@;
        let ghost rl = self.reachable_labels();
        let mut removed: usize = 0;
        let mut i: usize = 0;
        proof {
            self.nodes.lemma_view();
        }
        while i < all.len()
            invariant
                self.wf(),
                old(self).wf(),
                self.root == old(self).root,
                self.version == old(self).version,
                n0 == old(self).nodes@,
                rl == old(self).reachable_labels(),
                reachable.wf(),
                forall|x: Seq<char>| #[trigger] reachable@.dom().contains(x) <==> rl.contains(x),
                views_of(all@) == old(self).nodes.keys(),
                i <= all@.len(),
                self.nodes@.dom().subset_of(n0.dom()),
                forall|x: Seq<char>| #[trigger] self.nodes@.dom().contains(x) ==> self.nodes@[x] == n0[x],
                forall|t: int| i <= t < all@.len() ==> #[trigger] self.nodes@.dom().contains(views_of(all@)[t]),
                forall|x: Seq<char>| #[trigger] n0.dom().contains(x) && !self.nodes@.dom().contains(x) ==> !rl.contains(x),
                forall|t: int| 0 <= t < i ==> (#[trigger] self.nodes@.dom().contains(views_of(all@)[t]) <==> rl.contains(views_of(all@)[t])),
                removed as int == n0.dom().len() - self.nodes@.dom().len(),
                n0.dom().finite(),
                self.nodes@.dom().finite(),
            decreases all@.len() - i,
        {
            proof {
                old(self).nodes.lemma_view();
                self.nodes.lemma_view();
                assert(views_of(all@)[i as int] == all@[i as int]@);
            }
            if !reachable.contains_key(all[i].as_str()) {
                let ghost before = self.nodes@;
                self.nodes.remove(all[i].as_str());
                proof {
                    assert(before.dom().contains(all@[i as int]@));
                    assert(self.nodes@.dom() =~= before.dom().remove(all@[i as int]@));
                    assert(before.dom().len() > 0);
                }
                removed = removed + 1;
                proof {
                    assert forall|t: int| i < t < all@.len() implies #[trigger] self.nodes@.dom().contains(views_of(all@)[t]) by {
                        old(self).nodes.lemma_view();
                        assert(views_of(all@)[t] != views_of(all@)[i as int]);
                        assert(before.dom().contains(views_of(all@)[t]));
                    }
                }
            }
            i = i + 1;
        }
        proof {
            old(self).nodes.lemma_view();
            assert forall|x: Seq<char>| #[trigger] self.nodes@.dom().contains(x) <==> old(self).nodes@.restrict(rl).dom().contains(x) by {
                if n0.dom().contains(x) {
                    let t = choose|t: int| 0 <= t < old(self).nodes.keys().len() && old(self).nodes.keys()[t] == x;
                    assert(views_of(all@)[t] == x);
                }
            }
            assert(self.nodes@ =~= old(self).nodes@.restrict(rl));
            lemma_reachable_restrict(n0, old(self).root@, rl);
            assert(self.reachable_labels() =~= rl);
        }
        removed
    }
}

/// A set holding the start of a walk and closed under edges holds the whole walk.
proof fn lemma_closed_contains_path(nodes: Map<Seq<char>, LockNode>, s: Set<Seq<char>>, p: Seq<Seq<char>>)
    requires
        lock_path(nodes, p),
        s.contains(p[0]),
        forall|u: Seq<char>, v: Seq<char>| #[trigger] s.contains(u) && #[trigger] lock_edge(nodes, u, v) ==> s.contains(v),
    ensures
        s.contains(p.last()),
    decreases p.len(),
{
    if p.len() > 1 {
        let q = p.drop_last();
        assert forall|i: int| 0 <= i < q.len() - 1 implies #[trigger] lock_edge(nodes, q[i], q[i + 1]) by {
            assert(lock_edge(nodes, p[i], p[i + 1]));
        }
        lemma_closed_contains_path(nodes, s, q);
        let i = p.len() - 2;
        assert(lock_edge(nodes, p[i], p[i + 1]));
        assert(q.last() == p[i]);
    }
}

/// Dropping unreachable nodes does not change what is reachable.
proof fn lemma_reachable_restrict(nodes: Map<Seq<char>, LockNode>, root: Seq<char>, rl: Set<Seq<char>>)
    requires
        forall|x: Seq<char>| #[trigger] rl.contains(x) <==> lock_reachable(nodes, root, x),
    ensures
        forall|x: Seq<char>| #[trigger] lock_reachable(nodes.restrict(rl), root, x) <==> lock_reachable(nodes, root, x),
{
    let r = nodes.restrict(rl);
    assert forall|x: Seq<char>| #[trigger] lock_reachable(r, root, x) implies lock_reachable(nodes, root, x) by {
        let p = choose|p: Seq<Seq<char>>| #[trigger] lock_path(r, p) && p[0] == root && p.last() == x;
        assert forall|i: int| 0 <= i < p.len() - 1 implies #[trigger] lock_edge(nodes, p[i], p[i + 1]) by {
            assert(lock_edge(r, p[i], p[i + 1]));
            let k = choose|k: Seq<char>| #[trigger] r[p[i]].inputs@.dom().contains(k) && r[p[i]].inputs@[k]@ == p[i + 1];
            assert(nodes[p[i]].inputs@.dom().contains(k));
        }
        assert(lock_path(nodes, p));
    }
    assert forall|x: Seq<char>| #[trigger] lock_reachable(nodes, root, x) implies lock_reachable(r, root, x) by {
        let p = choose|p: Seq<Seq<char>>| #[trigger] lock_path(nodes, p) && p[0] == root && p.last() == x;
        assert forall|i: int| 0 <= i < p.len() - 1 implies #[trigger] lock_edge(r, p[i], p[i + 1]) by {
            assert(lock_edge(nodes, p[i], p[i + 1]));
            let pre = p.subrange(0, i + 1);
            assert forall|j: int| 0 <= j < pre.len() - 1 implies #[trigger] lock_edge(nodes, pre[j], pre[j + 1]) by {
                assert(lock_edge(nodes, p[j], p[j + 1]));
            }
            assert(lock_path(nodes, pre));
            assert(pre.last() == p[i]);
            assert(rl.contains(p[i]));
            let k = choose|k: Seq<char>| #[trigger] nodes[p[i]].inputs@.dom().contains(k) && nodes[p[i]].inputs@[k]@ == p[i + 1];
            assert(r[p[i]].inputs@.dom().contains(k));
        }
        assert(lock_path(r, p));
    }
}

/// A lock file of any supported version; it reads and writes the latest format.
#[derive(Debug, Clone, PartialEq)]
pub struct LockFile {
    inner: LockFileV1,
}

impl LockFile {
    /// The underlying V1 structure.
    pub closed spec fn v1(&self) -> LockFileV1 {
        self.inner
    }

    /// The lock file is well formed.
    pub open spec fn wf(&self) -> bool {
        self.v1().wf()
    }

    /// The locked input named `name`: its root entry points at a node that is not a root node.
    pub open spec fn spec_get(&self, name: Seq<char>) -> Option<LockNode> {
        let l = self.v1();
        if l.nodes@.dom().contains(l.root@) && l.nodes@[l.root@].inputs@.dom().contains(name) && l.nodes@.dom().contains(
            l.nodes@[l.root@].inputs@[name]@,
        ) && !l.nodes@[l.nodes@[l.root@].inputs@[name]@].spec_is_root() {
            Some(l.nodes@[l.nodes@[l.root@].inputs@[name]@])
        } else {
            None
        }
    }

    /// A new empty lock file.
    pub fn new() -> (l: Self)
        ensures
            l.wf(),
            l.v1().version == LOCK_VERSION,
            l.v1().root@ == ROOT_NODE_LABEL@,
            l.v1().nodes@.dom() == set![ROOT_NODE_LABEL@],
            l.v1().nodes@[ROOT_NODE_LABEL@].inputs@ == Map::<Seq<char>, String>::empty(),
    {
        LockFile { inner: LockFileV1::new() }
    }

    /// A lock file from a V1 structure.
    pub fn from_v1(v1: LockFileV1) -> (l: Self)
        ensures
            l.v1() == v1,
    {
        LockFile { inner: v1 }
    }

    /// The underlying V1 structure.
    pub fn as_v1(&self) -> (r: &LockFileV1)
        ensures
            *r == self.v1(),
    {
        &self.inner
    }

    /// A mutable reference to the underlying V1 structure.
    pub fn as_v1_mut(&mut self) -> (r: &mut LockFileV1)
        ensures
            *r == old(self).v1(),
            final(self).v1() == *final(r),
    {
        &mut self.inner
    }

    /// The locked input of a root input, as a flat entry (missing fields empty).
    pub fn get(&self, name: &str) -> (r: Option<LockedInput>)
        requires
            self.wf(),
        ensures
            match r {
                Some(li) => self.spec_get(name@) matches Some(n) && li.type_@ == opt_view(n.type_) && li.url@
                    == opt_view(n.url) && li.rev@ == opt_view(n.rev) && li.last_modified == n.last_modified,
                None => self.spec_get(name@) is None,
            },
    {
        match self.inner.get_root_input(name) {
            Some(node) => {
                if node.is_root() {
                    None
                } else {
                    Some(
                        LockedInput {
                            type_: opt_string(&node.type_),
                            url: opt_string(&node.url),
                            rev: opt_string(&node.rev),
                            last_modified: node.last_modified,
                        },
                    )
                }
            },
            None => None,
        }
    }

    /// Inserts or updates a root input.
    pub fn insert(&mut self, name: String, input: LockedInput)
        requires
            old(self).wf(),
        ensures
            final(self).wf(),
            final(self).v1().root == old(self).v1().root,
            final(self).v1().nodes@.dom() == old(self).v1().nodes@.dom().insert(
                store_label(name@, input.url@, input.rev@),
            ),
            final(self).v1().version == old(self).v1().version,
            store_label(name@, input.url@, input.rev@).len() == name@.len() + STORE_HASH_LEN + 1,
            old(self).v1().nodes@.dom().contains(old(self).v1().root@) ==> {
                let o = old(self).v1().nodes@[old(self).v1().root@];
                let f = final(self).v1().nodes@[old(self).v1().root@];
                &&& f.inputs@.dom() == o.inputs@.dom().insert(name@)
                &&& f.inputs@[name@]@ == store_label(name@, input.url@, input.rev@)
                &&& forall|n: Seq<char>| #[trigger] o.inputs@.dom().contains(n) && n != name@ ==> f.inputs@[n] == o.inputs@[n]
                &&& f.type_ == o.type_ && f.url == o.url && f.rev == o.rev && f.last_modified == o.last_modified
            },
            old(self).v1().nodes@.dom().contains(store_label(name@, input.url@, input.rev@))
                && store_label(name@, input.url@, input.rev@) != old(self).v1().root@
                ==> final(self).v1().nodes@[store_label(name@, input.url@, input.rev@)] == old(self).v1().nodes@[store_label(name@, input.url@, input.rev@)],
            forall|k: Seq<char>| #[trigger] old(self).v1().nodes@.dom().contains(k) && k != old(self).v1().root@
                && k != store_label(name@, input.url@, input.rev@) ==> final(self).v1().nodes@[k] == old(self).v1().nodes@[k],
            old(self).v1().nodes@.dom().contains(old(self).v1().root@) && !old(self).v1().nodes@.dom().contains(
                store_label(name@, input.url@, input.rev@),
            ) ==> (final(self).spec_get(name@) matches Some(n) && opt_view(n.type_) == input.type_@ && opt_view(n.url)
                == input.url@ && opt_view(n.rev) == input.rev@ && n.last_modified == input.last_modified),
    {
        self.inner.add_root_input(name.as_str(), input.url.as_str(), input.rev.as_str(), input.type_.as_str(), input.last_modified);
    }

    /// The names of the root inputs, in order.
    pub fn input_names(&self) -> (r: Vec<String>)
        requires
            self.wf(),
        ensures
            views_of(r@) == (if self.v1().nodes@.dom().contains(self.v1().root@) {
                self.v1().nodes@[self.v1().root@].inputs.keys()
            } else {
                Seq::empty()
            }),
    {
        self.inner.root_input_names()
    }

    /// The root inputs that resolve to a locked input, by name.
    pub fn inputs(&self) -> (m: StrMap<LockedInput>)
        requires
            self.wf(),
        ensures
            m.wf(),
            forall|k: Seq<char>| #[trigger] m@.dom().contains(k) <==> self.spec_get(k) is Some,
            forall|k: Seq<char>| #[trigger] m@.dom().contains(k) ==> {
                let n = self.spec_get(k)->Some_0;
                &&& m@[k].type_@ == opt_view(n.type_)
                &&& m@[k].url@ == opt_view(n.url)
                &&& m@[k].rev@ == opt_view(n.rev)
                &&& m@[k].last_modified == n.last_modified
            },
    {
        let names = self.inner.root_input_names();
        let ghost ks = views_of(names@);
        let mut map: StrMap<LockedInput> = StrMap::new();
        let mut i: usize = 0;
        while i < names.len()
            invariant
                self.wf(),
                ks == views_of(names@),
                ks == (if self.v1().nodes@.dom().contains(self.v1().root@) {
                    self.v1().nodes@[self.v1().root@].inputs.keys()
                } else {
                    Seq::empty()
                }),
                i <= names@.len(),
                map.wf(),
                forall|k: Seq<char>| #[trigger] map@.dom().contains(k) ==> self.spec_get(k) is Some && ks.take(i as int).contains(k),
                forall|t: int| 0 <= t < i ==> (self.spec_get(#[trigger] ks[t]) is Some ==> map@.dom().contains(ks[t])),
                forall|k: Seq<char>| #[trigger] map@.dom().contains(k) ==> {
                    let n = self.spec_get(k)->Some_0;
                    &&& map@[k].type_@ == opt_view(n.type_)
                    &&& map@[k].url@ == opt_view(n.url)
                    &&& map@[k].rev@ == opt_view(n.rev)
                    &&& map@[k].last_modified == n.last_modified
                },
            decreases names@.len() - i,
        {
            proof {
                assert(ks[i as int] == names@[i as int]@);
                assert(ks.take(i + 1) =~= ks.take(i as int).push(ks[i as int]));
            }
            if let Some(input) = self.get(names[i].as_str()) {
                map.insert(names[i].clone(), input);
            }
            proof {
                assert forall|k: Seq<char>| #[trigger] map@.dom().contains(k) implies self.spec_get(k) is Some && ks.take(
                    i + 1,
                ).contains(k) by {
                    if k != ks[i as int] {
                        let t = choose|t: int| 0 <= t < ks.take(i as int).len() && ks.take(i as int)[t] == k;
                        assert(ks.take(i + 1)[t] == k);
                    } else {
                        assert(ks.take(i + 1)[i as int] == k);
                    }
                }
            }
            i = i + 1;
        }
        proof {
            assert forall|k: Seq<char>| self.spec_get(k) is Some implies #[trigger] map@.dom().contains(k) by {
                let l = self.v1();
                l.nodes@[l.root@].inputs.lemma_view();
                let t = choose|t: int| 0 <= t < ks.len() && ks[t] == k;
            }
            assert forall|k: Seq<char>| #[trigger] map@.dom().contains(k) implies self.spec_get(k) is Some by {}
        }
        map
    }

    /// Removes a root input (and the nodes no longer reachable); returns whether it was there.
    pub fn remove(&mut self, name: &str) -> (removed: bool)
        requires
            old(self).wf(),
        ensures
            final(self).wf(),
            removed == (old(self).v1().nodes@.dom().contains(old(self).v1().root@) && old(self).v1().nodes@[old(self).v1().root@].inputs@.dom().contains(name@)),
            !removed ==> final(self).v1().nodes@ == old(self).v1().nodes@,
            removed ==> final(self).v1().nodes@.dom() == old(self).v1().nodes@.dom().filter(
                |x: Seq<char>| final(self).v1().reachable_labels().contains(x),
            ),
            final(self).v1().root == old(self).v1().root,
            removed ==> final(self).v1().nodes@[old(self).v1().root@].inputs@ == old(self).v1().nodes@[old(self).v1().root@].inputs@.remove(name@),
            removed ==> final(self).v1().nodes@.dom().contains(final(self).v1().root@),
            removed ==> forall|x: Seq<char>| #[trigger] final(self).v1().nodes@.dom().contains(x) && x != old(self).v1().root@
                ==> final(self).v1().nodes@[x] == old(self).v1().nodes@[x],
            final(self).v1().version == old(self).v1().version,
            final(self).spec_get(name@) is None,
    {
        self.inner.remove_root_input(name)
    }
}

/// Removing orphaned nodes twice removes nothing the second time: once only
/// the nodes reachable from the root are left, they all stay.
pub proof fn lemma_remove_orphans_idempotent(before: LockFileV1, after: LockFileV1)
    requires
        after.nodes@ == before.nodes@.restrict(before.reachable_labels()),
        after.reachable_labels() == before.reachable_labels(),
    ensures
        after.nodes@.restrict(after.reachable_labels()) == after.nodes@,
{
    assert(after.nodes@.restrict(after.reachable_labels()) =~= after.nodes@);
}

/// The view of an optional string, empty when absent.
pub open spec fn opt_view(o: Option<String>) -> Seq<char> {
    match o {
        Some(s) => s@,
        None => Seq::empty(),
    }
}

/// A copy of an optional string, empty when absent.
fn opt_string(o: &Option<String>) -> (r: String)
    ensures
        r@ == opt_view(*o),
{
    match o {
        Some(s) => s.clone(),
        None => String::new(),
    }
}

/// Errors of lock file operations.
#[derive(Debug)]
pub enum LockError {
    /// The file could not be read.
    Read(String),
    /// The file could not be written.
    Write(String),
    /// The file is not valid lock file JSON.
    Parse(String),
    /// The lock file could not be serialized.
    Serialize(String),
    /// The file has a version this library does not read.
    UnsupportedVersion(u32),
}

/// Accepts a lock file only in the current format version (a missing version reads as 0).
pub fn check_lock_version(version: u32) -> (r: Result<(), LockError>)
    ensures
        r is Ok <==> version == LOCK_VERSION,
        r matches Err(e) ==> e matches LockError::UnsupportedVersion(v) && v == version,
{
    if version != LOCK_VERSION {
        Err(LockError::UnsupportedVersion(version))
    } else {
        Ok(())
    }
}

/// The lock file of a directory: `{dir}/syslua.lock`.
pub fn lock_file_path(dir: &str) -> (r: String)
    ensures
        r@ == path_join(dir@, LOCK_FILENAME@),
{
    join_path(dir, LOCK_FILENAME)
}

/// An input's own lock file, given the outcome of loading `{input}/syslua.lock`:
/// a lock file that could not be read or parsed counts as absent, so the
/// input's dependencies float.
pub fn load_input_lock(loaded: Result<Option<LockFile>, LockError>) -> (r: Option<LockFile>)
    ensures
        r == (match loaded {
            Ok(Some(l)) => Some(l),
            _ => None,
        }),
{
    match loaded {
        Ok(Some(lock)) => Some(lock),
        _ => None,
    }
}

} // verus!
