//! Input resolution.
//!
//! Inputs are resolved in waves: every graph node that has a URL and has not
//! been processed is resolved (a git fetch or a local path), its own declared
//! inputs are added to the graph as transitive dependencies, and this repeats
//! until no new dependency appears. The decisions of each step are made here;
//! the fetching, file reading and Lua evaluation between them happen outside.
//!
//! For each input:
//! - if the lock file pins it under a different URL, resolution fails unless
//!   the input is being force-updated;
//! - a revision given in the URL wins, else the locked revision, else the latest;
//! - new inputs, forced updates and changed revisions are written to the lock file.
//!
//! For a transitive dependency, a `follows` or URL override of the parent
//! comes first, then the parent input's own lock file, then its declaration.
use vstd::prelude::*;
use crate::strmap::{StrMap, StrSet, compare_str};
use crate::text::{compare_str_eq, has_prefix, starts_with, first_index_of, find_first_char, char_len, char_substring, concat_str, child_path};
use super::types::{InputDecl, InputOverride, LockNode, LuaNamespace, ResolvedInput};
use super::source::before_char;
use super::lock::{LockFile, LockedInput, opt_view};
use super::graph::{DependencyGraph, GraphNode, GraphError, resolve_all, strings_view, all_follows_decls, ChainFailure};
use super::order::views_of;
use super::store::{StoreError, store_label};
use crate::lua::value::{ReturnedValue, NamedTable, Dialect, parse_decls, decls_error, decls_built};

verus! {

/// The key under which a `follows` override is kept in an overridden declaration.
pub const FOLLOWS_KEY: &'static str = "__follows__";

/// Errors of input resolution.
#[derive(Debug)]
pub enum ResolveError {
    /// An input URL could not be parsed.
    Parse { name: String, message: String },
    /// The lock file pins the input under another URL.
    LockMismatch { name: String, locked_url: String, config_url: String },
    /// An input could not be fetched.
    Fetch { name: String, message: String },
    /// The lock file could not be loaded.
    LoadLock(String),
    /// The lock file could not be saved.
    SaveLock(String),
    /// The dependency graph is inconsistent.
    Graph(GraphError),
    /// A store operation failed.
    Store(StoreError),
    /// An input's declared inputs could not be read.
    ExtractInputs { name: String, message: String },
    /// An input has no URL and its follows target is unresolved.
    NoUrl { name: String, target: String },
    /// Two inputs provide the same Lua namespace from different sources.
    NamespaceConflict(Box<NamespaceConflictError>),
    /// The inputs depend on each other in a cycle.
    CyclicDependency { cycle_path: String },
}

/// Two inputs provide the same Lua namespace from different sources.
#[derive(Debug, Clone, PartialEq, Eq)]
pub struct NamespaceConflictError {
    pub namespace: String,
    pub provider1: String,
    pub url1: String,
    pub rev1: String,
    pub provider2: String,
    pub url2: String,
    pub rev2: String,
}

/// The message of a namespace conflict.
pub open spec fn conflict_text(e: NamespaceConflictError) -> Seq<char> {
    "namespace conflict: '"@ + e.namespace@ + "' provided by:\n  - '"@ + e.provider1@ + "' ("@ + e.url1@ + "@"@ + e.rev1@
        + ")\n  - '"@ + e.provider2@ + "' ("@ + e.url2@ + "@"@ + e.rev2@
        + ")\nAdd a follows override to resolve, or rename one of the directories."@
}

impl NamespaceConflictError {
    /// The message of the conflict, naming the namespace and both providers.
    pub fn to_string(&self) -> (r: String)
        ensures
            r@ == conflict_text(*self),
    {
        let a = "namespace conflict: '";
        let b = "' provided by:\n  - '";
        let c = "' (";
        let d = "@";
        let e = ")\n  - '";
        let f = ")\nAdd a follows override to resolve, or rename one of the directories.";
        let mut s = concat_str(a, self.namespace.as_str());
        s = concat_str(s.as_str(), b);
        s = concat_str(s.as_str(), self.provider1.as_str());
        s = concat_str(s.as_str(), c);
        s = concat_str(s.as_str(), self.url1.as_str());
        s = concat_str(s.as_str(), d);
        s = concat_str(s.as_str(), self.rev1.as_str());
        s = concat_str(s.as_str(), e);
        s = concat_str(s.as_str(), self.provider2.as_str());
        s = concat_str(s.as_str(), c);
        s = concat_str(s.as_str(), self.url2.as_str());
        s = concat_str(s.as_str(), d);
        s = concat_str(s.as_str(), self.rev2.as_str());
        s = concat_str(s.as_str(), f);
        s
    }
}

/// The URL with a revision put in: for `git:` URLs, any `#...` is replaced by
/// `#rev`; other URLs are unchanged.
pub open spec fn injected_url(url: Seq<char>, rev: Seq<char>) -> Seq<char> {
    if has_prefix(url, "git:"@) {
        "git:"@ + before_char(url.skip(4), '#') + "#"@ + rev
    } else {
        url
    }
}

/// The text before the first `c` holds no `c`.
proof fn lemma_before_char_free(s: Seq<char>, c: char)
    ensures
        forall|j: int| 0 <= j < before_char(s, c).len() ==> before_char(s, c)[j] != c,
{
    crate::text::lemma_first_index_of(s, c);
}

/// Putting in a revision again replaces the one put in before: only the last
/// revision counts.
pub proof fn lemma_inject_revision_last_wins(url: Seq<char>, r1: Seq<char>, r2: Seq<char>)
    ensures
        injected_url(injected_url(url, r1), r2) == injected_url(url, r2),
{
    reveal_strlit("git:");
    reveal_strlit("#");
    if has_prefix(url, "git:"@) {
        let a = before_char(url.skip(4), '#');
        let u1 = injected_url(url, r1);
        assert(u1 == "git:"@ + a + "#"@ + r1);
        assert(u1.subrange(0, 4) =~= "git:"@);
        let t = u1.skip(4);
        assert(t =~= a + "#"@ + r1);
        lemma_before_char_free(url.skip(4), '#');
        crate::text::lemma_first_index_of(t, '#');
        let f = first_index_of(t, '#');
        assert(t[a.len() as int] == '#');
        assert forall|j: int| 0 <= j < a.len() implies t[j] != '#' by {
            assert(t[j] == a[j]);
        }
        assert(f == a.len());
        assert(before_char(t, '#') =~= a);
    }
}

/// Puts a revision into a URL (see `injected_url`).
pub fn inject_revision_into_url(url: &str, rev: &str) -> (r: String)
    ensures
        r@ == injected_url(url@, rev@),
{
    let git = "git:";
    let hash = "#";
    proof {
        reveal_strlit("git:");
        reveal_strlit("#");
    }
    if starts_with(url, git) {
        let n = char_len(url);
        let base = char_substring(url, 4, n);
        proof {
            assert(base@ =~= url@.skip(4));
            crate::text::lemma_first_index_of(base@, '#');
        }
        let kept = match find_first_char(base.as_str(), '#') {
            Some(i) => char_substring(base.as_str(), 0, i),
            None => base.clone(),
        };
        let s = concat_str(git, kept.as_str());
        let s = concat_str(s.as_str(), hash);
        concat_str(s.as_str(), rev)
    } else {
        url.to_owned()
    }
}

/// A declaration with an override applied: a URL override replaces the
/// declaration; a follows override keeps only the URL and records the target
/// under `__follows__` (the graph resolves it).
pub fn apply_override(decl: InputDecl, override_: InputOverride) -> (r: InputDecl)
    ensures
        r.wf(),
        match override_ {
            InputOverride::Url(u) => r == InputDecl::Url(u),
            InputOverride::Follows(t) => r matches InputDecl::Extended { url, inputs } && (match url {
                Some(x) => Some(x@),
                None => None,
            }) == decl.spec_url() && inputs@ == map![FOLLOWS_KEY@ => InputOverride::Follows(t)],
        },
{
    match override_ {
        InputOverride::Url(url) => InputDecl::Url(url),
        InputOverride::Follows(target) => {
            let url = match decl.url() {
                Some(u) => Some(u.to_owned()),
                None => None,
            };
            let mut m: StrMap<InputOverride> = StrMap::new();
            m.insert(FOLLOWS_KEY.to_owned(), InputOverride::Follows(target));
            proof {
                assert(m@ =~= map![FOLLOWS_KEY@ => InputOverride::Follows(target)]);
            }
            InputDecl::Extended { url, inputs: m }
        },
    }
}

/// The URL that a lock entry pins: for a path input, its URL; otherwise its
/// URL with its revision put in.
pub open spec fn locked_url(n: LockNode) -> Seq<char> {
    if opt_view(n.type_) == "path"@ {
        opt_view(n.url)
    } else {
        injected_url(opt_view(n.url), opt_view(n.rev))
    }
}

/// A lock entry pins a git dependency to its locked commit: for an entry that
/// is not a path input and whose URL is a `git:` URL, the pinned URL is the
/// locked URL cut before its first `#` (kept whole where it has none), then
/// `#` and the locked revision. So it ends with `#` and the revision, and the
/// part before that holds no `#`: a branch or tag in the locked URL is
/// replaced, never kept.
pub proof fn lemma_locked_url_pins_revision(n: LockNode)
    requires
        opt_view(n.type_) != "path"@,
        has_prefix(opt_view(n.url), "git:"@),
    ensures
        ({
            let url = opt_view(n.url);
            let rev = opt_view(n.rev);
            let u = locked_url(n);
            let k = u.len() - rev.len() - 1;
            &&& 4 <= k <= url.len()
            &&& u.len() == k + 1 + rev.len()
            &&& u.take(k) == url.take(k)
            &&& u[k] == '#'
            &&& u.skip(k + 1) == rev
            &&& (k == url.len() || url[k] == '#')
            &&& forall|j: int| 0 <= j < k ==> url[j] != '#'
        }),
{
    let url = opt_view(n.url);
    let rev = opt_view(n.rev);
    reveal_strlit("git:");
    reveal_strlit("#");
    reveal_strlit("path");
    let t = url.skip(4);
    let a = before_char(t, '#');
    crate::text::lemma_first_index_of(t, '#');
    let u = locked_url(n);
    assert(u == "git:"@ + a + "#"@ + rev);
    let k: int = 4 + a.len() as int;
    assert(u.len() == k + 1 + rev.len());
    assert(url.subrange(0, 4) =~= "git:"@);
    assert(u.take(k) =~= url.take(k)) by {
        assert forall|j: int| 0 <= j < k implies u.take(k)[j] == url.take(k)[j] by {
            if j < 4 {
                assert(u[j] == "git:"@[j]);
                assert(url[j] == url.subrange(0, 4)[j]);
            } else {
                assert(u[j] == a[j - 4]);
                assert(a[j - 4] == t[j - 4]);
                assert(t[j - 4] == url[j]);
            }
        }
    }
    assert(u[k] == '#');
    assert(u.skip(k + 1) =~= rev);
    if first_index_of(t, '#') >= 0 {
        assert(url[k] == t[a.len() as int]);
    } else {
        assert(k == url.len());
    }
    assert forall|j: int| 0 <= j < k implies url[j] != '#' by {
        if j < 4 {
            assert(url[j] == url.subrange(0, 4)[j]);
        } else {
            assert(url[j] == t[j - 4]);
        }
    }
}

/// A transitive dependency's declaration, pinned by the parent input's own lock
/// file: when the lock has an entry for it and the declaration has a URL, the
/// URL is replaced by the locked one (overrides are kept); otherwise the
/// declaration is unchanged.
pub fn apply_input_lock_to_decl(decl: InputDecl, dep_name: &str, lock: &LockFile) -> (r: InputDecl)
    requires
        lock.wf(),
    ensures
        match lock.spec_get(dep_name@) {
            Some(n) if decl.spec_url() is Some => match decl {
                InputDecl::Url(_) => r matches InputDecl::Url(u) && u@ == locked_url(n),
                InputDecl::Extended { inputs, .. } => r matches InputDecl::Extended { url: Some(u), inputs: i } && u@ == locked_url(n)
                    && i == inputs,
            },
            _ => r == decl,
        },
{
    let locked = match lock.get(dep_name) {
        Some(l) => l,
        None => return decl,
    };
    if decl.url().is_none() {
        return decl;
    }
    let path = "path";
    proof {
        reveal_strlit("path");
    }
    let new_url = if compare_str(locked.type_.as_str(), path) == 0 {
        locked.url.clone()
    } else {
        inject_revision_into_url(locked.url.as_str(), locked.rev.as_str())
    };
    match decl {
        InputDecl::Url(_) => InputDecl::Url(new_url),
        InputDecl::Extended { inputs, .. } => InputDecl::Extended { url: Some(new_url), inputs },
    }
}

/// The URL an input is resolved from: the URL of its follows target when it
/// follows a node of the graph, else its own.
pub open spec fn effective_url(g: DependencyGraph, path: Seq<char>, node: GraphNode) -> Option<Seq<char>> {
    if g.follows_resolved@.dom().contains(path) && g.nodes@.dom().contains(g.follows_resolved@[path]@) {
        g.nodes@[g.follows_resolved@[path]@].decl.spec_url()
    } else {
        node.decl.spec_url()
    }
}

/// Finds the URL an input is resolved from (see `effective_url`).
pub fn get_effective_url(graph: &DependencyGraph, path: &str, node: &GraphNode) -> (r: Option<String>)
    requires
        graph.wf(),
    ensures
        match r {
            Some(u) => effective_url(*graph, path@, *node) == Some(u@),
            None => effective_url(*graph, path@, *node) is None,
        },
{
    if let Some(target) = graph.follows_resolved.get(path) {
        if let Some(target_node) = graph.get(target.as_str()) {
            return match target_node.decl.url() {
                Some(u) => Some(u.to_owned()),
                None => None,
            };
        }
    }
    match node.decl.url() {
        Some(u) => Some(u.to_owned()),
        None => None,
    }
}

/// An input that has been resolved: its directory, revision and URL.
#[derive(Debug, Clone, PartialEq, Eq)]
pub struct ResolvedEntry {
    /// Directory of the input.
    pub path: String,
    /// Resolved revision (`local` for path inputs).
    pub rev: String,
    /// The URL it was resolved from.
    pub url: String,
}

/// Every edge of the graph leads to a node with a longer path. The graph
/// built from declarations has this form: a dependency `d` of the node at `p`
/// lives at `p/d`.
pub open spec fn graph_edges_grow(g: DependencyGraph) -> bool {
    forall|u: Seq<char>, v: Seq<char>| #[trigger] g.has_edge(u, v) ==> u.len() < v.len() && g.nodes@.dom().contains(v)
}

/// The state of a resolution between its steps.
pub struct ResolveState {
    /// The dependency graph: the root inputs and the transitive ones found so far.
    pub graph: DependencyGraph,
    /// The lock file, as updated so far.
    pub lock_file: LockFile,
    /// Whether the lock file changed.
    pub lock_changed: bool,
    /// Resolved inputs, by graph path.
    pub resolved_cache: StrMap<ResolvedEntry>,
    /// Graph paths whose dependencies have been looked for.
    pub processed_for_deps: StrSet,
}

/// Whether an input is force-updated: every input when the set is empty,
/// else those named in it by name or by graph path.
pub open spec fn forced(force_update: Option<Set<Seq<char>>>, name: Seq<char>, full_path: Seq<char>) -> bool {
    match force_update {
        None => false,
        Some(s) => s.len() == 0 || s.contains(name) || s.contains(full_path),
    }
}

/// Which inputs a force-update touches: an empty set updates every input,
/// whatever its name or graph path; no set updates none; a non-empty set
/// updates exactly those it names, by name or by graph path.
pub proof fn lemma_force_update_scope(s: Set<Seq<char>>, name: Seq<char>, full_path: Seq<char>)
    ensures
        forced(Some(Set::<Seq<char>>::empty()), name, full_path),
        !forced(None, name, full_path),
        s.finite() && s.len() > 0 ==> (forced(Some(s), name, full_path) <==> (s.contains(name) || s.contains(full_path))),
{
}

/// The nodes still to resolve, in path order: those not yet processed whose
/// effective URL is known, with that URL.
pub open spec fn pending(g: DependencyGraph, processed: Set<Seq<char>>, ps: Seq<(Seq<char>, GraphNode)>) -> Seq<(Seq<char>, Seq<char>)>
    decreases ps.len(),
{
    if ps.len() == 0 {
        Seq::empty()
    } else {
        let rest = pending(g, processed, ps.drop_last());
        let p = ps.last();
        if !processed.contains(p.0) && effective_url(g, p.0, p.1) is Some {
            rest.push((p.0, effective_url(g, p.0, p.1)->Some_0))
        } else {
            rest
        }
    }
}

/// The directory relative paths of an input are resolved against: the config
/// directory for root inputs, the parent input's directory for transitive ones
/// (or the config directory if the parent is not resolved).
pub open spec fn base_dir(g: DependencyGraph, cache: Map<Seq<char>, ResolvedEntry>, full_path: Seq<char>, config_dir: Seq<char>) -> Seq<char> {
    if g.nodes@.dom().contains(full_path) && g.nodes@[full_path].parent_path@.len() != 0 && cache.dom().contains(
        g.nodes@[full_path].parent_path@,
    ) {
        cache[g.nodes@[full_path].parent_path@].path@
    } else {
        config_dir
    }
}

/// Relative paths of a transitive input are taken against its parent input's
/// directory: for a node with a parent path whose parent is resolved, the
/// base directory is the parent's resolved path, the same whatever the
/// configuration directory; a root input's is the configuration directory.
pub proof fn lemma_base_dir_follows_parent(
    g: DependencyGraph,
    cache: Map<Seq<char>, ResolvedEntry>,
    full_path: Seq<char>,
    config_dir: Seq<char>,
    other_dir: Seq<char>,
)
    ensures
        g.nodes@.dom().contains(full_path) && g.nodes@[full_path].parent_path@.len() != 0 && cache.dom().contains(
            g.nodes@[full_path].parent_path@,
        ) ==> base_dir(g, cache, full_path, config_dir) == cache[g.nodes@[full_path].parent_path@].path@
            && base_dir(g, cache, full_path, config_dir) == base_dir(g, cache, full_path, other_dir),
        g.nodes@.dom().contains(full_path) && g.nodes@[full_path].parent_path@.len() == 0 ==> base_dir(
            g,
            cache,
            full_path,
            config_dir,
        ) == config_dir,
{
}

/// What to do to resolve one input.
#[derive(Debug, Clone, PartialEq, Eq)]
pub enum FetchAction {
    /// Fetch a git repository at a revision (the latest when `None`).
    Git { url: String, rev: Option<String> },
    /// Resolve a local path.
    Path { path: String },
}

/// The plan for resolving one input, made before the fetch.
#[derive(Debug, Clone)]
pub struct SingleInputPlan {
    /// The input's name.
    pub name: String,
    /// Its URL.
    pub url: String,
    /// Its graph path, also its key in the lock file.
    pub full_path: String,
    /// Whether it is force-updated.
    pub forced: bool,
    /// Its lock entry, if any.
    pub locked: Option<LockedInput>,
    /// The revision given in the URL, for git inputs.
    pub config_rev: Option<String>,
    /// What to fetch.
    pub action: FetchAction,
}

impl ResolveState {
    /// A step from this state to `next` keeps the lock-file bookkeeping honest:
    /// once the lock file changed it stays marked changed, and while it is not
    /// marked changed it is the lock file this step started from.
    pub open spec fn lock_step_to(self, next: ResolveState) -> bool {
        &&& self.lock_changed ==> next.lock_changed
        &&& !next.lock_changed ==> next.lock_file == self.lock_file
    }

    /// All maps are well formed and the graph has the shape declarations give it.
    pub open spec fn wf(&self) -> bool {
        &&& self.graph.wf()
        &&& graph_edges_grow(self.graph)
        &&& self.lock_file.wf()
        &&& self.resolved_cache.wf()
        &&& self.processed_for_deps.wf()
    }

    /// The state before any input is resolved: the graph of the root
    /// declarations, the loaded lock file, and nothing resolved.
    pub fn new(input_decls: &StrMap<InputDecl>, lock_file: LockFile) -> (st: Self)
        requires
            input_decls.wf(),
            forall|k: Seq<char>| #[trigger] input_decls@.dom().contains(k) ==> input_decls@[k].wf(),
            lock_file.wf(),
        ensures
            st.wf(),
            st.graph.nodes@.dom() == input_decls@.dom(),
            forall|k: Seq<char>| #[trigger] st.graph.nodes@.dom().contains(k) ==> {
                &&& st.graph.nodes@[k].name@ == k
                &&& st.graph.nodes@[k].parent_path@.len() == 0
                &&& st.graph.nodes@[k].decl.same_as(&input_decls@[k])
            },
            st.graph.follows_resolved@ == Map::<Seq<char>, String>::empty(),
            st.lock_file == lock_file,
            !st.lock_changed,
            st.resolved_cache@ == Map::<Seq<char>, ResolvedEntry>::empty(),
            st.processed_for_deps@ == Map::<Seq<char>, ()>::empty(),
    {
        let graph = super::graph::build_initial_graph(input_decls);
        ResolveState {
            graph,
            lock_file,
            lock_changed: false,
            resolved_cache: StrMap::new(),
            processed_for_deps: StrMap::new(),
        }
    }

    /// The nodes to resolve in the next wave, in path order, with their
    /// effective URLs. An empty list ends the resolution.
    pub fn pending_nodes(&self) -> (r: Vec<(String, String)>)
        requires
            self.wf(),
        ensures
            r@.map_values(|e: (String, String)| (e.0@, e.1@)) == pending(
                self.graph,
                self.processed_for_deps@.dom(),
                self.graph.nodes.pairs(),
            ),
    {
        let ghost ps = self.graph.nodes.pairs();
        let ghost pd = self.processed_for_deps@.dom();
        let mut r: Vec<(String, String)> = Vec::new();
        let n = self.graph.nodes.len();
        let mut i: usize = 0;
        proof {
            self.graph.nodes.lemma_view();
            assert(ps.take(0) =~= Seq::<(Seq<char>, GraphNode)>::empty());
        }
        while i < n
            invariant
                self.wf(),
                ps == self.graph.nodes.pairs(),
                pd == self.processed_for_deps@.dom(),
                n == ps.len(),
                i <= n,
                r@.map_values(|e: (String, String)| (e.0@, e.1@)) == pending(self.graph, pd, ps.take(i as int)),
            decreases n - i,
        {
            proof {
                self.graph.nodes.lemma_view();
                assert(ps.take(i + 1).drop_last() =~= ps.take(i as int));
            }
            let (path, node) = self.graph.nodes.entry_at(i);
            proof {
                assert(ps.take(i + 1).last() == ps[i as int]);
                assert(ps[i as int].0 == path@);
            }
            if !self.processed_for_deps.contains_key(path.as_str()) {
                if let Some(url) = get_effective_url(&self.graph, path.as_str(), node) {
                    let ghost before = r@.map_values(|e: (String, String)| (e.0@, e.1@));
                    r.push((path.clone(), url));
                    proof {
                        assert(r@.map_values(|e: (String, String)| (e.0@, e.1@)) =~= before.push((path@, url@)));
                    }
                }
            }
            i = i + 1;
        }
        proof {
            assert(ps.take(n as int) =~= ps);
        }
        r
    }

    /// The directory the relative path of an input is resolved against (see `base_dir`).
    pub fn base_dir_for(&self, full_path: &str, config_dir: &str) -> (r: String)
        requires
            self.wf(),
        ensures
            r@ == base_dir(self.graph, self.resolved_cache@, full_path@, config_dir@),
            self.graph.nodes@.dom().contains(full_path@) && self.graph.nodes@[full_path@].parent_path@.len() != 0
                && self.resolved_cache@.dom().contains(self.graph.nodes@[full_path@].parent_path@)
                ==> r@ == self.resolved_cache@[self.graph.nodes@[full_path@].parent_path@].path@,
    {
        match self.graph.get(full_path) {
            Some(node) => {
                if node.is_root_level() {
                    config_dir.to_owned()
                } else {
                    match self.resolved_cache.get(node.parent_path.as_str()) {
                        Some(parent) => parent.path.clone(),
                        None => config_dir.to_owned(),
                    }
                }
            },
            None => config_dir.to_owned(),
        }
    }

    /// Plans the resolution of one input: parses its URL, refuses a URL that
    /// differs from the locked one (unless force-updated), and chooses what to
    /// fetch. A git input is fetched at the revision in its URL, else (unless
    /// force-updated) at the locked revision, else at the latest.
    pub fn plan_single_input(&self, name: &str, url: &str, full_path: &str, force_update: Option<&StrSet>) -> (r: Result<SingleInputPlan, ResolveError>)
        requires
            self.wf(),
            force_update matches Some(f) ==> f.wf(),
        ensures
            (force_update matches Some(fs) && fs@.dom() == Set::<Seq<char>>::empty()) ==> (r matches Ok(plan) ==> {
                &&& plan.forced
                &&& super::source::spec_parse(url@) matches Ok(p) ==> (p.0 ==> (plan.action matches FetchAction::Git { rev, .. } && (
                match rev {
                    Some(x) => Some(x@),
                    None => None,
                }) == p.2))
            }),
            ({
                let fset = match force_update {
                    Some(f) => Some(f@.dom()),
                    None => None,
                };
                let f = forced(fset, name@, full_path@);
                let locked = self.lock_file.spec_get(full_path@);
                match r {
                    Err(ResolveError::Parse { name: n, .. }) => super::source::spec_parse(url@) is Err && n@ == name@,
                    Err(ResolveError::LockMismatch { name: n, locked_url, config_url }) => {
                        &&& super::source::spec_parse(url@) is Ok
                        &&& !f
                        &&& (locked matches Some(l) && opt_view(l.url) == locked_url@ && locked_url@ != url@)
                        &&& n@ == name@
                        &&& config_url@ == url@
                    },
                    Err(_) => false,
                    Ok(plan) => {
                        &&& super::source::spec_parse(url@) matches Ok(p)
                        &&& (f || !(locked matches Some(l) && opt_view(l.url) != url@))
                        &&& plan.name@ == name@ && plan.url@ == url@ && plan.full_path@ == full_path@
                        &&& plan.forced == f
                        &&& (match plan.locked {
                            Some(li) => locked matches Some(l) && li.url@ == opt_view(l.url) && li.rev@ == opt_view(l.rev)
                                && li.type_@ == opt_view(l.type_),
                            None => locked is None,
                        })
                        &&& (if p.0 {
                            &&& plan.action matches FetchAction::Git { url: gu, rev } && gu@ == p.1
                                && (match rev {
                                    Some(x) => Some(x@),
                                    None => None,
                                }) == (if f {
                                    p.2
                                } else if p.2 is Some {
                                    p.2
                                } else {
                                    match locked {
                                        Some(l) => Some(opt_view(l.rev)),
                                        None => None,
                                    }
                                })
                            &&& (match plan.config_rev {
                                Some(x) => Some(x@),
                                None => None,
                            }) == p.2
                        } else {
                            plan.action matches FetchAction::Path { path } && path@ == p.1 && plan.config_rev is None
                        })
                    },
                }
            }),
    {
        let source = match super::source::parse(url) {
            Ok(s) => s,
            Err(super::source::ParseError::UnknownScheme(u)) => {
                let m = "unknown input URL scheme (expected git: or path:): ";
                return Err(ResolveError::Parse { name: name.to_owned(), message: concat_str(m, u.as_str()) });
            },
        };
        let locked = self.lock_file.get(full_path);
        let forced = match force_update {
            Some(set) => set.is_empty() || set.contains_key(name) || set.contains_key(full_path),
            None => false,
        };
        if !forced {
            if let Some(l) = &locked {
                if compare_str(l.url.as_str(), url) != 0 {
                    return Err(ResolveError::LockMismatch {
                        name: name.to_owned(),
                        locked_url: l.url.clone(),
                        config_url: url.to_owned(),
                    });
                }
            }
        }
        match source {
            super::source::InputSource::Git { url: git_url, rev: config_rev } => {
                let target = if forced {
                    config_rev.clone()
                } else {
                    match &config_rev {
                        Some(r) => Some(r.clone()),
                        None => match &locked {
                            Some(l) => Some(l.rev.clone()),
                            None => None,
                        },
                    }
                };
                Ok(SingleInputPlan {
                    name: name.to_owned(),
                    url: url.to_owned(),
                    full_path: full_path.to_owned(),
                    forced,
                    locked,
                    config_rev,
                    action: FetchAction::Git { url: git_url, rev: target },
                })
            },
            super::source::InputSource::Path { path } => Ok(SingleInputPlan {
                name: name.to_owned(),
                url: url.to_owned(),
                full_path: full_path.to_owned(),
                forced,
                locked,
                config_rev: None,
                action: FetchAction::Path { path },
            }),
        }
    }
}

/// The dependency name of a graph path under `parent` (the inverse of `child_path`).
pub open spec fn child_name(parent: Seq<char>, x: Seq<char>) -> Seq<char> {
    if parent.len() == 0 {
        x
    } else {
        x.skip(parent.len() + 1int)
    }
}

pub proof fn lemma_child_name(parent: Seq<char>, k: Seq<char>)
    ensures
        child_name(parent, child_path(parent, k)) == k,
        child_path(parent, k).len() == (if parent.len() == 0 { k.len() } else { parent.len() + 1 + k.len() }),
{
    if parent.len() > 0 {
        assert((parent + seq!['/'] + k).skip(parent.len() + 1int) =~= k);
    }
}

/// The URL a declared dependency ends up with: a URL override gives its URL;
/// a follows override keeps the declared URL; otherwise the parent input's
/// lock file pins it when it has an entry and the declaration has a URL.
pub open spec fn dep_url(overrides: Option<StrMap<InputOverride>>, lock: Option<LockFile>, k: Seq<char>, d: InputDecl) -> Option<Seq<char>> {
    let pinned = match lock {
        Some(l) => match l.spec_get(k) {
            Some(n) => if d.spec_url() is Some {
                Some(locked_url(n))
            } else {
                d.spec_url()
            },
            None => d.spec_url(),
        },
        None => d.spec_url(),
    };
    match overrides {
        Some(m) => if m@.dom().contains(k) {
            match m@[k] {
                InputOverride::Url(u) => Some(u@),
                InputOverride::Follows(_) => d.spec_url(),
            }
        } else {
            pinned
        },
        None => pinned,
    }
}

/// Precedence of what decides a declared dependency's URL: an override of the
/// parent decides whenever there is one for it, whatever the parent input's own
/// lock file holds (a URL override gives its URL); without one, that lock file
/// pins a declared URL whenever it has an entry of that name; only when neither
/// applies does the declaration itself decide.
pub proof fn lemma_dep_url_precedence(
    overrides: Option<StrMap<InputOverride>>,
    lock: Option<LockFile>,
    other_lock: Option<LockFile>,
    k: Seq<char>,
    d: InputDecl,
)
    ensures
        (overrides matches Some(m) && m@.dom().contains(k)) ==> dep_url(overrides, lock, k, d) == dep_url(
            overrides,
            other_lock,
            k,
            d,
        ),
        overrides matches Some(m) ==> (m@.dom().contains(k) ==> match m@[k] {
            InputOverride::Url(u) => dep_url(overrides, lock, k, d) == Some(u@),
            InputOverride::Follows(_) => dep_url(overrides, lock, k, d) == d.spec_url(),
        }),
        !(overrides matches Some(m) && m@.dom().contains(k)) && (lock matches Some(l) && l.spec_get(k) matches Some(
            n,
        )) && d.spec_url() is Some ==> dep_url(overrides, lock, k, d) == Some(locked_url(lock->0.spec_get(k)->0)),
        !(overrides matches Some(m) && m@.dom().contains(k)) && !(lock matches Some(l) && l.spec_get(k) is Some)
            ==> dep_url(overrides, lock, k, d) == d.spec_url(),
{
}

/// `a` is the graph path `p` itself or a path above it (`p` goes on from `a`
/// with a `/`).
pub open spec fn is_path_or_ancestor(a: Seq<char>, p: Seq<char>) -> bool {
    a == p || has_prefix(p, a + seq!['/'])
}

/// The URLs resolved at the graph path `p` and at the paths above it: a
/// dependency of `p` on one of them would close a cycle.
pub open spec fn ancestor_urls(cache: Map<Seq<char>, ResolvedEntry>, p: Seq<char>) -> Set<Seq<char>> {
    Set::new(
        |u: Seq<char>|
            exists|a: Seq<char>| #[trigger] cache.dom().contains(a) && is_path_or_ancestor(a, p) && cache[a].url@ == u,
    )
}

/// A dependency `k` declared by the input at graph path `parent` is added to
/// the graph unless it would close a cycle: its URL is one resolved at its
/// parent or above, or its graph path is its parent's own (an unnamed
/// dependency of an unnamed input).
pub open spec fn dep_added(above: Set<Seq<char>>, parent: Seq<char>, overrides: Option<StrMap<InputOverride>>, lock: Option<LockFile>, k: Seq<char>, d: InputDecl) -> bool {
    &&& !(dep_url(overrides, lock, k, d) matches Some(u) && above.contains(u))
    &&& child_path(parent, k) != parent
}

/// The overrides a node's declaration gives its dependencies.
pub open spec fn node_overrides(g: DependencyGraph, path: Seq<char>) -> Option<StrMap<InputOverride>> {
    if g.nodes@.dom().contains(path) {
        g.nodes@[path].decl.spec_overrides()
    } else {
        None
    }
}

/// Whether the lock file gets an entry after a fetch: a new input, a forced
/// update, or a revision in the URL that resolved to another commit than the locked one.
pub open spec fn git_lock_update(plan: SingleInputPlan, actual_rev: Seq<char>) -> bool {
    match plan.locked {
        None => true,
        Some(l) => plan.forced || (plan.config_rev is Some && l.rev@ != actual_rev),
    }
}

/// When a fetched git input gets a lock entry: always when it had none (a new
/// input is locked), always when it is force-updated; otherwise only when its
/// URL names a revision that resolved to another commit than the locked one,
/// so an input without a revision in its URL, or one that resolved to its
/// locked commit, keeps its entry.
pub proof fn lemma_git_lock_update_cases(plan: SingleInputPlan, actual_rev: Seq<char>)
    ensures
        plan.locked is None ==> git_lock_update(plan, actual_rev),
        plan.forced ==> git_lock_update(plan, actual_rev),
        plan.locked is Some && !plan.forced && plan.config_rev is None ==> !git_lock_update(plan, actual_rev),
        plan.locked matches Some(l) && !plan.forced && l.rev@ == actual_rev ==> !git_lock_update(plan, actual_rev),
        plan.locked matches Some(l) && plan.config_rev is Some && l.rev@ != actual_rev ==> git_lock_update(plan, actual_rev),
{
}

impl ResolveState {
    /// Completes a git input after the fetch: `fetched` is the checked-out
    /// directory and the commit, or the fetch error. The lock file gets an
    /// entry (with the fetch time) when `git_lock_update` holds, and the input
    /// is recorded as resolved.
    pub fn complete_git_input(&mut self, plan: SingleInputPlan, fetched: Result<(String, String), String>, timestamp: u64) -> (r: Result<(), ResolveError>)
        requires
            old(self).wf(),
            plan.action is Git,
        ensures
            (fetched is Ok && plan.locked is None) ==> final(self).lock_changed,
            fetched matches Ok((_, rev)) ==> (plan.locked is None && old(self).lock_file.v1().nodes@.dom().contains(
                old(self).lock_file.v1().root@,
            ) && !old(self).lock_file.v1().nodes@.dom().contains(store_label(plan.full_path@, plan.url@, rev@))
                ==> (final(self).lock_file.spec_get(plan.full_path@) matches Some(n) && opt_view(n.type_) == "git"@
                && opt_view(n.url) == plan.url@ && opt_view(n.rev) == rev@)),
            old(self).lock_step_to(*final(self)),
            final(self).wf(),
            final(self).graph == old(self).graph,
            final(self).processed_for_deps == old(self).processed_for_deps,
            match fetched {
                Err(m) => r matches Err(ResolveError::Fetch { name, message }) && name@ == plan.name@ && message@ == m@
                    && final(self).lock_file == old(self).lock_file && final(self).lock_changed == old(self).lock_changed
                    && final(self).resolved_cache == old(self).resolved_cache,
                Ok((path, rev)) => {
                    &&& r is Ok
                    &&& final(self).resolved_cache@ == old(self).resolved_cache@.insert(
                        plan.full_path@,
                        ResolvedEntry { path, rev, url: plan.url },
                    )
                    &&& if git_lock_update(plan, rev@) {
                        &&& final(self).lock_changed
                        &&& final(self).lock_file.v1().root == old(self).lock_file.v1().root
                        &&& final(self).lock_file.v1().nodes@.dom() == old(self).lock_file.v1().nodes@.dom().insert(
                            store_label(plan.full_path@, plan.url@, rev@),
                        )
                        &&& old(self).lock_file.v1().nodes@.dom().contains(old(self).lock_file.v1().root@)
                            ==> final(self).lock_file.v1().nodes@[old(self).lock_file.v1().root@].inputs@[plan.full_path@]@
                            == store_label(plan.full_path@, plan.url@, rev@)
                        &&& old(self).lock_file.v1().nodes@.dom().contains(old(self).lock_file.v1().root@)
                            && !old(self).lock_file.v1().nodes@.dom().contains(store_label(plan.full_path@, plan.url@, rev@))
                            ==> (final(self).lock_file.spec_get(plan.full_path@) matches Some(n) && opt_view(n.type_) == "git"@
                            && opt_view(n.url) == plan.url@ && opt_view(n.rev) == rev@ && n.last_modified == Some(timestamp))
                        &&& forall|k: Seq<char>| #[trigger] old(self).lock_file.v1().nodes@.dom().contains(k)
                            && k != old(self).lock_file.v1().root@ && k != store_label(plan.full_path@, plan.url@, rev@)
                            ==> final(self).lock_file.v1().nodes@[k] == old(self).lock_file.v1().nodes@[k]
                    } else {
                        final(self).lock_file == old(self).lock_file && final(self).lock_changed == old(self).lock_changed
                    }
                },
            },
    {
        match fetched {
            Err(m) => Err(ResolveError::Fetch { name: plan.name, message: m }),
            Ok((path, actual_rev)) => {
                let update = match &plan.locked {
                    None => true,
                    Some(l) => plan.forced || (plan.config_rev.is_some() && compare_str(l.rev.as_str(), actual_rev.as_str()) != 0),
                };
                if update {
                    let git = "git";
                    let entry = LockedInput::new(git, plan.url.as_str(), actual_rev.as_str()).with_last_modified(timestamp);
                    self.lock_file.insert(plan.full_path.clone(), entry);
                    self.lock_changed = true;
                }
                let key = plan.full_path.clone();
                self.resolved_cache.insert(key, ResolvedEntry { path, rev: actual_rev, url: plan.url });
                Ok(())
            },
        }
    }

    /// Completes a path input after its path was resolved: `resolved` is the
    /// canonical directory, or the error. A path input has revision `local`;
    /// it gets a lock entry only when it has none yet.
    pub fn complete_path_input(&mut self, plan: SingleInputPlan, resolved: Result<String, String>) -> (r: Result<(), ResolveError>)
        requires
            old(self).wf(),
            plan.action is Path,
        ensures
            old(self).lock_step_to(*final(self)),
            final(self).wf(),
            final(self).graph == old(self).graph,
            final(self).processed_for_deps == old(self).processed_for_deps,
            match resolved {
                Err(m) => r matches Err(ResolveError::Fetch { name, message }) && name@ == plan.name@ && message@ == m@
                    && final(self).lock_file == old(self).lock_file && final(self).lock_changed == old(self).lock_changed
                    && final(self).resolved_cache == old(self).resolved_cache,
                Ok(path) => {
                    &&& r is Ok
                    &&& final(self).resolved_cache@.dom() == old(self).resolved_cache@.dom().insert(plan.full_path@)
                    &&& final(self).resolved_cache@[plan.full_path@].path == path
                    &&& final(self).resolved_cache@[plan.full_path@].rev@ == "local"@
                    &&& final(self).resolved_cache@[plan.full_path@].url == plan.url
                    &&& forall|k: Seq<char>| #[trigger] old(self).resolved_cache@.dom().contains(k) && k != plan.full_path@
                        ==> final(self).resolved_cache@[k] == old(self).resolved_cache@[k]
                    &&& if plan.locked is None {
                        &&& final(self).lock_changed
                        &&& final(self).lock_file.v1().root == old(self).lock_file.v1().root
                        &&& final(self).lock_file.v1().nodes@.dom() == old(self).lock_file.v1().nodes@.dom().insert(
                            store_label(plan.full_path@, plan.url@, "local"@),
                        )
                        &&& old(self).lock_file.v1().nodes@.dom().contains(old(self).lock_file.v1().root@)
                            ==> final(self).lock_file.v1().nodes@[old(self).lock_file.v1().root@].inputs@[plan.full_path@]@
                            == store_label(plan.full_path@, plan.url@, "local"@)
                        &&& old(self).lock_file.v1().nodes@.dom().contains(old(self).lock_file.v1().root@)
                            && !old(self).lock_file.v1().nodes@.dom().contains(store_label(plan.full_path@, plan.url@, "local"@))
                            ==> (final(self).lock_file.spec_get(plan.full_path@) matches Some(n) && opt_view(n.type_) == "path"@
                            && opt_view(n.url) == plan.url@ && opt_view(n.rev) == "local"@ && n.last_modified is None)
                        &&& forall|k: Seq<char>| #[trigger] old(self).lock_file.v1().nodes@.dom().contains(k)
                            && k != old(self).lock_file.v1().root@ && k != store_label(plan.full_path@, plan.url@, "local"@)
                            ==> final(self).lock_file.v1().nodes@[k] == old(self).lock_file.v1().nodes@[k]
                    } else {
                        final(self).lock_file == old(self).lock_file && final(self).lock_changed == old(self).lock_changed
                    }
                },
            },
    {
        match resolved {
            Err(m) => Err(ResolveError::Fetch { name: plan.name, message: m }),
            Ok(path) => {
                let local = "local";
                proof {
                    reveal_strlit("local");
                }
                if plan.locked.is_none() {
                    let kind = "path";
                    let entry = LockedInput::new(kind, plan.url.as_str(), local);
                    self.lock_file.insert(plan.full_path.clone(), entry);
                    self.lock_changed = true;
                }
                let key = plan.full_path.clone();
                self.resolved_cache.insert(key, ResolvedEntry { path, rev: local.to_owned(), url: plan.url });
                Ok(())
            },
        }
    }

    /// The URLs resolved at a graph path and at the paths above it.
    fn ancestor_url_set(&self, full_path: &str) -> (r: StrSet)
        requires
            self.wf(),
        ensures
            r.wf(),
            r@.dom() == ancestor_urls(self.resolved_cache@, full_path@),
    {
        let mut r = StrSet::new();
        let n = self.resolved_cache.len();
        proof {
            self.resolved_cache.lemma_view();
        }
        let ghost keys = self.resolved_cache.keys();
        let mut i: usize = 0;
        while i < n
            invariant
                self.wf(),
                r.wf(),
                keys == self.resolved_cache.keys(),
                n == keys.len(),
                i <= n,
                forall|u: Seq<char>| #[trigger] r@.dom().contains(u) <==> exists|t: int| 0 <= t < i
                    && is_path_or_ancestor(#[trigger] keys[t], full_path@) && self.resolved_cache@[keys[t]].url@ == u,
            decreases n - i,
        {
            let (k, e) = self.resolved_cache.entry_at(i);
            let slash = concat_str(k.as_str(), "/");
            proof {
                reveal_strlit("/");
                assert(slash@ == keys[i as int] + seq!['/']);
            }
            let hit = compare_str_eq(k.as_str(), full_path) || starts_with(full_path, slash.as_str());
            if hit {
                r.insert(e.url.clone(), ());
            }
            proof {
                assert forall|u: Seq<char>| #[trigger] r@.dom().contains(u) <==> exists|t: int| 0 <= t < i + 1
                    && is_path_or_ancestor(#[trigger] keys[t], full_path@) && self.resolved_cache@[keys[t]].url@ == u by {
                    if exists|t: int| 0 <= t < i + 1 && is_path_or_ancestor(#[trigger] keys[t], full_path@)
                        && self.resolved_cache@[keys[t]].url@ == u {
                        let t = choose|t: int| 0 <= t < i + 1 && is_path_or_ancestor(#[trigger] keys[t], full_path@)
                            && self.resolved_cache@[keys[t]].url@ == u;
                        if t < i {
                            assert(exists|t2: int| 0 <= t2 < i && is_path_or_ancestor(#[trigger] keys[t2], full_path@)
                                && self.resolved_cache@[keys[t2]].url@ == u);
                        }
                    }
                }
            }
            i = i + 1;
        }
        proof {
            self.resolved_cache.lemma_view();
            assert forall|u: Seq<char>| #[trigger] r@.dom().contains(u) <==> ancestor_urls(self.resolved_cache@, full_path@).contains(u) by {
                if r@.dom().contains(u) {
                    let t = choose|t: int| 0 <= t < n && is_path_or_ancestor(#[trigger] keys[t], full_path@)
                        && self.resolved_cache@[keys[t]].url@ == u;
                    assert(self.resolved_cache@.dom().contains(keys[t]));
                }
                if ancestor_urls(self.resolved_cache@, full_path@).contains(u) {
                    let a = choose|a: Seq<char>| #[trigger] self.resolved_cache@.dom().contains(a) && is_path_or_ancestor(a, full_path@)
                        && self.resolved_cache@[a].url@ == u;
                    assert(keys.contains(a));
                    let t = choose|t: int| 0 <= t < keys.len() && keys[t] == a;
                    assert(is_path_or_ancestor(keys[t], full_path@));
                }
            }
            assert(r@.dom() =~= ancestor_urls(self.resolved_cache@, full_path@));
        }
        r
    }

    /// Marks an input as processed: its dependencies have been looked for.
    pub fn mark_processed(&mut self, full_path: &str)
        requires
            old(self).wf(),
        ensures
            old(self).lock_step_to(*final(self)),
            final(self).wf(),
            final(self).graph == old(self).graph,
            final(self).lock_file == old(self).lock_file,
            final(self).lock_changed == old(self).lock_changed,
            final(self).resolved_cache == old(self).resolved_cache,
            final(self).processed_for_deps@.dom() == old(self).processed_for_deps@.dom().insert(full_path@),
    {
        self.processed_for_deps.insert(full_path.to_owned(), ());
    }

    /// Adds the dependencies an input declares (read from its `init.lua`) to
    /// the graph under it, each with the parent's override or the input's own
    /// lock applied. A dependency is skipped only when its URL is one resolved at
    /// the input itself or above it, which would close a cycle; every other
    /// declared dependency is added, shared ones too. Nothing is
    /// added for an input already processed or declaring nothing. Returns
    /// whether a dependency was added.
    pub fn add_transitive_decls(&mut self, full_path: &str, decls: &StrMap<InputDecl>, input_lock: Option<&LockFile>) -> (found: bool)
        requires
            old(self).wf(),
            decls.wf(),
            forall|k: Seq<char>| #[trigger] decls@.dom().contains(k) ==> decls@[k].wf(),
            input_lock matches Some(l) ==> l.wf(),
        ensures
            old(self).lock_step_to(*final(self)),
            final(self).wf(),
            final(self).lock_file == old(self).lock_file,
            final(self).lock_changed == old(self).lock_changed,
            final(self).resolved_cache == old(self).resolved_cache,
            final(self).processed_for_deps == old(self).processed_for_deps,
            final(self).graph.follows_resolved == old(self).graph.follows_resolved,
            ({
                let active = !old(self).processed_for_deps@.dom().contains(full_path@) && decls@.dom().len() > 0;
                let ov = node_overrides(old(self).graph, full_path@);
                let lk = match input_lock {
                    Some(l) => Some(*l),
                    None => None,
                };
                let upward = ancestor_urls(old(self).resolved_cache@, full_path@);
                let added = |k: Seq<char>| active && decls@.dom().contains(k) && dep_added(upward, full_path@, ov, lk, k, decls@[k]);
                &&& found == exists|k: Seq<char>| #[trigger] decls@.dom().contains(k) && added(k)
                &&& forall|x: Seq<char>| #[trigger] final(self).graph.nodes@.dom().contains(x) <==> (old(self).graph.nodes@.dom().contains(x) || (
                    added(child_name(full_path@, x)) && child_path(full_path@, child_name(full_path@, x)) == x))
                &&& forall|k: Seq<char>| #[trigger] decls@.dom().contains(k) && added(k) ==> {
                    let n = final(self).graph.nodes@[child_path(full_path@, k)];
                    &&& n.name@ == k
                    &&& n.parent_path@ == full_path@
                    &&& n.decl.spec_url() == dep_url(ov, lk, k, decls@[k])
                    &&& final(self).graph.has_edge(full_path@, child_path(full_path@, k))
                }
                &&& forall|x: Seq<char>| #[trigger] old(self).graph.nodes@.dom().contains(x) && !(added(child_name(full_path@, x))
                    && child_path(full_path@, child_name(full_path@, x)) == x) ==> final(self).graph.nodes@[x] == old(self).graph.nodes@[x]
            }),
    {
        let ghost g0 = self.graph;
        let ghost ov = node_overrides(self.graph, full_path@);
        let ghost lk = match input_lock {
            Some(l) => Some(*l),
            None => None,
        };
        let ghost upward = ancestor_urls(self.resolved_cache@, full_path@);
        if self.processed_for_deps.contains_key(full_path) || decls.is_empty() {
            return false;
        }
        let above = self.ancestor_url_set(full_path);
        let parent_overrides: Option<StrMap<InputOverride>> = match self.graph.get(full_path) {
            Some(node) => match node.decl.overrides() {
                Some(m) => Some(m.duplicate_with(|o: &InputOverride| -> (r: InputOverride)
                    ensures
                        r == *o,
                    { o.duplicate() })),
                None => None,
            },
            None => None,
        };
        proof {
            decls.lemma_view();
        }
        let n = decls.len();
        let mut found = false;
        let mut i: usize = 0;
        while i < n
            invariant
                self.wf(),
                decls.wf(),
                forall|k: Seq<char>| #[trigger] decls@.dom().contains(k) ==> decls@[k].wf(),
                input_lock matches Some(l) ==> l.wf(),
                n == decls.keys().len(),
                i <= n,
                lk == (match input_lock {
                    Some(l) => Some(*l),
                    None => None,
                }),
                above.wf(),
                upward == above@.dom(),
                match parent_overrides {
                    Some(m) => ov matches Some(o) && m@ == o@ && m.wf(),
                    None => ov is None,
                },
                self.lock_file == old(self).lock_file,
                self.lock_changed == old(self).lock_changed,
                self.resolved_cache == old(self).resolved_cache,
                self.processed_for_deps == old(self).processed_for_deps,
                self.graph.follows_resolved == g0.follows_resolved,
                found == exists|t: int| 0 <= t < i && dep_added(upward, full_path@, ov, lk, decls.keys()[t], decls@[decls.keys()[t]]),
                forall|x: Seq<char>| #[trigger] self.graph.nodes@.dom().contains(x) <==> (g0.nodes@.dom().contains(x) || (
                    exists|t: int| 0 <= t < i && decls.keys()[t] == child_name(full_path@, x)) && dep_added(upward, full_path@, ov, lk, child_name(full_path@, x), decls@[child_name(full_path@, x)])
                    && child_path(full_path@, child_name(full_path@, x)) == x),
                forall|t: int| 0 <= t < i && dep_added(upward, full_path@, ov, lk, #[trigger] decls.keys()[t], decls@[decls.keys()[t]]) ==> {
                    let k = decls.keys()[t];
                    let nd = self.graph.nodes@[child_path(full_path@, k)];
                    &&& nd.name@ == k
                    &&& nd.parent_path@ == full_path@
                    &&& nd.decl.spec_url() == dep_url(ov, lk, k, decls@[k])
                    &&& self.graph.has_edge(full_path@, child_path(full_path@, k))
                },
                forall|x: Seq<char>| #[trigger] g0.nodes@.dom().contains(x) && !((exists|t: int| 0 <= t < i && decls.keys()[t] == child_name(full_path@, x))
                    && dep_added(upward, full_path@, ov, lk, child_name(full_path@, x), decls@[child_name(full_path@, x)])
                    && child_path(full_path@, child_name(full_path@, x)) == x) ==> self.graph.nodes@[x] == g0.nodes@[x],
            decreases n - i,
        {
            proof {
                decls.lemma_view();
            }
            let (dep_name, dep_decl) = decls.entry_at(i);
            let ghost k = decls.keys()[i as int];
            proof {
                assert(decls@.dom().contains(k));
                lemma_child_name(full_path@, k);
            }
            let mut decl = dep_decl.duplicate();
            let has_override = match &parent_overrides {
                Some(m) => m.contains_key(dep_name.as_str()),
                None => false,
            };
            if has_override {
                let o = match &parent_overrides {
                    Some(m) => match m.get(dep_name.as_str()) {
                        Some(o) => o.duplicate(),
                        None => InputOverride::Url(String::new()),
                    },
                    None => InputOverride::Url(String::new()),
                };
                decl = apply_override(decl, o);
            } else if let Some(lock) = input_lock {
                decl = apply_input_lock_to_decl(decl, dep_name.as_str(), lock);
            }
            proof {
                assert(decl.spec_url() == dep_url(ov, lk, k, decls@[k]));
            }
            let self_path = char_len(full_path) == 0 && char_len(dep_name.as_str()) == 0;
            proof {
                if full_path@.len() == 0 {
                    assert(child_path(full_path@, k) == k);
                } else {
                    assert(child_path(full_path@, k).len() > full_path@.len());
                }
                if k.len() == 0 {
                    assert(k =~= Seq::<char>::empty());
                }
                if full_path@.len() == 0 {
                    assert(full_path@ =~= Seq::<char>::empty());
                }
            }
            let skip = self_path || match decl.url() {
                Some(u) => above.contains_key(u),
                None => false,
            };
            if !skip {
                let ghost gb = self.graph;
                let child = self.graph.add_transitive(dep_name.as_str(), decl, full_path);
                found = true;
                proof {
                    assert(child@ == child_path(full_path@, k));
                    assert(graph_edges_grow(gb));
                    assert forall|u: Seq<char>, v: Seq<char>| #[trigger] self.graph.has_edge(u, v) implies u.len() < v.len()
                        && self.graph.nodes@.dom().contains(v) by {
                        if gb.has_edge(u, v) {
                            assert(u.len() < v.len() && gb.nodes@.dom().contains(v));
                        } else {
                            assert(u == full_path@ && v == child@);
                            if k.len() == 0 {
                                assert(k =~= Seq::<char>::empty());
                            }
                            assert(child@.len() > full_path@.len());
                        }
                    }
                    assert forall|t: int| 0 <= t < i + 1 && dep_added(upward, full_path@, ov, lk, #[trigger] decls.keys()[t], decls@[decls.keys()[t]]) implies {
                        let k2 = decls.keys()[t];
                        let nd = self.graph.nodes@[child_path(full_path@, k2)];
                        &&& nd.name@ == k2
                        &&& nd.parent_path@ == full_path@
                        &&& nd.decl.spec_url() == dep_url(ov, lk, k2, decls@[k2])
                        &&& self.graph.has_edge(full_path@, child_path(full_path@, k2))
                    } by {
                        let k2 = decls.keys()[t];
                        if t < i {
                            lemma_child_name(full_path@, k2);
                            crate::strmap::lemma_sorted_distinct(decls.keys());
                            assert(k2 != k);
                            assert(child_path(full_path@, k2) != child@);
                            assert(gb.has_edge(full_path@, child_path(full_path@, k2)));
                        }
                    }
                }
            }
            proof {
                assert forall|x: Seq<char>| #[trigger] self.graph.nodes@.dom().contains(x) <==> (g0.nodes@.dom().contains(x) || (
                    exists|t: int| 0 <= t < i + 1 && decls.keys()[t] == child_name(full_path@, x)) && dep_added(upward, full_path@, ov, lk, child_name(full_path@, x), decls@[child_name(full_path@, x)])
                    && child_path(full_path@, child_name(full_path@, x)) == x) by {
                    if x == child_path(full_path@, k) {
                        assert(decls.keys()[i as int] == child_name(full_path@, x));
                    }
                    if (exists|t: int| 0 <= t < i + 1 && decls.keys()[t] == child_name(full_path@, x)) && !(exists|t: int| 0 <= t < i && decls.keys()[t] == child_name(full_path@, x)) {
                        assert(child_name(full_path@, x) == k);
                    }
                }
                assert(found == exists|t: int| 0 <= t < i + 1 && dep_added(upward, full_path@, ov, lk, decls.keys()[t], decls@[decls.keys()[t]])) by {
                    if !skip {
                        assert(dep_added(upward, full_path@, ov, lk, decls.keys()[i as int], decls@[decls.keys()[i as int]]));
                    }
                }
                assert forall|x: Seq<char>| #[trigger] g0.nodes@.dom().contains(x) && !((exists|t: int| 0 <= t < i + 1 && decls.keys()[t] == child_name(full_path@, x))
                    && dep_added(upward, full_path@, ov, lk, child_name(full_path@, x), decls@[child_name(full_path@, x)])
                    && child_path(full_path@, child_name(full_path@, x)) == x) implies self.graph.nodes@[x] == g0.nodes@[x] by {
                    if x == child_path(full_path@, k) && !skip {
                        assert(decls.keys()[i as int] == child_name(full_path@, x));
                    }
                }
            }
            i = i + 1;
        }
        proof {
            decls.lemma_view();
            assert(forall|k: Seq<char>| #[trigger] decls@.dom().contains(k) <==> exists|t: int| 0 <= t < n && decls.keys()[t] == k);
            if found {
                let t = choose|t: int| 0 <= t < n && dep_added(upward, full_path@, ov, lk, decls.keys()[t], decls@[decls.keys()[t]]);
                assert(decls@.dom().contains(decls.keys()[t]));
            }
            assert forall|k: Seq<char>| #[trigger] decls@.dom().contains(k) && dep_added(upward, full_path@, ov, lk, k, decls@[k]) implies {
                let nd = self.graph.nodes@[child_path(full_path@, k)];
                &&& nd.name@ == k
                &&& nd.parent_path@ == full_path@
                &&& nd.decl.spec_url() == dep_url(ov, lk, k, decls@[k])
                &&& self.graph.has_edge(full_path@, child_path(full_path@, k))
            } by {
                let t = choose|t: int| 0 <= t < n && decls.keys()[t] == k;
                assert(dep_added(upward, full_path@, ov, lk, decls.keys()[t], decls@[decls.keys()[t]]));
            }
            assert(found == exists|k: Seq<char>| #[trigger] decls@.dom().contains(k) && dep_added(upward, full_path@, ov, lk, k, decls@[k])) by {
                if exists|k: Seq<char>| #[trigger] decls@.dom().contains(k) && dep_added(upward, full_path@, ov, lk, k, decls@[k]) {
                    let k = choose|k: Seq<char>| #[trigger] decls@.dom().contains(k) && dep_added(upward, full_path@, ov, lk, k, decls@[k]);
                    let t = choose|t: int| 0 <= t < n && decls.keys()[t] == k;
                    assert(dep_added(upward, full_path@, ov, lk, decls.keys()[t], decls@[decls.keys()[t]]));
                }
            }
        }
        found
    }
}

/// The direct dependencies of a graph path, in path order.
pub open spec fn deps_of(g: DependencyGraph, p: Seq<char>) -> Seq<Seq<char>> {
    if g.edges@.dom().contains(p) {
        g.edges@[p].keys()
    } else {
        Seq::empty()
    }
}

/// The path whose resolution a dependency uses: its follows target, if any.
pub open spec fn eff_path(g: DependencyGraph, d: Seq<char>) -> Seq<char> {
    if g.follows_resolved@.dom().contains(d) {
        g.follows_resolved@[d]@
    } else {
        d
    }
}

/// Whether a dependency appears among the resolved transitive inputs: it is
/// a node and the path it uses was resolved.
pub open spec fn dep_kept(g: DependencyGraph, cache: Map<Seq<char>, ResolvedEntry>, d: Seq<char>) -> bool {
    g.nodes@.dom().contains(d) && cache.dom().contains(eff_path(g, d))
}

/// The dependencies among `ds` that appear among the resolved transitive inputs, in order.
pub open spec fn kept_deps(g: DependencyGraph, cache: Map<Seq<char>, ResolvedEntry>, ds: Seq<Seq<char>>) -> Seq<Seq<char>>
    decreases ds.len(),
{
    if ds.len() == 0 {
        Seq::empty()
    } else if dep_kept(g, cache, ds.last()) {
        kept_deps(g, cache, ds.drop_last()).push(ds.last())
    } else {
        kept_deps(g, cache, ds.drop_last())
    }
}

/// `r` lists the resolved transitive inputs of the node at `p`: one entry per
/// kept dependency, in path order, named as the dependency, with the directory
/// and revision of the path it uses, and its own transitive inputs likewise
/// (`bound` bounds the length of graph paths).
pub open spec fn transitive_ok(g: DependencyGraph, cache: Map<Seq<char>, ResolvedEntry>, p: Seq<char>, r: Seq<(String, ResolvedInput)>, bound: int) -> bool
    decreases bound - p.len(), 1int, 0int,
{
    let ks = kept_deps(g, cache, deps_of(g, p));
    r.len() == ks.len() && entries_ok(g, cache, p, ks, r, r.len() as int, bound)
}

/// The first `n` entries of `r` match the first `n` kept dependencies `ks` of `p`.
pub open spec fn entries_ok(
    g: DependencyGraph,
    cache: Map<Seq<char>, ResolvedEntry>,
    p: Seq<char>,
    ks: Seq<Seq<char>>,
    r: Seq<(String, ResolvedInput)>,
    n: int,
    bound: int,
) -> bool
    decreases bound - p.len(), 0int, n,
{
    if n <= 0 {
        true
    } else {
        let d = ks[n - 1];
        let e = r[n - 1];
        &&& entries_ok(g, cache, p, ks, r, n - 1, bound)
        &&& e.0@ == g.nodes@[d].name@
        &&& e.1.path == cache[eff_path(g, d)].path
        &&& e.1.rev == cache[eff_path(g, d)].rev
        &&& (p.len() < d.len() <= bound ==> transitive_ok(g, cache, d, e.1.inputs@, bound))
    }
}

/// `entries_ok` looks only at the first `n` entries.
proof fn lemma_entries_ok_prefix(
    g: DependencyGraph,
    cache: Map<Seq<char>, ResolvedEntry>,
    p: Seq<char>,
    ks: Seq<Seq<char>>,
    ks2: Seq<Seq<char>>,
    r: Seq<(String, ResolvedInput)>,
    r2: Seq<(String, ResolvedInput)>,
    n: int,
    bound: int,
)
    requires
        entries_ok(g, cache, p, ks, r, n, bound),
        n <= ks.len(),
        n <= ks2.len(),
        n <= r.len(),
        n <= r2.len(),
        forall|i: int| 0 <= i < n ==> ks[i] == ks2[i] && r[i] == r2[i],
    ensures
        entries_ok(g, cache, p, ks2, r2, n, bound),
    decreases n,
{
    if n > 0 {
        lemma_entries_ok_prefix(g, cache, p, ks, ks2, r, r2, n - 1, bound);
    }
}

/// The longest length among some paths.
pub open spec fn max_len(ks: Seq<Seq<char>>) -> int
    decreases ks.len(),
{
    if ks.len() == 0 {
        0
    } else if ks.last().len() > max_len(ks.drop_last()) {
        ks.last().len() as int
    } else {
        max_len(ks.drop_last())
    }
}

proof fn lemma_max_len(ks: Seq<Seq<char>>)
    ensures
        forall|i: int| 0 <= i < ks.len() ==> #[trigger] ks[i].len() <= max_len(ks),
    decreases ks.len(),
{
    if ks.len() > 0 {
        lemma_max_len(ks.drop_last());
        assert forall|i: int| 0 <= i < ks.len() implies #[trigger] ks[i].len() <= max_len(ks) by {
            if i < ks.len() - 1 {
                assert(ks[i] == ks.drop_last()[i]);
            }
        }
    }
}

/// The length bound of a graph's paths.
pub open spec fn path_bound(g: DependencyGraph) -> int {
    max_len(g.nodes.keys())
}

/// Builds the resolved transitive inputs of the node at `p`.
fn transitive_inputs_under(
    graph: &DependencyGraph,
    cache: &StrMap<ResolvedEntry>,
    p: &str,
    Ghost(bound): Ghost<int>,
) -> (r: Vec<(String, ResolvedInput)>)
    requires
        graph.wf(),
        graph_edges_grow(*graph),
        cache.wf(),
        forall|x: Seq<char>| #[trigger] graph.nodes@.dom().contains(x) ==> x.len() <= bound,
    ensures
        transitive_ok(*graph, cache@, p@, r@, bound),
    decreases bound - p@.len(),
{
    let deps = graph.dependencies(p);
    let ghost ds = deps_of(*graph, p@);
    let ghost ks = kept_deps(*graph, cache@, ds);
    let mut r: Vec<(String, ResolvedInput)> = Vec::new();
    let mut j: usize = 0;
    proof {
        assert(deps@.map_values(|s: String| s@) == ds);
        assert(ds.take(0) =~= Seq::<Seq<char>>::empty());
    }
    while j < deps.len()
        invariant
            graph.wf(),
            graph_edges_grow(*graph),
            cache.wf(),
            forall|x: Seq<char>| #[trigger] graph.nodes@.dom().contains(x) ==> x.len() <= bound,
            ds == deps_of(*graph, p@),
            deps@.map_values(|s: String| s@) == ds,
            j <= deps@.len(),
            r@.len() == kept_deps(*graph, cache@, ds.take(j as int)).len(),
            entries_ok(*graph, cache@, p@, kept_deps(*graph, cache@, ds.take(j as int)), r@, r@.len() as int, bound),
        decreases deps@.len() - j,
    {
        let ghost ks0 = kept_deps(*graph, cache@, ds.take(j as int));
        let ghost r0 = r@;
        proof {
            assert(ds.take(j + 1).drop_last() =~= ds.take(j as int));
            assert(ds.take(j + 1).last() == ds[j as int]);
            assert(ds[j as int] == deps@[j as int]@);
        }
        let dep = &deps[j];
        if let Some(node) = graph.get(dep.as_str()) {
            let eff: &str = match graph.follows_resolved.get(dep.as_str()) {
                Some(t) => t.as_str(),
                None => dep.as_str(),
            };
            if let Some(entry) = cache.get(eff) {
                proof {
                    // a dependency is reached along an edge, so its path is longer
                    assert(graph.edges@.dom().contains(p@));
                    assert(graph.edges@[p@].keys().contains(dep@)) by {
                        assert(graph.edges@[p@].keys()[j as int] == dep@);
                    }
                    graph.edges@[p@].lemma_view();
                    assert(graph.has_edge(p@, dep@));
                }
                let nested = transitive_inputs_under(graph, cache, dep.as_str(), Ghost(bound));
                let ri = ResolvedInput::with_inputs(entry.path.clone(), entry.rev.clone(), nested);
                r.push((node.name.clone(), ri));
                proof {
                    let ks1 = kept_deps(*graph, cache@, ds.take(j + 1));
                    assert(ks1 == ks0.push(dep@));
                    lemma_entries_ok_prefix(*graph, cache@, p@, ks0, ks1, r0, r@, r0.len() as int, bound);
                    assert(r@[r0.len() as int].1.inputs == nested);
                }
            } else {
                proof {
                    assert(kept_deps(*graph, cache@, ds.take(j + 1)) == ks0);
                }
            }
        } else {
            proof {
                assert(kept_deps(*graph, cache@, ds.take(j + 1)) == ks0);
            }
        }
        j = j + 1;
    }
    proof {
        assert(ds.take(deps@.len() as int) =~= ds);
    }
    r
}

/// Builds the resolved transitive inputs of the node at `root_path`: for each
/// dependency whose effective path was resolved, its name, directory and
/// revision, and its own transitive inputs, recursively.
pub fn build_transitive_inputs(graph: &DependencyGraph, resolved_cache: &StrMap<ResolvedEntry>, root_path: &str) -> (r: Vec<(String, ResolvedInput)>)
    requires
        graph.wf(),
        graph_edges_grow(*graph),
        resolved_cache.wf(),
    ensures
        transitive_ok(*graph, resolved_cache@, root_path@, r@, path_bound(*graph)),
{
    proof {
        lemma_max_len(graph.nodes.keys());
        graph.nodes.lemma_view();
        assert forall|x: Seq<char>| #[trigger] graph.nodes@.dom().contains(x) implies x.len() <= path_bound(*graph) by {
            let i = choose|i: int| 0 <= i < graph.nodes.keys().len() && graph.nodes.keys()[i] == x;
        }
    }
    transitive_inputs_under(graph, resolved_cache, root_path, Ghost(path_bound(*graph)))
}

/// Step `i` of a resolution keeps the lock-file bookkeeping (see `lock_step_to`).
pub open spec fn lock_step_at(states: Seq<ResolveState>, i: int) -> bool {
    states[i].lock_step_to(states[i + 1])
}

/// A resolution that starts from a loaded lock file and ends with the lock
/// file not marked changed ends with that very lock file: every step marks a
/// change it makes, and no step unmarks one.
pub proof fn lemma_unchanged_lock_is_loaded_lock(states: Seq<ResolveState>)
    requires
        states.len() >= 1,
        !states[0].lock_changed,
        forall|i: int| 0 <= i < states.len() - 1 ==> #[trigger] lock_step_at(states, i),
    ensures
        !states.last().lock_changed ==> states.last().lock_file == states[0].lock_file,
    decreases states.len(),
{
    if states.len() > 1 {
        let prefix = states.drop_last();
        assert forall|i: int| 0 <= i < prefix.len() - 1 implies #[trigger] lock_step_at(prefix, i) by {
            assert(lock_step_at(states, i));
        }
        lemma_unchanged_lock_is_loaded_lock(prefix);
        assert(lock_step_at(states, states.len() - 2));
    }
}

/// A locked root input is stale when the configuration no longer declares it;
/// entries of transitive inputs (whose names hold a `/`) are left alone.
pub open spec fn stale(decls: Set<Seq<char>>, name: Seq<char>) -> bool {
    !decls.contains(name) && first_index_of(name, '/') < 0
}

impl ResolveState {
    /// Ends a resolution: resolves the follows declarations, removes stale
    /// root inputs from the lock file, and returns the resolved root inputs
    /// (those declared and resolved), each with its transitive inputs.
    pub fn finish(&mut self, input_decls: &StrMap<InputDecl>) -> (r: Result<StrMap<ResolvedInput>, ResolveError>)
        requires
            old(self).wf(),
            input_decls.wf(),
        ensures
            old(self).lock_step_to(*final(self)),
            final(self).wf(),
            final(self).graph.nodes == old(self).graph.nodes,
            final(self).graph.edges == old(self).graph.edges,
            final(self).resolved_cache == old(self).resolved_cache,
            ({
                let follows = resolve_all(
                    old(self).graph.nodes@,
                    strings_view(old(self).graph.follows_resolved@),
                    all_follows_decls(old(self).graph.nodes.pairs()),
                );
                match r {
                    Err(e) => e matches ResolveError::Graph(_) && follows is Err,
                    Ok(m) => {
                        &&& follows == Ok::<Map<Seq<char>, Seq<char>>, ChainFailure>(strings_view(final(self).graph.follows_resolved@))
                        &&& m.wf()
                        &&& forall|k: Seq<char>| #[trigger] m@.dom().contains(k) <==> input_decls@.dom().contains(k)
                            && old(self).resolved_cache@.dom().contains(k)
                        &&& forall|k: Seq<char>| #[trigger] m@.dom().contains(k) ==> {
                            &&& m@[k].path == old(self).resolved_cache@[k].path
                            &&& m@[k].rev == old(self).resolved_cache@[k].rev
                            &&& transitive_ok(final(self).graph, old(self).resolved_cache@, k, m@[k].inputs@, path_bound(final(self).graph))
                        }
                        &&& final(self).lock_file.v1().root == old(self).lock_file.v1().root
                        &&& final(self).lock_file.v1().version == old(self).lock_file.v1().version
                        &&& forall|x: Seq<char>| #[trigger] final(self).lock_file.v1().nodes@.dom().contains(x)
                            ==> old(self).lock_file.v1().nodes@.dom().contains(x)
                        &&& forall|x: Seq<char>| #[trigger] final(self).lock_file.v1().nodes@.dom().contains(x) && x
                            != old(self).lock_file.v1().root@ ==> final(self).lock_file.v1().nodes@[x] == old(self).lock_file.v1().nodes@[x]
                        &&& (old(self).lock_file.v1().nodes@.dom().contains(old(self).lock_file.v1().root@) ==> {
                            let root = old(self).lock_file.v1().root@;
                            let before = old(self).lock_file.v1().nodes@[root].inputs@;
                            &&& final(self).lock_file.v1().nodes@.dom().contains(root)
                            &&& final(self).lock_file.v1().nodes@[root].inputs@ == before.restrict(
                                before.dom().filter(|k: Seq<char>| !stale(input_decls@.dom(), k)),
                            )
                            &&& final(self).lock_changed == (old(self).lock_changed || exists|k: Seq<char>| #[trigger] before.dom().contains(k)
                                && stale(input_decls@.dom(), k))
                            &&& (!(exists|k: Seq<char>| #[trigger] before.dom().contains(k) && stale(input_decls@.dom(), k))
                                ==> final(self).lock_file == old(self).lock_file)
                        })
                        &&& (!old(self).lock_file.v1().nodes@.dom().contains(old(self).lock_file.v1().root@) ==> final(self).lock_file
                            == old(self).lock_file && final(self).lock_changed == old(self).lock_changed)
                    },
                }
            }),
    {
        let ghost g0 = self.graph;
        let res = self.graph.resolve_follows();
        proof {
            assert forall|u: Seq<char>, v: Seq<char>| #[trigger] self.graph.has_edge(u, v) implies u.len() < v.len()
                && self.graph.nodes@.dom().contains(v) by {
                assert(g0.has_edge(u, v));
            }
        }
        match res {
            Ok(()) => {},
            Err(e) => return Err(ResolveError::Graph(e)),
        }
        // the resolved root inputs
        let names = input_decls.key_list();
        let mut m: StrMap<ResolvedInput> = StrMap::new();
        let mut i: usize = 0;
        proof {
            input_decls.lemma_view();
        }
        while i < names.len()
            invariant
                self.wf(),
                input_decls.wf(),
                views_of(names@) == input_decls.keys(),
                i <= names@.len(),
                m.wf(),
                forall|k: Seq<char>| #[trigger] m@.dom().contains(k) <==> views_of(names@).take(i as int).contains(k)
                    && self.resolved_cache@.dom().contains(k),
                forall|k: Seq<char>| #[trigger] m@.dom().contains(k) ==> {
                    &&& m@[k].path == self.resolved_cache@[k].path
                    &&& m@[k].rev == self.resolved_cache@[k].rev
                    &&& transitive_ok(self.graph, self.resolved_cache@, k, m@[k].inputs@, path_bound(self.graph))
                },
            decreases names@.len() - i,
        {
            let name = &names[i];
            proof {
                assert(views_of(names@)[i as int] == name@);
                assert(views_of(names@).take(i + 1) =~= views_of(names@).take(i as int).push(name@));
            }
            let ghost m0 = m@;
            if let Some(entry) = self.resolved_cache.get(name.as_str()) {
                let transitive = build_transitive_inputs(&self.graph, &self.resolved_cache, name.as_str());
                let ri = ResolvedInput::with_inputs(entry.path.clone(), entry.rev.clone(), transitive);
                m.insert(name.clone(), ri);
            }
            proof {
                assert forall|k: Seq<char>| #[trigger] m@.dom().contains(k) <==> views_of(names@).take(i + 1).contains(k)
                    && self.resolved_cache@.dom().contains(k) by {
                    if views_of(names@).take(i + 1).contains(k) && k != name@ {
                        let t = choose|t: int| 0 <= t < i + 1 && #[trigger] views_of(names@).take(i + 1)[t] == k;
                        assert(views_of(names@).take(i as int)[t] == k);
                    }
                    if views_of(names@).take(i as int).contains(k) {
                        let t = choose|t: int| 0 <= t < i && #[trigger] views_of(names@).take(i as int)[t] == k;
                        assert(views_of(names@).take(i + 1)[t] == k);
                    }
                    if k == name@ {
                        assert(views_of(names@).take(i + 1)[i as int] == k);
                    }
                }
            }
            i = i + 1;
        }
        proof {
            input_decls.lemma_view();
            assert(views_of(names@).take(names@.len() as int) =~= views_of(names@));
        }
        // stale entries of the lock file
        let ghost g1 = self.graph;
        let locked = self.lock_file.input_names();
        let ghost decl_dom = input_decls@.dom();
        let ghost l0 = self.lock_file.v1();
        let ghost changed0 = self.lock_changed;
        let ghost has_root = l0.nodes@.dom().contains(l0.root@);
        let ghost before = if has_root { l0.nodes@[l0.root@].inputs@ } else { Map::empty() };
        let mut j: usize = 0;
        proof {
            if has_root {
                l0.nodes@[l0.root@].inputs.lemma_view();
            }
        }
        while j < locked.len()
            invariant
                self.wf(),
                input_decls.wf(),
                decl_dom == input_decls@.dom(),
                j <= locked@.len(),
                self.lock_file.v1().root == l0.root,
                has_root == l0.nodes@.dom().contains(l0.root@),
                views_of(locked@) == (if has_root { l0.nodes@[l0.root@].inputs.keys() } else { Seq::empty() }),
                has_root ==> before == l0.nodes@[l0.root@].inputs@,
                has_root ==> forall|k: Seq<char>| #[trigger] before.dom().contains(k) <==> views_of(locked@).contains(k),
                !has_root ==> self.lock_file == old(self).lock_file && self.lock_changed == old(self).lock_changed,
                has_root ==> self.lock_file.v1().nodes@.dom().contains(l0.root@),
                has_root ==> self.lock_file.v1().nodes@[l0.root@].inputs@ == before.restrict(
                    before.dom().filter(|k: Seq<char>| !(views_of(locked@).take(j as int).contains(k) && stale(decl_dom, k))),
                ),
                has_root ==> self.lock_changed == (changed0 || exists|t: int| 0 <= t < j && stale(decl_dom, #[trigger] views_of(locked@)[t])),
                has_root && !(exists|t: int| 0 <= t < j && stale(decl_dom, #[trigger] views_of(locked@)[t]))
                    ==> self.lock_file == old(self).lock_file,
                changed0 == old(self).lock_changed,
                l0 == old(self).lock_file.v1(),
                l0.wf(),
                self.lock_file.v1().version == l0.version,
                forall|x: Seq<char>| #[trigger] self.lock_file.v1().nodes@.dom().contains(x) ==> l0.nodes@.dom().contains(x),
                forall|x: Seq<char>| #[trigger] self.lock_file.v1().nodes@.dom().contains(x) && x != l0.root@
                    ==> self.lock_file.v1().nodes@[x] == l0.nodes@[x],
                self.graph == g1,
                self.resolved_cache == old(self).resolved_cache,
            decreases locked@.len() - j,
        {
            let name = &locked[j];
            proof {
                assert(views_of(locked@)[j as int] == name@);
                assert(views_of(locked@).take(j + 1) =~= views_of(locked@).take(j as int).push(name@));
                crate::text::lemma_first_index_of(name@, '/');
            }
            let has_slash = find_first_char(name.as_str(), '/').is_some();
            if !input_decls.contains_key(name.as_str()) && !has_slash {
                let ghost cur = self.lock_file.v1().nodes@[l0.root@].inputs@;
                let removed = self.lock_file.remove(name.as_str());
                self.lock_changed = true;
                proof {
                    if !has_root {
                        assert(views_of(locked@).len() == 0);
                    }
                    assert(has_root);
                    // the name was listed, hence still present
                    assert(views_of(locked@).contains(name@)) by {
                        assert(views_of(locked@)[j as int] == name@);
                    }
                    assert(before.dom().contains(name@));
                    assert(l0.nodes@[l0.root@].inputs.wf());
                    l0.nodes@[l0.root@].inputs.lemma_view();
                    crate::strmap::lemma_sorted_distinct(l0.nodes@[l0.root@].inputs.keys());
                    assert(!views_of(locked@).take(j as int).contains(name@)) by {
                        if views_of(locked@).take(j as int).contains(name@) {
                            let t = choose|t: int| 0 <= t < j && views_of(locked@).take(j as int)[t] == name@;
                            assert(views_of(locked@)[t] == views_of(locked@)[j as int]);
                        }
                    }
                    assert(cur.dom().contains(name@));
                    assert(removed);
                    assert(stale(decl_dom, name@));
                    assert forall|k: Seq<char>| views_of(locked@).take(j + 1).contains(k) <==> (views_of(locked@).take(j as int).contains(k) || k == name@) by {
                        if views_of(locked@).take(j + 1).contains(k) && k != name@ {
                            let t = choose|t: int| 0 <= t < j + 1 && #[trigger] views_of(locked@).take(j + 1)[t] == k;
                            assert(views_of(locked@).take(j as int)[t] == k);
                        }
                        if views_of(locked@).take(j as int).contains(k) {
                            let t = choose|t: int| 0 <= t < j && #[trigger] views_of(locked@).take(j as int)[t] == k;
                            assert(views_of(locked@).take(j + 1)[t] == k);
                        }
                        if k == name@ {
                            assert(views_of(locked@).take(j + 1)[j as int] == k);
                        }
                    }
                    let f0 = |k: Seq<char>| !(views_of(locked@).take(j as int).contains(k) && stale(decl_dom, k));
                    let f1 = |k: Seq<char>| !(views_of(locked@).take(j + 1).contains(k) && stale(decl_dom, k));
                    assert(before.dom().filter(f1) =~= before.dom().filter(f0).remove(name@));
                    assert(self.lock_file.v1().nodes@[l0.root@].inputs@ =~= before.restrict(before.dom().filter(f1)));
                }
            } else {
                proof {
                    if has_root {
                        assert(!stale(decl_dom, name@));
                        assert forall|k: Seq<char>| views_of(locked@).take(j + 1).contains(k) <==> (views_of(locked@).take(j as int).contains(k) || k == name@) by {
                            if views_of(locked@).take(j + 1).contains(k) && k != name@ {
                                let t = choose|t: int| 0 <= t < j + 1 && #[trigger] views_of(locked@).take(j + 1)[t] == k;
                                assert(views_of(locked@).take(j as int)[t] == k);
                            }
                            if views_of(locked@).take(j as int).contains(k) {
                                let t = choose|t: int| 0 <= t < j && #[trigger] views_of(locked@).take(j as int)[t] == k;
                                assert(views_of(locked@).take(j + 1)[t] == k);
                            }
                            if k == name@ {
                                assert(views_of(locked@).take(j + 1)[j as int] == k);
                            }
                        }
                        let f0 = |k: Seq<char>| !(views_of(locked@).take(j as int).contains(k) && stale(decl_dom, k));
                        let f1 = |k: Seq<char>| !(views_of(locked@).take(j + 1).contains(k) && stale(decl_dom, k));
                        assert(before.dom().filter(f1) =~= before.dom().filter(f0));
                        assert(self.lock_file.v1().nodes@[l0.root@].inputs@ =~= before.restrict(before.dom().filter(f1)));
                    }
                }
            }
            proof {
                if has_root {
                    assert(self.lock_changed == (changed0 || exists|t: int| 0 <= t < j + 1 && stale(decl_dom, #[trigger] views_of(locked@)[t])));
                    if !(exists|t: int| 0 <= t < j + 1 && stale(decl_dom, #[trigger] views_of(locked@)[t])) {
                        assert(!stale(decl_dom, views_of(locked@)[j as int]));
                    }
                }
            }
            j = j + 1;
        }
        proof {
            if has_root {
                assert(views_of(locked@).take(locked@.len() as int) =~= views_of(locked@));
                assert(self.lock_file.v1().nodes@[l0.root@].inputs@ =~= before.restrict(
                    before.dom().filter(|k: Seq<char>| !stale(decl_dom, k)),
                ));
                assert((exists|t: int| 0 <= t < locked@.len() && stale(decl_dom, #[trigger] views_of(locked@)[t])) == (exists|k: Seq<char>| #[trigger] before.dom().contains(k) && stale(decl_dom, k))) by {
                    if exists|k: Seq<char>| #[trigger] before.dom().contains(k) && stale(decl_dom, k) {
                        let k = choose|k: Seq<char>| #[trigger] before.dom().contains(k) && stale(decl_dom, k);
                        assert(views_of(locked@).contains(k));
                        let t = choose|t: int| 0 <= t < views_of(locked@).len() && views_of(locked@)[t] == k;
                        assert(stale(decl_dom, views_of(locked@)[t]));
                    }
                    if exists|t: int| 0 <= t < locked@.len() && stale(decl_dom, #[trigger] views_of(locked@)[t]) {
                        let t = choose|t: int| 0 <= t < locked@.len() && stale(decl_dom, #[trigger] views_of(locked@)[t]);
                        assert(views_of(locked@).contains(views_of(locked@)[t]));
                        assert(before.dom().contains(views_of(locked@)[t]));
                    }
                }
            }
        }
        Ok(m)
    }
}

/// The conflict between a namespace already provided and a new provider of it.
pub open spec fn conflict_of(existing: LuaNamespace, ns: LuaNamespace) -> NamespaceConflictError {
    NamespaceConflictError {
        namespace: ns.name,
        provider1: existing.provider_input,
        url1: existing.url,
        rev1: existing.rev,
        provider2: ns.provider_input,
        url2: ns.url,
        rev2: ns.rev,
    }
}

/// Adds one namespace by name. A namespace of the configuration (`checked`
/// false) replaces what is there. An input's namespace (`checked` true) is
/// dropped when one of the same name comes from the same source (a diamond
/// dependency), and conflicts with one from another source.
pub open spec fn ns_step(m: Map<Seq<char>, LuaNamespace>, ns: LuaNamespace, checked: bool) -> Result<Map<Seq<char>, LuaNamespace>, NamespaceConflictError> {
    if checked && m.dom().contains(ns.name@) {
        if m[ns.name@].spec_same_source(&ns) {
            Ok(m)
        } else {
            Err(conflict_of(m[ns.name@], ns))
        }
    } else {
        Ok(m.insert(ns.name@, ns))
    }
}

/// Adds namespaces in order, stopping at the first conflict.
pub open spec fn ns_fold(items: Seq<(LuaNamespace, bool)>) -> Result<Map<Seq<char>, LuaNamespace>, NamespaceConflictError>
    decreases items.len(),
{
    if items.len() == 0 {
        Ok(Map::empty())
    } else {
        match ns_fold(items.drop_last()) {
            Err(e) => Err(e),
            Ok(m) => ns_step(m, items.last().0, items.last().1),
        }
    }
}

/// The namespaces of the resolved inputs, in order, except those of inputs
/// replaced by a follows target.
pub open spec fn input_ns_items(inputs: Seq<(String, Vec<LuaNamespace>)>, followed: Set<Seq<char>>) -> Seq<(LuaNamespace, bool)>
    decreases inputs.len(),
{
    if inputs.len() == 0 {
        Seq::empty()
    } else {
        input_ns_items(inputs.drop_last(), followed) + if followed.contains(inputs.last().0@) {
            Seq::empty()
        } else {
            inputs.last().1@.map_values(|n: LuaNamespace| (n, true))
        }
    }
}

/// Merges the Lua namespaces found: first those of the configuration's own
/// `lua/` directory, then those of each resolved input (given in graph path
/// order, with the namespaces found in each), skipping inputs replaced by a
/// follows target. The result lists the namespaces by name.
pub fn merge_namespaces(
    config_namespaces: &Vec<LuaNamespace>,
    input_namespaces: &Vec<(String, Vec<LuaNamespace>)>,
    follows_resolved: &StrMap<String>,
) -> (r: Result<Vec<LuaNamespace>, NamespaceConflictError>)
    requires
        follows_resolved.wf(),
    ensures
        ({
            let items = config_namespaces@.map_values(|n: LuaNamespace| (n, false)) + input_ns_items(
                input_namespaces@,
                follows_resolved@.dom(),
            );
            match r {
                Err(e) => ns_fold(items) == Err::<Map<Seq<char>, LuaNamespace>, NamespaceConflictError>(e),
                Ok(v) => ns_fold(items) matches Ok(m) && v@.len() == m.dom().len() && (forall|i: int| 0 <= i < v@.len()
                    ==> m.dom().contains(#[trigger] v@[i].name@) && m[v@[i].name@] == v@[i]) && crate::strmap::strictly_sorted(
                    v@.map_values(|n: LuaNamespace| n.name@),
                ),
            }
        }),
{
    let mut m: StrMap<LuaNamespace> = StrMap::new();
    let ghost mut done: Seq<(LuaNamespace, bool)> = Seq::empty();
    let mut i: usize = 0;
    while i < config_namespaces.len()
        invariant
            i <= config_namespaces@.len(),
            m.wf(),
            done == config_namespaces@.take(i as int).map_values(|n: LuaNamespace| (n, false)),
            ns_fold(done) == Ok::<Map<Seq<char>, LuaNamespace>, NamespaceConflictError>(m@),
        decreases config_namespaces@.len() - i,
    {
        let ns = config_namespaces[i].duplicate();
        proof {
            assert(config_namespaces@.take(i + 1).map_values(|n: LuaNamespace| (n, false)) =~= done.push((ns, false)));
            assert(done.push((ns, false)).drop_last() =~= done);
            done = done.push((ns, false));
        }
        m.insert(ns.name.clone(), ns);
        i = i + 1;
    }
    proof {
        assert(config_namespaces@.take(config_namespaces@.len() as int) =~= config_namespaces@);
    }
    let ghost config_items = done;
    let mut a: usize = 0;
    while a < input_namespaces.len()
        invariant
            a <= input_namespaces@.len(),
            follows_resolved.wf(),
            m.wf(),
            config_items == config_namespaces@.map_values(|n: LuaNamespace| (n, false)),
            done == config_items + input_ns_items(input_namespaces@.take(a as int), follows_resolved@.dom()),
            ns_fold(done) == Ok::<Map<Seq<char>, LuaNamespace>, NamespaceConflictError>(m@),
        decreases input_namespaces@.len() - a,
    {
        let provider = &input_namespaces[a].0;
        let nss = &input_namespaces[a].1;
        proof {
            assert(input_namespaces@.take(a + 1).drop_last() =~= input_namespaces@.take(a as int));
            assert(input_namespaces@.take(a + 1).last() == input_namespaces@[a as int]);
        }
        if follows_resolved.contains_key(provider.as_str()) {
            proof {
                assert(done =~= config_items + input_ns_items(input_namespaces@.take(a + 1), follows_resolved@.dom()));
            }
        } else {
            let ghost start = done;
            proof {
                assert(input_ns_items(input_namespaces@.take(a + 1), follows_resolved@.dom()) =~= input_ns_items(input_namespaces@.take(a as int), follows_resolved@.dom())
                    + nss@.map_values(|n: LuaNamespace| (n, true)));
            }
            let mut b: usize = 0;
            while b < nss.len()
                invariant
                    b <= nss@.len(),
                    m.wf(),
                    a < input_namespaces@.len(),
                    *nss == input_namespaces@[a as int].1,
                    !follows_resolved@.dom().contains(input_namespaces@[a as int].0@),
                    follows_resolved.wf(),
                    config_items == config_namespaces@.map_values(|n: LuaNamespace| (n, false)),
                    start == config_items + input_ns_items(input_namespaces@.take(a as int), follows_resolved@.dom()),
                    input_ns_items(input_namespaces@.take(a + 1), follows_resolved@.dom()) == input_ns_items(input_namespaces@.take(a as int), follows_resolved@.dom())
                        + nss@.map_values(|n: LuaNamespace| (n, true)),
                    done == start + nss@.take(b as int).map_values(|n: LuaNamespace| (n, true)),
                    ns_fold(done) == Ok::<Map<Seq<char>, LuaNamespace>, NamespaceConflictError>(m@),
                decreases nss@.len() - b,
            {
                let ns = nss[b].duplicate();
                proof {
                    assert(nss@.take(b + 1).map_values(|n: LuaNamespace| (n, true)) =~= nss@.take(b as int).map_values(|n: LuaNamespace| (n, true)).push((ns, true)));
                    assert(done.push((ns, true)).drop_last() =~= done);
                }
                match m.get(ns.name.as_str()) {
                    Some(existing) => {
                        if existing.same_source(&ns) {
                            proof {
                                done = done.push((ns, true));
                            }
                        } else {
                            let err = NamespaceConflictError {
                                namespace: ns.name.clone(),
                                provider1: existing.provider_input.clone(),
                                url1: existing.url.clone(),
                                rev1: existing.rev.clone(),
                                provider2: ns.provider_input.clone(),
                                url2: ns.url.clone(),
                                rev2: ns.rev.clone(),
                            };
                            proof {
                                let items = config_namespaces@.map_values(|n: LuaNamespace| (n, false)) + input_ns_items(
                                    input_namespaces@,
                                    follows_resolved@.dom(),
                                );
                                let whole_a = input_ns_items(input_namespaces@.take(a + 1), follows_resolved@.dom());
                                lemma_input_ns_prefix(input_namespaces@, follows_resolved@.dom(), a + 1);
                                let pre = done.push((ns, true));
                                assert(pre =~= (config_items + whole_a).subrange(0, pre.len() as int));
                                assert(pre =~= items.subrange(0, pre.len() as int));
                                lemma_ns_fold_stops(pre, items);
                            }
                            return Err(err);
                        }
                    },
                    None => {
                        proof {
                            done = done.push((ns, true));
                        }
                        m.insert(ns.name.clone(), ns);
                    },
                }
                b = b + 1;
            }
            proof {
                assert(nss@.take(nss@.len() as int) =~= nss@);
                assert(done =~= config_items + input_ns_items(input_namespaces@.take(a + 1), follows_resolved@.dom()));
            }
        }
        a = a + 1;
    }
    proof {
        assert(input_namespaces@.take(input_namespaces@.len() as int) =~= input_namespaces@);
        assert(ns_fold(done) == Ok::<Map<Seq<char>, LuaNamespace>, NamespaceConflictError>(m@));
        lemma_ns_fold_names(done);
        assert forall|x: Seq<char>| #[trigger] m@.dom().contains(x) implies m@[x].name@ == x by {
            assert(ns_fold(done)->Ok_0 == m@);
            assert(ns_fold(done)->Ok_0.dom().contains(x));
        }
        m.lemma_view();
    }
    let mut v: Vec<LuaNamespace> = Vec::new();
    let mut k: usize = 0;
    let n = m.len();
    while k < n
        invariant
            m.wf(),
            n == m.keys().len(),
            k <= n,
            v@.len() == k,
            forall|x: Seq<char>| #[trigger] m@.dom().contains(x) ==> m@[x].name@ == x,
            forall|t: int| 0 <= t < k ==> #[trigger] v@[t] == m@[m.keys()[t]],
        decreases n - k,
    {
        proof {
            m.lemma_view();
        }
        let (_, ns) = m.entry_at(k);
        v.push(ns.duplicate());
        k = k + 1;
    }
    proof {
        m.lemma_view();
        assert forall|t: int| 0 <= t < v@.len() implies m@.dom().contains(#[trigger] v@[t].name@) && m@[v@[t].name@] == v@[t] by {
            assert(m@.dom().contains(m.keys()[t]));
        }
        assert(v@.map_values(|x: LuaNamespace| x.name@) =~= m.keys()) by {
            assert forall|t: int| 0 <= t < v@.len() implies v@.map_values(|x: LuaNamespace| x.name@)[t] == m.keys()[t] by {
                assert(m@.dom().contains(m.keys()[t]));
            }
        }
        m.lemma_view();
        assert(m@.dom() =~= m.keys().to_set());
        crate::strmap::lemma_sorted_distinct(m.keys());
        m.keys().unique_seq_to_set();
    }
    Ok(v)
}

/// A fold that failed on a prefix fails the same way on the whole.
proof fn lemma_ns_fold_stops(prefix: Seq<(LuaNamespace, bool)>, items: Seq<(LuaNamespace, bool)>)
    requires
        ns_fold(prefix) is Err,
        prefix.len() <= items.len(),
        items.subrange(0, prefix.len() as int) == prefix,
    ensures
        ns_fold(items) == ns_fold(prefix),
    decreases items.len() - prefix.len(),
{
    if items.len() > prefix.len() {
        assert(items.drop_last().subrange(0, prefix.len() as int) =~= prefix);
        lemma_ns_fold_stops(prefix, items.drop_last());
    } else {
        assert(items =~= prefix);
    }
}

/// In a successful fold, each namespace is kept under its own name.
proof fn lemma_ns_fold_names(items: Seq<(LuaNamespace, bool)>)
    requires
        ns_fold(items) is Ok,
    ensures
        forall|x: Seq<char>| #[trigger] ns_fold(items)->Ok_0.dom().contains(x) ==> ns_fold(items)->Ok_0[x].name@ == x,
    decreases items.len(),
{
    if items.len() > 0 {
        lemma_ns_fold_names(items.drop_last());
    }
}

/// The namespaces of the first inputs come first among those of all inputs.
proof fn lemma_input_ns_prefix(inputs: Seq<(String, Vec<LuaNamespace>)>, followed: Set<Seq<char>>, a: int)
    requires
        0 <= a <= inputs.len(),
    ensures
        input_ns_items(inputs.take(a), followed).len() <= input_ns_items(inputs, followed).len(),
        input_ns_items(inputs, followed).subrange(0, input_ns_items(inputs.take(a), followed).len() as int)
            == input_ns_items(inputs.take(a), followed),
    decreases inputs.len() - a,
{
    if a < inputs.len() {
        lemma_input_ns_prefix(inputs, followed, a + 1);
        assert(inputs.take(a + 1).drop_last() =~= inputs.take(a));
        let x = input_ns_items(inputs.take(a), followed);
        let y = input_ns_items(inputs.take(a + 1), followed);
        let z = input_ns_items(inputs, followed);
        assert(y.subrange(0, x.len() as int) =~= x);
        assert(z.subrange(0, x.len() as int) =~= y.subrange(0, x.len() as int));
    } else {
        assert(inputs.take(a) =~= inputs);
        let z = input_ns_items(inputs, followed);
        assert(z.subrange(0, z.len() as int) =~= z);
    }
}

/// The outcome of a resolution.
#[derive(Debug)]
pub struct ResolutionResult {
    /// The resolved root inputs, with their transitive inputs.
    pub inputs: StrMap<ResolvedInput>,
    /// The updated lock file.
    pub lock_file: LockFile,
    /// Whether the lock file changed and should be written.
    pub lock_changed: bool,
    /// The Lua namespaces the configuration and its inputs provide, by name.
    pub namespaces: Vec<LuaNamespace>,
}

/// Where the lock file of a resolution is to be written, if it changed:
/// `{config_dir}/syslua.lock`.
pub fn save_lock_file_if_changed(result: &ResolutionResult, config_dir: &str) -> (r: Option<String>)
    ensures
        r is Some <==> result.lock_changed,
        r matches Some(p) ==> p@ == crate::text::path_join(config_dir@, super::lock::LOCK_FILENAME@),
{
    if result.lock_changed {
        Some(super::lock::lock_file_path(config_dir))
    } else {
        None
    }
}

/// The input declarations of an input's own `init.lua`, from what it
/// returned: none where it returned no table or has no `inputs`; an error,
/// under the file's path, where `inputs` could not be read or is no table,
/// or where a declaration is in error.
pub fn extract_input_decls_from_file(init_path: &str, returned: ReturnedValue) -> (r: Result<StrMap<InputDecl>, ResolveError>)
    ensures
        match returned {
            ReturnedValue::Other => r matches Ok(m) && m.wf() && m@ == Map::<Seq<char>, InputDecl>::empty(),
            ReturnedValue::Table(Err(e)) => r matches Err(ResolveError::ExtractInputs { name, message }) && name@ == init_path@ && message@ == e@,
            ReturnedValue::Table(Ok(NamedTable::Nil)) => r matches Ok(m) && m.wf() && m@ == Map::<Seq<char>, InputDecl>::empty(),
            ReturnedValue::Table(Ok(NamedTable::Table(ps))) => match r {
                Ok(m) => decls_error(Dialect::Dependency, ps@) is None && m.wf() && decls_built(ps@, m@),
                Err(x) => x matches ResolveError::ExtractInputs { name, message } && name@ == init_path@
                    && decls_error(Dialect::Dependency, ps@) == Some(message@),
            },
            ReturnedValue::Table(Ok(NamedTable::Other)) => r matches Err(ResolveError::ExtractInputs { name, message })
                && name@ == init_path@ && message@ == "inputs field is not a table"@,
        },
{
    match returned {
        ReturnedValue::Other => Ok(StrMap::new()),
        ReturnedValue::Table(inputs) => match inputs {
            Err(e) => Err(ResolveError::ExtractInputs { name: init_path.to_string(), message: e }),
            Ok(field) => match field {
                NamedTable::Nil => Ok(StrMap::new()),
                NamedTable::Table(ps) => match parse_decls(Dialect::Dependency, ps) {
                    Ok(m) => Ok(m),
                    Err(e) => Err(ResolveError::ExtractInputs { name: init_path.to_string(), message: e }),
                },
                NamedTable::Other => Err(ResolveError::ExtractInputs {
                    name: init_path.to_string(),
                    message: "inputs field is not a table".to_string(),
                }),
            },
        },
    }
}

} // verus!
