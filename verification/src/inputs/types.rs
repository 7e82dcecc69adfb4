//! Input types for declaration and resolution.
//!
//! - [`InputDecl`]: an input declaration as written in a config (before resolution)
//! - [`InputOverride`]: an override for a transitive dependency
//! - [`ResolvedInput`]: a resolved input with its path, revision and transitive inputs
//! - [`LockNode`]: a node of the lock file's dependency graph
use vstd::prelude::*;
use crate::strmap::{StrMap, strictly_sorted, compare_str};

verus! {

/// Maximum number of hops followed when resolving a chain of `follows`.
pub const MAX_FOLLOWS_DEPTH: usize = 10;

/// An override for a transitive dependency.
#[derive(Debug, Clone, PartialEq, Eq)]
pub enum InputOverride {
    /// Use a different URL.
    Url(String),
    /// Follow another input (its resolved value is used).
    Follows(String),
}

/// A parsed input declaration.
#[derive(Debug, Clone, PartialEq, Eq)]
pub enum InputDecl {
    /// A plain URL string.
    Url(String),
    /// A URL (possibly absent) with overrides of transitive dependencies.
    Extended { url: Option<String>, inputs: StrMap<InputOverride> },
}

impl InputOverride {
    /// The follows target, when this is a follows override.
    pub open spec fn spec_follows(&self) -> Option<Seq<char>> {
        match self {
            InputOverride::Follows(p) => Some(p@),
            InputOverride::Url(_) => None,
        }
    }

    /// A copy of this override.
    pub fn duplicate(&self) -> (r: Self)
        ensures
            r == *self,
    {
        match self {
            InputOverride::Url(u) => InputOverride::Url(u.clone()),
            InputOverride::Follows(p) => InputOverride::Follows(p.clone()),
        }
    }

    /// Whether this is a follows override.
    pub fn is_follows(&self) -> (b: bool)
        ensures
            b <==> self is Follows,
    {
        match self {
            InputOverride::Follows(_) => true,
            InputOverride::Url(_) => false,
        }
    }

    /// The follows path, when this is a follows override.
    pub fn follows_path(&self) -> (r: Option<&str>)
        ensures
            match r {
                Some(p) => self.spec_follows() == Some(p@),
                None => self.spec_follows() is None,
            },
    {
        match self {
            InputOverride::Follows(p) => Some(p.as_str()),
            InputOverride::Url(_) => None,
        }
    }
}

impl InputDecl {
    /// The declared URL, if any.
    pub open spec fn spec_url(&self) -> Option<Seq<char>> {
        match self {
            InputDecl::Url(u) => Some(u@),
            InputDecl::Extended { url, .. } => match url {
                Some(u) => Some(u@),
                None => None,
            },
        }
    }

    /// The overrides, when there is at least one.
    pub open spec fn spec_overrides(&self) -> Option<StrMap<InputOverride>> {
        match self {
            InputDecl::Url(_) => None,
            InputDecl::Extended { inputs, .. } => if inputs@.len() == 0 {
                None
            } else {
                Some(*inputs)
            },
        }
    }

    /// Every map inside the declaration is well formed.
    pub open spec fn wf(&self) -> bool {
        match self {
            InputDecl::Url(_) => true,
            InputDecl::Extended { inputs, .. } => inputs.wf(),
        }
    }

    /// Two declarations say the same: same form, same URL, same overrides.
    pub open spec fn same_as(&self, other: &InputDecl) -> bool {
        match (self, other) {
            (InputDecl::Url(a), InputDecl::Url(b)) => a@ == b@,
            (InputDecl::Extended { url: ua, inputs: ia }, InputDecl::Extended { url: ub, inputs: ib }) => {
                &&& self.spec_url() == other.spec_url()
                &&& ia.pairs() == ib.pairs()
            },
            _ => false,
        }
    }

    /// A copy of this declaration.
    pub fn duplicate(&self) -> (r: Self)
        requires
            self.wf(),
        ensures
            r.wf(),
            r.same_as(self),
            r.spec_url() == self.spec_url(),
            r.spec_overrides() matches Some(m) ==> self.spec_overrides() matches Some(n) && m@ == n@ && m.pairs() == n.pairs(),
            r.spec_overrides() is None ==> self.spec_overrides() is None,
    {
        match self {
            InputDecl::Url(u) => InputDecl::Url(u.clone()),
            InputDecl::Extended { url, inputs } => {
                let u = match url {
                    Some(x) => Some(x.clone()),
                    None => None,
                };
                let m = inputs.duplicate_with(|o: &InputOverride| -> (r: InputOverride)
                    ensures
                        r == *o,
                    { o.duplicate() });
                InputDecl::Extended { url: u, inputs: m }
            },
        }
    }

    /// The URL from the declaration, if present.
    pub fn url(&self) -> (r: Option<&str>)
        ensures
            match r {
                Some(u) => self.spec_url() == Some(u@),
                None => self.spec_url() is None,
            },
    {
        match self {
            InputDecl::Url(u) => Some(u.as_str()),
            InputDecl::Extended { url, .. } => match url {
                Some(u) => Some(u.as_str()),
                None => None,
            },
        }
    }

    /// The input overrides, if there are any.
    pub fn overrides(&self) -> (r: Option<&StrMap<InputOverride>>)
        requires
            self.wf(),
        ensures
            match r {
                Some(m) => self.spec_overrides() == Some(*m),
                None => self.spec_overrides() is None,
            },
    {
        match self {
            InputDecl::Url(_) => None,
            InputDecl::Extended { inputs, .. } => {
                if inputs.is_empty() {
                    None
                } else {
                    Some(inputs)
                }
            },
        }
    }

    /// Whether this declaration has any overrides.
    pub fn has_overrides(&self) -> (b: bool)
        requires
            self.wf(),
        ensures
            b <==> self.spec_overrides() is Some,
    {
        match self {
            InputDecl::Url(_) => false,
            InputDecl::Extended { inputs, .. } => !inputs.is_empty(),
        }
    }
}

/// A resolved input: its directory, its revision, and its resolved transitive inputs.
#[derive(Debug)]
pub struct ResolvedInput {
    /// Directory of the input's root.
    pub path: String,
    /// Resolved revision (commit hash, or "local" for path inputs).
    pub rev: String,
    /// Resolved transitive dependencies, by the name they are declared under.
    pub inputs: Vec<(String, ResolvedInput)>,
}

impl ResolvedInput {
    /// The names of the transitive inputs, in order.
    pub open spec fn input_names(&self) -> Seq<Seq<char>> {
        self.inputs@.map_values(|e: (String, ResolvedInput)| e.0@)
    }

    /// Transitive inputs are listed in strictly ascending name order.
    pub open spec fn wf(&self) -> bool {
        strictly_sorted(self.input_names())
    }

    /// A resolved input without transitive dependencies.
    pub fn new(path: String, rev: String) -> (r: Self)
        ensures
            r.path == path,
            r.rev == rev,
            r.inputs@ == Seq::<(String, ResolvedInput)>::empty(),
            r.wf(),
    {
        let r = ResolvedInput { path, rev, inputs: Vec::new() };
        assert(r.input_names() =~= Seq::<Seq<char>>::empty());
        r
    }

    /// A resolved input with transitive dependencies, given in ascending name order.
    pub fn with_inputs(path: String, rev: String, inputs: Vec<(String, ResolvedInput)>) -> (r: Self)
        ensures
            r.path == path,
            r.rev == rev,
            r.inputs == inputs,
    {
        ResolvedInput { path, rev, inputs }
    }

    /// Number of transitive inputs.
    pub fn input_count(&self) -> (n: usize)
        ensures
            n == self.inputs@.len(),
    {
        self.inputs.len()
    }

    /// The transitive input declared under `name`, if any.
    pub fn get_input(&self, name: &str) -> (r: Option<&ResolvedInput>)
        ensures
            match r {
                Some(x) => exists|i: int| 0 <= i < self.inputs@.len() && self.inputs@[i].0@ == name@ && self.inputs@[i].1 == *x,
                None => forall|i: int| 0 <= i < self.inputs@.len() ==> self.inputs@[i].0@ != name@,
            },
    {
        let mut i: usize = 0;
        while i < self.inputs.len()
            invariant
                i <= self.inputs@.len(),
                forall|j: int| 0 <= j < i ==> self.inputs@[j].0@ != name@,
            decreases self.inputs@.len() - i,
        {
            if compare_str(self.inputs[i].0.as_str(), name) == 0 {
                return Some(&self.inputs[i].1);
            }
            i = i + 1;
        }
        None
    }
}

/// A node of the lock file's dependency graph.
#[derive(Debug, Clone, PartialEq, Eq)]
pub struct LockNode {
    /// Input type: "git" or "path" (absent on the root node).
    pub type_: Option<String>,
    /// URL from the config (absent on the root node).
    pub url: Option<String>,
    /// Pinned revision.
    pub rev: Option<String>,
    /// Unix time of the last fetch.
    pub last_modified: Option<u64>,
    /// Dependencies: input name to node label.
    pub inputs: StrMap<String>,
}

impl LockNode {
    /// Whether a node is the root node: it has neither type nor URL.
    pub open spec fn spec_is_root(&self) -> bool {
        self.type_ is None && self.url is None
    }

    /// A new root node.
    pub fn root(inputs: StrMap<String>) -> (n: Self)
        ensures
            n.type_ is None,
            n.url is None,
            n.rev is None,
            n.last_modified is None,
            n.inputs == inputs,
    {
        LockNode { type_: None, url: None, rev: None, last_modified: None, inputs }
    }

    /// A new input node.
    pub fn input(type_: &str, url: &str, rev: &str, last_modified: Option<u64>, inputs: StrMap<String>) -> (n: Self)
        ensures
            n.type_ matches Some(t) && t@ == type_@,
            n.url matches Some(u) && u@ == url@,
            n.rev matches Some(r) && r@ == rev@,
            n.last_modified == last_modified,
            n.inputs == inputs,
    {
        LockNode {
            type_: Some(type_.to_owned()),
            url: Some(url.to_owned()),
            rev: Some(rev.to_owned()),
            last_modified,
            inputs,
        }
    }

    /// Whether this is the root node.
    pub fn is_root(&self) -> (b: bool)
        ensures
            b == self.spec_is_root(),
    {
        self.type_.is_none() && self.url.is_none()
    }
}

/// A Lua namespace: a directory under an input's `lua/` that `require` can load from.
#[derive(Debug, Clone, PartialEq, Eq)]
pub struct LuaNamespace {
    /// The namespace (the directory name).
    pub name: String,
    /// The input that provides it (`<config>` for the configuration itself).
    pub provider_input: String,
    /// The provider's URL.
    pub url: String,
    /// The provider's revision.
    pub rev: String,
    /// The namespace directory.
    pub path: String,
}

impl LuaNamespace {
    /// A namespace record.
    pub fn new(name: String, provider_input: &str, url: &str, rev: &str, path: String) -> (n: Self)
        ensures
            n.name == name,
            n.provider_input@ == provider_input@,
            n.url@ == url@,
            n.rev@ == rev@,
            n.path == path,
    {
        LuaNamespace { name, provider_input: provider_input.to_owned(), url: url.to_owned(), rev: rev.to_owned(), path }
    }

    /// A copy of the namespace record.
    pub fn duplicate(&self) -> (r: Self)
        ensures
            r == *self,
    {
        LuaNamespace {
            name: self.name.clone(),
            provider_input: self.provider_input.clone(),
            url: self.url.clone(),
            rev: self.rev.clone(),
            path: self.path.clone(),
        }
    }

    /// Two namespaces come from the same source: same URL and same revision.
    pub open spec fn spec_same_source(&self, other: &LuaNamespace) -> bool {
        self.url@ == other.url@ && self.rev@ == other.rev@
    }

    /// Whether two namespaces come from the same source (URL and revision).
    pub fn same_source(&self, other: &LuaNamespace) -> (b: bool)
        ensures
            b == self.spec_same_source(other),
    {
        compare_str(self.url.as_str(), other.url.as_str()) == 0 && compare_str(self.rev.as_str(), other.rev.as_str()) == 0
    }
}

} // verus!
