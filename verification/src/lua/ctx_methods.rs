//! The methods a configuration adds to the contexts of builds and binds.
//!
//! `sys.register_build_ctx_method` and `sys.register_bind_ctx_method` add a
//! named method to one kind of context. Built-in methods cannot be replaced;
//! the two kinds keep separate registries; looking up a name that is neither
//! built in nor registered is an error that says how to register it.
use vstd::prelude::*;
use crate::strmap::StrMap;
use crate::text::{concat_str, compare_str_eq};

verus! {

/// The kind of context a method belongs to.
#[derive(Clone, Copy, Debug, PartialEq, Eq, Structural)]
pub enum CtxKind {
    Build,
    Bind,
}

/// `build` or `bind`, as the messages name the kind.
pub open spec fn ctx_word(k: CtxKind) -> Seq<char> {
    match k {
        CtxKind::Build => "build"@,
        CtxKind::Bind => "bind"@,
    }
}

/// The built-in methods: `exec` and `out` of both kinds, and `fetch_url` of
/// a build's context.
pub open spec fn is_builtin(k: CtxKind, name: Seq<char>) -> bool {
    name == "exec"@ || name == "out"@ || (k == CtxKind::Build && name == "fetch_url"@)
}

/// Whether `name` is a built-in method of the kind of context.
pub fn is_builtin_method(kind: CtxKind, name: &str) -> (b: bool)
    ensures
        b == is_builtin(kind, name@),
{
    compare_str_eq(name, "exec") || compare_str_eq(name, "out") || (kind == CtxKind::Build && compare_str_eq(name, "fetch_url"))
}

/// The word of a kind of context.
fn kind_word(kind: CtxKind) -> (r: &'static str)
    ensures
        r@ == ctx_word(kind),
{
    match kind {
        CtxKind::Build => "build",
        CtxKind::Bind => "bind",
    }
}

/// The error of replacing a built-in method.
pub open spec fn builtin_override_message(k: CtxKind, name: Seq<char>) -> Seq<char> {
    "cannot override built-in "@ + ctx_word(k) + " ctx method '"@ + name + "'"@
}

/// The error of calling a method that is neither built in nor registered.
pub open spec fn unknown_method_message(k: CtxKind, name: Seq<char>) -> Seq<char> {
    "unknown "@ + ctx_word(k) + " ctx method '"@ + name + "'. Use sys.register_"@ + ctx_word(k)
        + "_ctx_method to add custom methods."@
}

/// The registered methods of both kinds of context, each by name.
pub struct CtxMethods<F> {
    build: StrMap<F>,
    bind: StrMap<F>,
}

impl<F> CtxMethods<F> {
    /// The methods registered for a kind of context.
    pub closed spec fn methods(&self, k: CtxKind) -> Map<Seq<char>, F> {
        match k {
            CtxKind::Build => self.build@,
            CtxKind::Bind => self.bind@,
        }
    }

    /// Both registries are well formed, and neither holds a built-in name.
    pub closed spec fn wf(&self) -> bool {
        &&& self.build.wf()
        &&& self.bind.wf()
        &&& forall|k: CtxKind, n: Seq<char>| is_builtin(k, n) ==> !(#[trigger] self.methods(k).dom().contains(n))
    }

    /// No custom method yet.
    pub fn new() -> (r: Self)
        ensures
            r.wf(),
            forall|k: CtxKind| #[trigger] r.methods(k) == Map::<Seq<char>, F>::empty(),
    {
        let r = CtxMethods { build: StrMap::new(), bind: StrMap::new() };
        assert forall|k: CtxKind| #[trigger] r.methods(k) == Map::<Seq<char>, F>::empty() by {
            match k {
                CtxKind::Build => {},
                CtxKind::Bind => {},
            }
        }
        r
    }

    /// Registers a method for a kind of context. A built-in name is refused
    /// and nothing changes; else the method is added, replacing one
    /// registered under the name (the result says whether one was), and the
    /// other kind's methods stay as they are.
    pub fn register(&mut self, kind: CtxKind, name: String, f: F) -> (r: Result<bool, String>)
        requires
            old(self).wf(),
        ensures
            final(self).wf(),
            is_builtin(kind, name@) ==> {
                &&& r matches Err(e) && e@ == builtin_override_message(kind, name@)
                &&& forall|k: CtxKind| #[trigger] final(self).methods(k) == old(self).methods(k)
            },
            !is_builtin(kind, name@) ==> {
                &&& r == Ok::<bool, String>(old(self).methods(kind).dom().contains(name@))
                &&& final(self).methods(kind) == old(self).methods(kind).insert(name@, f)
                &&& forall|k: CtxKind| k != kind ==> #[trigger] final(self).methods(k) == old(self).methods(k)
            },
    {
        if is_builtin_method(kind, name.as_str()) {
            let s = concat_str("cannot override built-in ", kind_word(kind));
            let s = concat_str(s.as_str(), " ctx method '");
            let s = concat_str(s.as_str(), name.as_str());
            return Err(concat_str(s.as_str(), "'"));
        }
        let ghost key = name@;
        let existed = match kind {
            CtxKind::Build => self.build.insert(name, f).is_some(),
            CtxKind::Bind => self.bind.insert(name, f).is_some(),
        };
        proof {
            assert forall|k: CtxKind, n: Seq<char>| is_builtin(k, n) implies !(#[trigger] self.methods(k).dom().contains(n)) by {
                if k == kind && n == key {
                } else {
                    assert(!old(self).methods(k).dom().contains(n));
                }
            }
        }
        Ok(existed)
    }

    /// The method registered for a kind of context under `name`, or the
    /// error that says how to register one.
    pub fn lookup(&self, kind: CtxKind, name: &str) -> (r: Result<&F, String>)
        requires
            self.wf(),
        ensures
            match r {
                Ok(f) => self.methods(kind).dom().contains(name@) && *f == self.methods(kind)[name@],
                Err(e) => !self.methods(kind).dom().contains(name@) && e@ == unknown_method_message(kind, name@),
            },
    {
        let found = match kind {
            CtxKind::Build => self.build.get(name),
            CtxKind::Bind => self.bind.get(name),
        };
        match found {
            Some(f) => Ok(f),
            None => {
                let w = kind_word(kind);
                let s = concat_str("unknown ", w);
                let s = concat_str(s.as_str(), " ctx method '");
                let s = concat_str(s.as_str(), name);
                let s = concat_str(s.as_str(), "'. Use sys.register_");
                let s = concat_str(s.as_str(), w);
                Err(concat_str(s.as_str(), "_ctx_method to add custom methods."))
            },
        }
    }

    /// A built-in name is never among the registered methods, whatever was
    /// registered before.
    pub proof fn lemma_builtins_never_registered(&self, k: CtxKind, name: Seq<char>)
        requires
            self.wf(),
            is_builtin(k, name),
        ensures
            !self.methods(k).dom().contains(name),
    {
    }
}

} // verus!
