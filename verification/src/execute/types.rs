//! Error, result and configuration types of build and bind execution.
use vstd::prelude::*;
use crate::hash::ObjectHash;
use crate::strmap::StrMap;
use crate::text::concat_str;
use crate::bind::types::BindCheckResult;

verus! {

/// The dependency whose failure caused a build or bind to be skipped.
#[derive(Debug, Clone, PartialEq, Eq)]
pub enum FailedDependency {
    /// A build dependency failed.
    Build(ObjectHash),
    /// A bind dependency failed.
    Bind(ObjectHash),
}

/// How a failed dependency is shown: `build:{hash}` or `bind:{hash}`.
pub open spec fn failed_dependency_text(d: FailedDependency) -> Seq<char> {
    match d {
        FailedDependency::Build(h) => "build:"@ + h.0@,
        FailedDependency::Bind(h) => "bind:"@ + h.0@,
    }
}

impl FailedDependency {
    /// The display text of the dependency: `build:{hash}` or `bind:{hash}`.
    pub fn to_string(&self) -> (r: String)
        ensures
            r@ == failed_dependency_text(*self),
    {
        match self {
            FailedDependency::Build(h) => {
                let p = "build:";
                proof {
                    reveal_strlit("build:");
                }
                concat_str(p, h.0.as_str())
            },
            FailedDependency::Bind(h) => {
                let p = "bind:";
                proof {
                    reveal_strlit("bind:");
                }
                concat_str(p, h.0.as_str())
            },
        }
    }
}

/// Errors of build and bind execution.
#[derive(Debug)]
pub enum ExecuteError {
    /// A placeholder could not be resolved.
    Placeholder(String),
    /// A download failed.
    FetchFailed { url: String, message: String },
    /// A download did not have the expected SHA-256.
    HashMismatch { url: String, expected: String, actual: String },
    /// A command exited unsuccessfully.
    CmdFailed { cmd: String, code: Option<i32> },
    /// A command reported an error.
    CmdError { message: String },
    /// An I/O operation failed.
    Io(String),
    /// A dependency failed, so this node was skipped.
    DependencyFailed(ObjectHash),
    /// The dependency graph has a cycle.
    CycleDetected,
    /// A build is not in the manifest.
    BuildNotFound(ObjectHash),
    /// A bind is not in the manifest.
    BindNotFound(ObjectHash),
    /// An action placeholder refers past the recorded actions.
    ActionIndexOutOfBounds { index: usize, max: usize },
    /// The manifest is invalid (for example, a build depends on a bind).
    InvalidManifest(String),
    /// The build output directory could not be hashed.
    HashOutput(String),
    /// The build marker could not be written.
    WriteMarker(String),
    /// The build marker could not be read.
    ReadMarker(String),
    /// The build marker could not be parsed.
    ParseMarker(String),
}

/// The result of one action.
#[derive(Debug, Clone)]
pub struct ActionResult {
    /// The action's output (a file path for a download, stdout for a command).
    pub output: String,
}

/// The result of realizing one build.
#[derive(Debug, Clone)]
pub struct BuildResult {
    /// Where the build's outputs were written.
    pub store_path: String,
    /// Output name to resolved value.
    pub outputs: StrMap<String>,
    /// The results of the build's actions, in order.
    pub action_results: Vec<ActionResult>,
}

/// The result of applying one bind.
#[derive(Debug, Clone)]
pub struct BindResult {
    /// Output name to resolved value.
    pub outputs: StrMap<String>,
    /// The results of the bind's actions, in order.
    pub action_results: Vec<ActionResult>,
}

/// The result of checking one bind for drift.
#[derive(Debug, Clone)]
pub struct DriftResult {
    /// The bind's hash.
    pub hash: ObjectHash,
    /// The bind's id, if it has one.
    pub id: Option<String>,
    /// The check outcome.
    pub result: BindCheckResult,
}

/// The result of executing a whole DAG.
#[derive(Debug)]
pub struct DagResult {
    /// Realized builds, by hash.
    pub realized: StrMap<BuildResult>,
    /// The build that failed, if any (execution stops there).
    pub build_failed: Option<(ObjectHash, ExecuteError)>,
    /// Skipped builds, by hash, with the dependency that failed.
    pub build_skipped: StrMap<FailedDependency>,
    /// Applied binds, by hash.
    pub applied: StrMap<BindResult>,
    /// The bind that failed, if any.
    pub bind_failed: Option<(ObjectHash, ExecuteError)>,
    /// Skipped binds, by hash, with the dependency that failed.
    pub bind_skipped: StrMap<FailedDependency>,
}

/// 1 when an optional value is present, else 0.
pub open spec fn present<T>(o: Option<T>) -> nat {
    if o is Some { 1 } else { 0 }
}

impl DagResult {
    /// A result with nothing executed.
    pub fn new() -> (r: Self)
        ensures
            r.wf(),
            r.realized@ == Map::<Seq<char>, BuildResult>::empty(),
            r.build_failed is None,
            r.build_skipped@ == Map::<Seq<char>, FailedDependency>::empty(),
            r.applied@ == Map::<Seq<char>, BindResult>::empty(),
            r.bind_failed is None,
            r.bind_skipped@ == Map::<Seq<char>, FailedDependency>::empty(),
    {
        DagResult {
            realized: StrMap::new(),
            build_failed: None,
            build_skipped: StrMap::new(),
            applied: StrMap::new(),
            bind_failed: None,
            bind_skipped: StrMap::new(),
        }
    }

    /// All maps are well formed.
    pub open spec fn wf(&self) -> bool {
        &&& self.realized.wf()
        &&& self.build_skipped.wf()
        &&& self.applied.wf()
        &&& self.bind_skipped.wf()
    }

    /// Whether every build and bind succeeded: nothing failed and nothing was skipped.
    pub fn is_success(&self) -> (b: bool)
        requires
            self.wf(),
        ensures
            b == (self.build_failed is None && self.build_skipped@.dom().len() == 0 && self.bind_failed is None
                && self.bind_skipped@.dom().len() == 0),
    {
        self.build_failed.is_none() && self.build_skipped.is_empty() && self.bind_failed.is_none()
            && self.bind_skipped.is_empty()
    }

    /// The number of builds processed: realized, failed and skipped.
    pub fn build_total(&self) -> (n: usize)
        requires
            self.wf(),
            self.realized@.dom().len() + 1 + self.build_skipped@.dom().len() <= usize::MAX,
        ensures
            n == self.realized@.dom().len() + present(self.build_failed) + self.build_skipped@.dom().len(),
    {
        let failed: usize = if self.build_failed.is_some() { 1 } else { 0 };
        self.realized.len() + failed + self.build_skipped.len()
    }

    /// The number of binds processed: applied, failed and skipped.
    pub fn bind_total(&self) -> (n: usize)
        requires
            self.wf(),
            self.applied@.dom().len() + 1 + self.bind_skipped@.dom().len() <= usize::MAX,
        ensures
            n == self.applied@.dom().len() + present(self.bind_failed) + self.bind_skipped@.dom().len(),
    {
        let failed: usize = if self.bind_failed.is_some() { 1 } else { 0 };
        self.applied.len() + failed + self.bind_skipped.len()
    }

    /// The number of builds and binds processed.
    pub fn total(&self) -> (n: usize)
        requires
            self.wf(),
            self.realized@.dom().len() + 1 + self.build_skipped@.dom().len() + self.applied@.dom().len() + 1
                + self.bind_skipped@.dom().len() <= usize::MAX,
        ensures
            n == self.realized@.dom().len() + present(self.build_failed) + self.build_skipped@.dom().len()
                + self.applied@.dom().len() + present(self.bind_failed) + self.bind_skipped@.dom().len(),
    {
        self.build_total() + self.bind_total()
    }
}

/// Parallelism used when the machine's cannot be determined.
pub const FALLBACK_PARALLELISM: usize = 4;

/// Execution settings.
#[derive(Debug, Clone)]
pub struct ExecuteConfig {
    /// The maximum number of builds run at once.
    pub parallelism: usize,
    /// Whether the system store is used (else the user store).
    pub system: bool,
}

impl ExecuteConfig {
    /// The default settings, given the machine's available parallelism
    /// (`None` when it cannot be determined): the user store, and that
    /// parallelism or four.
    pub fn with_available_parallelism(available: Option<usize>) -> (c: Self)
        ensures
            c.parallelism == (match available {
                Some(n) => n,
                None => FALLBACK_PARALLELISM,
            }),
            !c.system,
    {
        let parallelism = match available {
            Some(n) => n,
            None => FALLBACK_PARALLELISM,
        };
        ExecuteConfig { parallelism, system: false }
    }
}

} // verus!
