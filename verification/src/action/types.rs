//! Actions and the context that records them.
//!
//! Each recorded action gets a placeholder, `$${{action:N}}` for the N-th
//! action, that later actions and outputs can use; at execution time it is
//! replaced by that action's output. `$${{out}}` stands for the output directory.
use vstd::prelude::*;
use crate::strmap::StrMap;
use crate::text::{decimal, usize_to_decimal, concat_str};

verus! {

/// Options of an executed binary.
#[derive(Debug, Clone, PartialEq)]
pub struct ExecOpts {
    /// The binary (or command line) to run.
    pub bin: String,
    /// Its arguments.
    pub args: Option<Vec<String>>,
    /// Extra environment variables.
    pub env: Option<StrMap<String>>,
    /// The working directory.
    pub cwd: Option<String>,
}

impl ExecOpts {
    /// Runs `bin` with no arguments, environment or working directory.
    pub fn new(bin: &str) -> (o: Self)
        ensures
            o.bin@ == bin@,
            o.args is None,
            o.env is None,
            o.cwd is None,
    {
        ExecOpts { bin: bin.to_owned(), args: None, env: None, cwd: None }
    }

    /// Sets the environment.
    pub fn with_env(self, env: StrMap<String>) -> (o: Self)
        ensures
            o == (ExecOpts { env: Some(env), ..self }),
    {
        ExecOpts { env: Some(env), ..self }
    }

    /// Sets the working directory.
    pub fn with_cwd(self, cwd: &str) -> (o: Self)
        ensures
            o.bin == self.bin,
            o.args == self.args,
            o.env == self.env,
            o.cwd matches Some(c) && c@ == cwd@,
    {
        ExecOpts { cwd: Some(cwd.to_owned()), ..self }
    }
}

/// An action of a build or bind.
#[derive(Debug, Clone, PartialEq)]
pub enum Action {
    /// Download a URL and check its SHA-256 (lowercase hex).
    FetchUrl { url: String, sha256: String },
    /// Run a binary.
    Exec(ExecOpts),
}

/// The placeholder of the `i`-th action: `$${{action:i}}`.
pub open spec fn action_placeholder(i: nat) -> Seq<char> {
    "$${{action:"@ + decimal(i) + "}}"@
}

/// Each action gets its own placeholder: those of different actions differ.
pub proof fn lemma_action_placeholders_distinct(i: nat, j: nat)
    requires
        action_placeholder(i) == action_placeholder(j),
    ensures
        i == j,
{
    let head = "$${{action:"@;
    let tail = "}}"@;
    reveal_strlit("$${{action:");
    reveal_strlit("}}");
    let a = action_placeholder(i);
    let b = action_placeholder(j);
    assert(a.subrange(head.len() as int, a.len() - tail.len()) =~= decimal(i));
    assert(b.subrange(head.len() as int, b.len() - tail.len()) =~= decimal(j));
    crate::text::lemma_decimal_injective(i, j);
}

/// Step `i` of a run of recording calls: the context after it holds what it
/// held before, with one more action at the end (as after `fetch_url` or `exec`).
pub open spec fn appends_one_action(states: Seq<Seq<Action>>, i: int) -> bool {
    &&& states[i + 1].len() == states[i].len() + 1
    &&& states[i + 1].drop_last() == states[i]
}

/// The state after `n` steps of a run from an empty context holds `n` actions,
/// the `i`-th of them the one appended by step `i`.
proof fn lemma_run_prefix(states: Seq<Seq<Action>>, n: int)
    requires
        0 <= n < states.len(),
        states[0] == Seq::<Action>::empty(),
        forall|i: int| 0 <= i < states.len() - 1 ==> #[trigger] appends_one_action(states, i),
    ensures
        states[n].len() == n,
        forall|i: int| 0 <= i < n ==> states[n][i] == (#[trigger] states[i + 1]).last(),
    decreases n,
{
    if n > 0 {
        lemma_run_prefix(states, n - 1);
        assert(appends_one_action(states, n - 1));
        let cur = states[n];
        assert forall|i: int| 0 <= i < n implies cur[i] == (#[trigger] states[i + 1]).last() by {
            if i < n - 1 {
                assert(cur.drop_last()[i] == cur[i]);
            }
        }
    }
}

/// Recording from a fresh context: when a context starts empty and each call
/// appends one action, the `i`-th call hands out `action_placeholder(i)`, the
/// placeholders of different calls differ, and the context ends holding exactly
/// the appended actions in call order, none dropped, repeated or reordered.
pub proof fn lemma_recording_keeps_call_order(states: Seq<Seq<Action>>)
    requires
        states.len() >= 1,
        states[0] == Seq::<Action>::empty(),
        forall|i: int| 0 <= i < states.len() - 1 ==> #[trigger] appends_one_action(states, i),
    ensures
        forall|i: int| 0 <= i < states.len() ==> (#[trigger] states[i]).len() == i,
        forall|i: int, j: int|
            0 <= i < j < states.len() ==> action_placeholder(#[trigger] states[i].len()) != action_placeholder(
                #[trigger] states[j].len(),
            ),
        states.last().len() == states.len() - 1,
        forall|i: int| 0 <= i < states.len() - 1 ==> states.last()[i] == (#[trigger] states[i + 1]).last(),
{
    assert forall|i: int| 0 <= i < states.len() implies (#[trigger] states[i]).len() == i by {
        lemma_run_prefix(states, i);
    }
    assert forall|i: int, j: int| 0 <= i < j < states.len() implies action_placeholder(
        #[trigger] states[i].len(),
    ) != action_placeholder(#[trigger] states[j].len()) by {
        lemma_run_prefix(states, i);
        lemma_run_prefix(states, j);
        if action_placeholder(states[i].len()) == action_placeholder(states[j].len()) {
            lemma_action_placeholders_distinct(states[i].len(), states[j].len());
        }
    }
    lemma_run_prefix(states, states.len() - 1);
}

/// The placeholder of the output directory.
pub open spec fn out_placeholder() -> Seq<char> {
    "$${{out}}"@
}

/// Records the actions of a build's or bind's `create` function.
pub struct ActionCtx {
    actions: Vec<Action>,
}

impl ActionCtx {
    /// The actions recorded so far, in order.
    pub closed spec fn recorded(&self) -> Seq<Action> {
        self.actions@
    }

    /// An empty context.
    pub fn new() -> (c: Self)
        ensures
            c.recorded() == Seq::<Action>::empty(),
    {
        ActionCtx { actions: Vec::new() }
    }

    /// The placeholder of the output directory, `$${{out}}`.
    pub fn out(&self) -> (r: &'static str)
        ensures
            r@ == out_placeholder(),
    {
        "$${{out}}"
    }

    /// Records a download and returns the placeholder of the downloaded file.
    pub fn fetch_url(&mut self, url: &str, sha256: &str) -> (p: String)
        requires
            old(self).recorded().len() < usize::MAX,
        ensures
            final(self).recorded().len() == old(self).recorded().len() + 1,
            final(self).recorded().drop_last() == old(self).recorded(),
            final(self).recorded().last() matches Action::FetchUrl { url: u, sha256: h } && u@ == url@ && h@ == sha256@,
            p@ == action_placeholder(old(self).recorded().len()),
    {
        self.record_action(Action::FetchUrl { url: url.to_owned(), sha256: sha256.to_owned() })
    }

    /// Records a command and returns the placeholder of its output.
    pub fn exec(&mut self, opts: ExecOpts) -> (p: String)
        requires
            old(self).recorded().len() < usize::MAX,
        ensures
            final(self).recorded() == old(self).recorded().push(Action::Exec(opts)),
            p@ == action_placeholder(old(self).recorded().len()),
    {
        self.record_action(Action::Exec(opts))
    }

    /// Appends an action and returns its placeholder.
    fn record_action(&mut self, action: Action) -> (p: String)
        requires
            old(self).recorded().len() < usize::MAX,
        ensures
            final(self).recorded() == old(self).recorded().push(action),
            p@ == action_placeholder(old(self).recorded().len()),
    {
        let index = self.actions.len();
        self.actions.push(action);
        let head = "$${{action:";
        let tail = "}}";
        proof {
            reveal_strlit("$${{action:");
            reveal_strlit("}}");
        }
        let n = usize_to_decimal(index);
        let s = concat_str(head, n.as_str());
        concat_str(s.as_str(), tail)
    }

    /// The number of actions recorded.
    pub fn action_count(&self) -> (n: usize)
        ensures
            n == self.recorded().len(),
    {
        self.actions.len()
    }

    /// The recorded actions, in order.
    pub fn into_actions(self) -> (v: Vec<Action>)
        ensures
            v@ == self.recorded(),
    {
        self.actions
    }
}

} // verus!
