//! Running the actions of a build or a bind, one after another, as a state
//! machine: the caller runs the action it is told to and reports its outcome.
use vstd::prelude::*;
use crate::build::execute::CacheDecision;
use super::types::{ActionResult, ExecuteError};

verus! {

/// The outputs of the actions that ran, as action results.
pub open spec fn results_of(outputs: Seq<String>) -> Seq<ActionResult> {
    outputs.map_values(|o: String| ActionResult { output: o })
}

/// The actions of one build or bind: each starts only once the one before it
/// succeeded, in order; the first failure ends the run.
pub struct ActionRun {
    count: usize,
    outputs: Vec<String>,
    failure: Option<ExecuteError>,
}

impl ActionRun {
    /// How many actions the run has.
    pub closed spec fn count(&self) -> nat {
        self.count as nat
    }

    /// The outputs of the actions that succeeded, in order.
    pub closed spec fn outputs(&self) -> Seq<String> {
        self.outputs@
    }

    /// The failure that ended the run, if any.
    pub closed spec fn failure(&self) -> Option<ExecuteError> {
        self.failure
    }

    /// The index of the action to run next: the one after those that
    /// succeeded, while none failed and some are left.
    pub open spec fn next(&self) -> Option<nat> {
        if self.failure() is None && self.outputs().len() < self.count() {
            Some(self.outputs().len())
        } else {
            None
        }
    }

    pub closed spec fn wf(&self) -> bool {
        self.outputs@.len() <= self.count
    }

    /// A run of `count` actions, none run yet.
    pub fn new(count: usize) -> (r: Self)
        ensures
            r.wf(),
            r.count() == count,
            r.outputs() == Seq::<String>::empty(),
            r.failure() is None,
    {
        ActionRun { count, outputs: Vec::new(), failure: None }
    }

    /// The run of a build's actions after the cache was looked at: a build
    /// that is reused runs no action at all; otherwise all of them run.
    pub fn for_build(decision: CacheDecision, count: usize) -> (r: Self)
        ensures
            r.wf(),
            r.count() == (if decision == CacheDecision::Reuse { 0 } else { count as nat }),
            r.outputs() == Seq::<String>::empty(),
            r.failure() is None,
    {
        match decision {
            CacheDecision::Reuse => ActionRun::new(0),
            _ => ActionRun::new(count),
        }
    }

    /// The index of the action to run next (see `next`).
    pub fn next_action(&self) -> (r: Option<usize>)
        requires
            self.wf(),
        ensures
            match r {
                Some(i) => self.next() == Some(i as nat),
                None => self.next() is None,
            },
    {
        if self.failure.is_none() && self.outputs.len() < self.count {
            Some(self.outputs.len())
        } else {
            None
        }
    }

    /// Records the outcome of the action `next` named: a success adds its
    /// output, a failure ends the run. Returns whether an action was expected;
    /// when none was, nothing changes.
    pub fn record(&mut self, outcome: Result<String, ExecuteError>) -> (expected: bool)
        requires
            old(self).wf(),
        ensures
            final(self).wf(),
            expected == old(self).next() is Some,
            final(self).count() == old(self).count(),
            !expected ==> final(self).outputs() == old(self).outputs() && final(self).failure() == old(self).failure(),
            expected ==> match outcome {
                Ok(o) => final(self).outputs() == old(self).outputs().push(o) && final(self).failure() is None,
                Err(e) => final(self).outputs() == old(self).outputs() && final(self).failure() == Some(e),
            },
    {
        if !(self.failure.is_none() && self.outputs.len() < self.count) {
            return false;
        }
        match outcome {
            Ok(o) => self.outputs.push(o),
            Err(e) => self.failure = Some(e),
        }
        true
    }

    /// Ends the run: its failure, or the results of all its actions in order.
    /// Where actions are left that never ran, the run is not over: `None`.
    pub fn finish(self) -> (r: Option<Result<Vec<ActionResult>, ExecuteError>>)
        requires
            self.wf(),
        ensures
            match self.failure() {
                Some(e) => r == Some(Err::<Vec<ActionResult>, ExecuteError>(e)),
                None => if self.outputs().len() == self.count() {
                    r matches Some(Ok(v)) && v@ == results_of(self.outputs())
                } else {
                    r is None
                },
            },
    {
        match self.failure {
            Some(e) => Some(Err(e)),
            None => {
                if self.outputs.len() < self.count {
                    return None;
                }
                let mut v: Vec<ActionResult> = Vec::new();
                let ghost all = self.outputs@;
                let n = self.outputs.len();
                let mut i: usize = 0;
                while i < n
                    invariant
                        n == all.len(),
                        all == self.outputs@,
                        i <= n,
                        v@ == results_of(all.take(i as int)),
                    decreases n - i,
                {
                    let o = self.outputs[i].clone();
                    proof {
                        assert(all.take(i + 1) =~= all.take(i as int).push(o));
                        assert(results_of(all.take(i + 1)) =~= results_of(all.take(i as int)).push(ActionResult { output: o }));
                    }
                    v.push(ActionResult { output: o });
                    i = i + 1;
                }
                proof {
                    assert(all.take(n as int) =~= all);
                }
                Some(Ok(v))
            },
        }
    }
}

} // verus!
