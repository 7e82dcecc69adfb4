//! The decisions of a DAG execution, wave by wave: which nodes are ready,
//! which are skipped because a dependency failed, what each outcome records,
//! and which applied binds to roll back, in which order, when a node fails.
//!
//! The caller runs the ready builds and binds and hands their outcomes back;
//! the run itself performs no work.
use vstd::prelude::*;
use crate::hash::ObjectHash;
use crate::strmap::StrMap;
use super::dag::{
    DagNode, ExecutionDag, spec_failed_dependency, find_failed_dependency, is_levels, wave_of, build_waves_upto,
    first_in, build_hashes, bind_hashes,
};
use super::types::{BindResult, BuildResult, DagResult, ExecuteError, FailedDependency};

verus! {

/// The builds of a wave, in order, none of whose dependencies failed.
pub open spec fn ready_builds(wave: Seq<DagNode>, dag: ExecutionDag, fb: Set<Seq<char>>, fd: Set<Seq<char>>) -> Seq<ObjectHash>
    decreases wave.len(),
{
    if wave.len() == 0 {
        Seq::empty()
    } else {
        let rest = ready_builds(wave.drop_last(), dag, fb, fd);
        match wave.last() {
            DagNode::Build(h) => if spec_failed_dependency(dag, wave.last(), fb, fd) is None {
                rest.push(h)
            } else {
                rest
            },
            DagNode::Bind(_) => rest,
        }
    }
}

/// The binds of a wave, in order, none of whose dependencies failed.
pub open spec fn ready_binds(wave: Seq<DagNode>, dag: ExecutionDag, fb: Set<Seq<char>>, fd: Set<Seq<char>>) -> Seq<ObjectHash>
    decreases wave.len(),
{
    if wave.len() == 0 {
        Seq::empty()
    } else {
        let rest = ready_binds(wave.drop_last(), dag, fb, fd);
        match wave.last() {
            DagNode::Bind(h) => if spec_failed_dependency(dag, wave.last(), fb, fd) is None {
                rest.push(h)
            } else {
                rest
            },
            DagNode::Build(_) => rest,
        }
    }
}

/// The builds of a wave that are skipped, each with the dependency that failed.
pub open spec fn skipped_builds(wave: Seq<DagNode>, dag: ExecutionDag, fb: Set<Seq<char>>, fd: Set<Seq<char>>) -> Map<Seq<char>, FailedDependency>
    decreases wave.len(),
{
    if wave.len() == 0 {
        Map::empty()
    } else {
        let rest = skipped_builds(wave.drop_last(), dag, fb, fd);
        match wave.last() {
            DagNode::Build(h) => match spec_failed_dependency(dag, wave.last(), fb, fd) {
                Some(d) => rest.insert(h.0@, d),
                None => rest,
            },
            DagNode::Bind(_) => rest,
        }
    }
}

/// The binds of a wave that are skipped, each with the dependency that failed.
pub open spec fn skipped_binds(wave: Seq<DagNode>, dag: ExecutionDag, fb: Set<Seq<char>>, fd: Set<Seq<char>>) -> Map<Seq<char>, FailedDependency>
    decreases wave.len(),
{
    if wave.len() == 0 {
        Map::empty()
    } else {
        let rest = skipped_binds(wave.drop_last(), dag, fb, fd);
        match wave.last() {
            DagNode::Bind(h) => match spec_failed_dependency(dag, wave.last(), fb, fd) {
                Some(d) => rest.insert(h.0@, d),
                None => rest,
            },
            DagNode::Build(_) => rest,
        }
    }
}

/// The successes of a list of outcomes, entered one after the other into a map.
pub open spec fn successes_into<T>(m: Map<Seq<char>, T>, results: Seq<(ObjectHash, Result<T, ExecuteError>)>) -> Map<Seq<char>, T>
    decreases results.len(),
{
    if results.len() == 0 {
        m
    } else {
        let before = successes_into(m, results.drop_last());
        match results.last().1 {
            Ok(v) => before.insert(results.last().0.0@, v),
            Err(_) => before,
        }
    }
}

/// The hashes of the failures among a list of outcomes.
pub open spec fn failure_hashes<T>(results: Seq<(ObjectHash, Result<T, ExecuteError>)>) -> Set<Seq<char>>
    decreases results.len(),
{
    if results.len() == 0 {
        Set::empty()
    } else {
        let before = failure_hashes(results.drop_last());
        match results.last().1 {
            Ok(_) => before,
            Err(_) => before.insert(results.last().0.0@),
        }
    }
}

/// The last failure among a list of outcomes, else `prev`.
pub open spec fn last_failure<T>(prev: Option<(ObjectHash, ExecuteError)>, results: Seq<(ObjectHash, Result<T, ExecuteError>)>) -> Option<(ObjectHash, ExecuteError)>
    decreases results.len(),
{
    if results.len() == 0 {
        prev
    } else {
        match results.last().1 {
            Err(e) => Some((results.last().0, e)),
            Ok(_) => last_failure(prev, results.drop_last()),
        }
    }
}

/// The failure of one outcome, with its hash.
pub open spec fn failure_of<T>(p: (ObjectHash, Result<T, ExecuteError>)) -> Option<(ObjectHash, ExecuteError)> {
    match p.1 {
        Err(e) => Some((p.0, e)),
        Ok(_) => None,
    }
}

/// The hashes of the successes among a list of outcomes, in order.
pub open spec fn success_hashes<T>(results: Seq<(ObjectHash, Result<T, ExecuteError>)>) -> Seq<ObjectHash>
    decreases results.len(),
{
    if results.len() == 0 {
        Seq::empty()
    } else {
        let before = success_hashes(results.drop_last());
        match results.last().1 {
            Ok(_) => before.push(results.last().0),
            Err(_) => before,
        }
    }
}

/// Whether one of a list of outcomes is a failure.
pub open spec fn any_failure<T>(results: Seq<(ObjectHash, Result<T, ExecuteError>)>) -> bool
    decreases results.len(),
{
    if results.len() == 0 {
        false
    } else {
        any_failure(results.drop_last()) || results.last().1 is Err
    }
}

/// The waves of a DAG as `execution_waves` gives them: wave `w` holds the
/// nodes whose longest chain of dependencies has length `w`.
pub open spec fn are_execution_waves(dag: ExecutionDag, waves: Seq<Seq<DagNode>>) -> bool {
    exists|lv: Seq<int>| {
        &&& is_levels(lv, dag.node_list().len(), dag.edge_list())
        &&& forall|v: int| 0 <= v < dag.node_list().len() ==> #[trigger] lv[v] < waves.len()
        &&& forall|w: int| 0 <= w < waves.len() ==> #[trigger] waves[w] == wave_of(lv, dag.node_list(), w, dag.node_list().len() as int)
            && waves[w].len() > 0
    }
}

/// The builds and binds of a wave that are ready to run.
pub struct WavePlan {
    /// Builds to realize, in wave order.
    pub builds: Vec<ObjectHash>,
    /// Binds to apply, in wave order, once the builds of the wave succeeded.
    pub binds: Vec<ObjectHash>,
}

/// The state of a DAG execution.
pub struct ExecutionRun {
    waves: Vec<Vec<DagNode>>,
    next: usize,
    stopped: bool,
    stop_on_failure: bool,
    failed_builds: StrMap<()>,
    failed_binds: StrMap<()>,
    applied_order: Vec<ObjectHash>,
    result: DagResult,
}

impl ExecutionRun {
    /// The waves, in execution order.
    pub closed spec fn waves(&self) -> Seq<Seq<DagNode>> {
        self.waves@.map_values(|w: Vec<DagNode>| w@)
    }

    /// The index of the next wave to plan.
    pub closed spec fn next_wave(&self) -> int {
        self.next as int
    }

    /// Whether a failure stopped the run.
    pub closed spec fn is_stopped(&self) -> bool {
        self.stopped
    }

    /// Whether a failure stops the run (and rolls back the applied binds).
    pub closed spec fn stops_on_failure(&self) -> bool {
        self.stop_on_failure
    }

    /// The builds that failed or were skipped.
    pub closed spec fn failed_builds(&self) -> Set<Seq<char>> {
        self.failed_builds@.dom()
    }

    /// The binds that failed or were skipped.
    pub closed spec fn failed_binds(&self) -> Set<Seq<char>> {
        self.failed_binds@.dom()
    }

    /// The applied binds, in the order they were applied.
    pub closed spec fn applied_order(&self) -> Seq<ObjectHash> {
        self.applied_order@
    }

    /// What the run has recorded so far.
    pub closed spec fn outcome(&self) -> DagResult {
        self.result
    }

    /// The maps are well formed, the next wave is in range, and the applied
    /// order lists exactly the applied binds.
    pub closed spec fn wf(&self) -> bool {
        &&& self.result.wf()
        &&& self.failed_builds.wf()
        &&& self.failed_binds.wf()
        &&& self.next <= self.waves@.len()
        &&& forall|i: int| 0 <= i < self.applied_order@.len() ==> self.result.applied@.dom().contains(
            (#[trigger] self.applied_order@[i]).0@,
        )
        &&& forall|k: Seq<char>| #[trigger] self.result.applied@.dom().contains(k) ==> exists|i: int|
            0 <= i < self.applied_order@.len() && (#[trigger] self.applied_order@[i]).0@ == k
    }

    /// Changing the maps of skipped and failed nodes, or the next wave, keeps a run well formed.
    proof fn lemma_wf_frame(a: Self, b: Self)
        requires
            a.wf(),
            b.result.wf(),
            b.failed_builds.wf(),
            b.failed_binds.wf(),
            b.next <= b.waves@.len(),
            b.applied_order == a.applied_order,
            b.result.applied == a.result.applied,
        ensures
            b.wf(),
    {
        assert forall|k: Seq<char>| #[trigger] b.result.applied@.dom().contains(k) implies exists|i: int|
            0 <= i < b.applied_order@.len() && (#[trigger] b.applied_order@[i]).0@ == k by {
            assert(a.result.applied@.dom().contains(k));
        }
    }

    /// A run over the given waves with nothing executed yet.
    pub fn from_waves(waves: Vec<Vec<DagNode>>, stop_on_failure: bool) -> (r: Self)
        ensures
            r.wf(),
            r.waves() == waves@.map_values(|w: Vec<DagNode>| w@),
            r.next_wave() == 0,
            !r.is_stopped(),
            r.stops_on_failure() == stop_on_failure,
            r.failed_builds() == Set::<Seq<char>>::empty(),
            r.failed_binds() == Set::<Seq<char>>::empty(),
            r.applied_order() == Seq::<ObjectHash>::empty(),
            r.outcome().realized@ == Map::<Seq<char>, BuildResult>::empty(),
            r.outcome().applied@ == Map::<Seq<char>, BindResult>::empty(),
            r.outcome().build_skipped@ == Map::<Seq<char>, FailedDependency>::empty(),
            r.outcome().bind_skipped@ == Map::<Seq<char>, FailedDependency>::empty(),
            r.outcome().build_failed is None,
            r.outcome().bind_failed is None,
    {
        let failed_builds: StrMap<()> = StrMap::new();
        let failed_binds: StrMap<()> = StrMap::new();
        let result = DagResult::new();
        proof {
            assert(failed_builds@.dom() =~= Set::<Seq<char>>::empty());
            assert(failed_binds@.dom() =~= Set::<Seq<char>>::empty());
        }
        ExecutionRun {
            waves,
            next: 0,
            stopped: false,
            stop_on_failure,
            failed_builds,
            failed_binds,
            applied_order: Vec::new(),
            result,
        }
    }

    /// The run of a whole manifest: builds and binds in the DAG's execution
    /// waves; a failure stops the run (after the rest of its wave) and rolls
    /// back every applied bind, while the dependents of the failures are
    /// still recorded as skipped.
    pub fn for_manifest(dag: &ExecutionDag) -> (r: Result<Self, ExecuteError>)
        requires
            dag.wf(),
        ensures
            r matches Ok(run) && {
                &&& run.wf()
                &&& are_execution_waves(*dag, run.waves())
                &&& run.next_wave() == 0
                &&& !run.is_stopped()
                &&& run.stops_on_failure()
                &&& run.failed_builds() == Set::<Seq<char>>::empty()
                &&& run.failed_binds() == Set::<Seq<char>>::empty()
                &&& run.applied_order() == Seq::<ObjectHash>::empty()
                &&& run.outcome().realized@ == Map::<Seq<char>, BuildResult>::empty()
                &&& run.outcome().applied@ == Map::<Seq<char>, BindResult>::empty()
                &&& run.outcome().build_skipped@ == Map::<Seq<char>, FailedDependency>::empty()
                &&& run.outcome().bind_skipped@ == Map::<Seq<char>, FailedDependency>::empty()
                &&& run.outcome().build_failed is None
                &&& run.outcome().bind_failed is None
            },
    {
        let waves = dag.execution_waves();
        match waves {
            Ok(waves) => {
                let run = Self::from_waves(waves, true);
                proof {
                    let lv = choose|lv: Seq<int>| {
                        &&& is_levels(lv, dag.node_list().len(), dag.edge_list())
                        &&& forall|v: int| 0 <= v < dag.node_list().len() ==> #[trigger] lv[v] < waves@.len()
                        &&& forall|w: int| 0 <= w < waves@.len() ==> (#[trigger] waves@[w])@ == wave_of(lv, dag.node_list(), w, dag.node_list().len() as int)
                            && waves@[w]@.len() > 0
                    };
                    let ws = run.waves();
                    assert(ws.len() == waves@.len());
                    assert forall|w: int| 0 <= w < ws.len() implies #[trigger] ws[w] == wave_of(lv, dag.node_list(), w, dag.node_list().len() as int)
                        && ws[w].len() > 0 by {
                        assert(ws[w] == waves@[w]@);
                    }
                }
                Ok(run)
            },
            Err(e) => Err(e),
        }
    }

    /// The run of the builds only: the DAG's build waves; a failure does not
    /// stop the run, and the builds depending on it are skipped.
    pub fn builds_only(dag: &ExecutionDag) -> (r: Result<Self, ExecuteError>)
        requires
            dag.wf(),
        ensures
            r matches Ok(run) && {
                &&& run.wf()
                &&& exists|lv: Seq<int>| {
                    &&& is_levels(lv, dag.node_list().len(), dag.edge_list())
                    &&& run.waves() == build_waves_upto(lv, dag.node_list(), dag.node_list().len() as int).map_values(
                        |w: Seq<ObjectHash>| w.map_values(|h: ObjectHash| DagNode::Build(h)),
                    )
                }
                &&& run.next_wave() == 0
                &&& !run.is_stopped()
                &&& !run.stops_on_failure()
                &&& run.failed_builds() == Set::<Seq<char>>::empty()
                &&& run.failed_binds() == Set::<Seq<char>>::empty()
                &&& run.applied_order() == Seq::<ObjectHash>::empty()
                &&& run.outcome().realized@ == Map::<Seq<char>, BuildResult>::empty()
                &&& run.outcome().applied@ == Map::<Seq<char>, BindResult>::empty()
                &&& run.outcome().build_skipped@ == Map::<Seq<char>, FailedDependency>::empty()
                &&& run.outcome().bind_skipped@ == Map::<Seq<char>, FailedDependency>::empty()
                &&& run.outcome().build_failed is None
                &&& run.outcome().bind_failed is None
            },
    {
        let bw = dag.build_waves();
        match bw {
            Ok(bw) => {
                let ghost bws = bw@.map_values(|w: Vec<ObjectHash>| w@);
                let mut waves: Vec<Vec<DagNode>> = Vec::new();
                let mut i: usize = 0;
                while i < bw.len()
                    invariant
                        i <= bw@.len(),
                        waves@.len() == i,
                        bws.len() == bw@.len(),
                        bws == bw@.map_values(|w: Vec<ObjectHash>| w@),
                        waves@.map_values(|w: Vec<DagNode>| w@) == bws.take(i as int).map_values(
                            |w: Seq<ObjectHash>| w.map_values(|h: ObjectHash| DagNode::Build(h)),
                        ),
                    decreases bw@.len() - i,
                {
                    let mut wave: Vec<DagNode> = Vec::new();
                    let mut j: usize = 0;
                    while j < bw[i].len()
                        invariant
                            i < bw@.len(),
                            j <= bw@[i as int]@.len(),
                            wave@ == bw@[i as int]@.take(j as int).map_values(|h: ObjectHash| DagNode::Build(h)),
                        decreases bw@[i as int]@.len() - j,
                    {
                        wave.push(DagNode::Build(ObjectHash(bw[i][j].0.clone())));
                        proof {
                            assert(bw@[i as int]@.take(j + 1).drop_last() =~= bw@[i as int]@.take(j as int));
                            assert(wave@ =~= bw@[i as int]@.take(j + 1).map_values(|h: ObjectHash| DagNode::Build(h)));
                        }
                        j = j + 1;
                    }
                    proof {
                        assert(bw@[i as int]@.take(j as int) =~= bw@[i as int]@);
                    }
                    let ghost before = waves@.map_values(|w: Vec<DagNode>| w@);
                    waves.push(wave);
                    proof {
                        assert(waves@[i as int]@ == bws[i as int].map_values(|h: ObjectHash| DagNode::Build(h)));
                        assert(bws.take(i + 1)[i as int] == bws[i as int]);
                        assert(bws.take(i + 1).drop_last() =~= bws.take(i as int));
                        assert forall|k: int| 0 <= k < i + 1 implies (#[trigger] waves@[k])@
                            == bws.take(i + 1)[k].map_values(|h: ObjectHash| DagNode::Build(h)) by {
                            if k < i {
                                assert(before[k] == bws.take(i as int).map_values(
                                    |w: Seq<ObjectHash>| w.map_values(|h: ObjectHash| DagNode::Build(h)),
                                )[k]);
                            }
                        }
                        assert(waves@.map_values(|w: Vec<DagNode>| w@) =~= bws.take(i + 1).map_values(
                            |w: Seq<ObjectHash>| w.map_values(|h: ObjectHash| DagNode::Build(h)),
                        ));
                    }
                    i = i + 1;
                }
                proof {
                    assert(bws.take(i as int) =~= bws);
                }
                Ok(Self::from_waves(waves, false))
            },
            Err(e) => Err(e),
        }
    }

    /// Plans the next wave: each node whose dependency failed (or was
    /// skipped) is recorded as skipped, with that dependency, and counts as
    /// failed from then on; the others are handed out to run, unless a
    /// failure stopped the run, in which case nothing more runs but the
    /// dependents of the failures are still recorded, wave after wave.
    /// There is no plan once every wave was planned.
    pub fn plan_next_wave(&mut self, dag: &ExecutionDag) -> (plan: Option<WavePlan>)
        requires
            old(self).wf(),
            dag.wf(),
        ensures
            final(self).wf(),
            old(self).next_wave() >= old(self).waves().len() ==> plan is None && *final(self) == *old(self),
            old(self).next_wave() < old(self).waves().len() ==> {
                let wave = old(self).waves()[old(self).next_wave()];
                let fb = old(self).failed_builds();
                let fd = old(self).failed_binds();
                &&& plan matches Some(p) && (if old(self).is_stopped() {
                    p.builds@.len() == 0 && p.binds@.len() == 0
                } else {
                    p.builds@ == ready_builds(wave, *dag, fb, fd) && p.binds@ == ready_binds(wave, *dag, fb, fd)
                })
                &&& final(self).next_wave() == old(self).next_wave() + 1
                &&& final(self).waves() == old(self).waves()
                &&& final(self).is_stopped() == old(self).is_stopped()
                &&& final(self).stops_on_failure() == old(self).stops_on_failure()
                &&& final(self).applied_order() == old(self).applied_order()
                &&& final(self).failed_builds() == fb + skipped_builds(wave, *dag, fb, fd).dom()
                &&& final(self).failed_binds() == fd + skipped_binds(wave, *dag, fb, fd).dom()
                &&& final(self).outcome().build_skipped@ == old(self).outcome().build_skipped@.union_prefer_right(skipped_builds(wave, *dag, fb, fd))
                &&& final(self).outcome().bind_skipped@ == old(self).outcome().bind_skipped@.union_prefer_right(skipped_binds(wave, *dag, fb, fd))
                &&& final(self).outcome().realized@ == old(self).outcome().realized@
                &&& final(self).outcome().applied@ == old(self).outcome().applied@
                &&& final(self).outcome().build_failed == old(self).outcome().build_failed
                &&& final(self).outcome().bind_failed == old(self).outcome().bind_failed
            },
    {
        if self.next >= self.waves.len() {
            return None;
        }
        let ghost start = *self;
        let ghost w = self.waves@[self.next as int]@;
        let ghost fb = self.failed_builds@.dom();
        let ghost fd = self.failed_binds@.dom();
        let ghost old_bs = self.result.build_skipped@;
        let ghost old_ds = self.result.bind_skipped@;
        let mut builds: Vec<ObjectHash> = Vec::new();
        let mut binds: Vec<ObjectHash> = Vec::new();
        let mut skipped_b: Vec<ObjectHash> = Vec::new();
        let mut skipped_d: Vec<ObjectHash> = Vec::new();
        let n = self.waves[self.next].len();
        let mut j: usize = 0;
        proof {
            assert(w.take(0) =~= Seq::<DagNode>::empty());
            assert(old_bs.union_prefer_right(Map::<Seq<char>, FailedDependency>::empty()) =~= old_bs);
            assert(old_ds.union_prefer_right(Map::<Seq<char>, FailedDependency>::empty()) =~= old_ds);
        }
        while j < n
            invariant
                self.result.wf(),
                self.failed_builds.wf(),
                self.failed_binds.wf(),
                dag.wf(),
                self.stopped == start.stopped,
                self.waves == start.waves,
                self.next == start.next,
                self.stop_on_failure == start.stop_on_failure,
                self.failed_builds == start.failed_builds,
                self.failed_binds == start.failed_binds,
                self.applied_order == start.applied_order,
                self.result.realized == start.result.realized,
                self.result.applied == start.result.applied,
                self.result.build_failed == start.result.build_failed,
                self.result.bind_failed == start.result.bind_failed,
                self.next < self.waves@.len(),
                w == self.waves@[self.next as int]@,
                n == w.len(),
                j <= n,
                fb == self.failed_builds@.dom(),
                fd == self.failed_binds@.dom(),
                !self.stopped ==> builds@ == ready_builds(w.take(j as int), *dag, fb, fd),
                !self.stopped ==> binds@ == ready_binds(w.take(j as int), *dag, fb, fd),
                self.stopped ==> builds@.len() == 0 && binds@.len() == 0,
                self.result.build_skipped@ == old_bs.union_prefer_right(skipped_builds(w.take(j as int), *dag, fb, fd)),
                self.result.bind_skipped@ == old_ds.union_prefer_right(skipped_binds(w.take(j as int), *dag, fb, fd)),
                forall|i: int| 0 <= i < skipped_b@.len() ==> skipped_builds(w.take(j as int), *dag, fb, fd).dom().contains(#[trigger] skipped_b@[i].0@),
                forall|k: Seq<char>| #[trigger] skipped_builds(w.take(j as int), *dag, fb, fd).dom().contains(k) ==> exists|i: int|
                    0 <= i < skipped_b@.len() && (#[trigger] skipped_b@[i]).0@ == k,
                forall|i: int| 0 <= i < skipped_d@.len() ==> skipped_binds(w.take(j as int), *dag, fb, fd).dom().contains(#[trigger] skipped_d@[i].0@),
                forall|k: Seq<char>| #[trigger] skipped_binds(w.take(j as int), *dag, fb, fd).dom().contains(k) ==> exists|i: int|
                    0 <= i < skipped_d@.len() && (#[trigger] skipped_d@[i]).0@ == k,
            decreases n - j,
        {
            let node = &self.waves[self.next][j];
            let ghost sb_before = skipped_b@;
            let ghost sd_before = skipped_d@;
            proof {
                assert(w.take(j + 1).drop_last() =~= w.take(j as int));
                assert(w.take(j + 1).last() == *node);
            }
            let dep = find_failed_dependency(node, dag, &self.failed_builds, &self.failed_binds);
            match dep {
                Some(d) => {
                    match node {
                        DagNode::Build(h) => {
                            self.result.build_skipped.insert(h.0.clone(), d);
                            skipped_b.push(ObjectHash(h.0.clone()));
                        },
                        DagNode::Bind(h) => {
                            self.result.bind_skipped.insert(h.0.clone(), d);
                            skipped_d.push(ObjectHash(h.0.clone()));
                        },
                    }
                },
                None => {
                    if !self.stopped {
                        match node {
                            DagNode::Build(h) => {
                                builds.push(ObjectHash(h.0.clone()));
                            },
                            DagNode::Bind(h) => {
                                binds.push(ObjectHash(h.0.clone()));
                            },
                        }
                    }
                },
            }
            proof {
                let sb = skipped_builds(w.take(j + 1), *dag, fb, fd);
                let sd = skipped_binds(w.take(j + 1), *dag, fb, fd);
                assert(self.result.build_skipped@ =~= old_bs.union_prefer_right(sb));
                assert(self.result.bind_skipped@ =~= old_ds.union_prefer_right(sd));
                if !self.stopped {
                    assert(builds@ =~= ready_builds(w.take(j + 1), *dag, fb, fd));
                    assert(binds@ =~= ready_binds(w.take(j + 1), *dag, fb, fd));
                }
                assert forall|k: Seq<char>| #[trigger] sb.dom().contains(k) implies exists|i: int|
                    0 <= i < skipped_b@.len() && (#[trigger] skipped_b@[i]).0@ == k by {
                    let prev = skipped_builds(w.take(j as int), *dag, fb, fd);
                    if prev.dom().contains(k) {
                        let i = choose|i: int| 0 <= i < sb_before.len() && (#[trigger] sb_before[i]).0@ == k;
                        assert(skipped_b@[i] == sb_before[i]);
                    } else {
                        assert(skipped_b@[skipped_b@.len() - 1].0@ == k);
                    }
                }
                assert forall|k: Seq<char>| #[trigger] sd.dom().contains(k) implies exists|i: int|
                    0 <= i < skipped_d@.len() && (#[trigger] skipped_d@[i]).0@ == k by {
                    let prev = skipped_binds(w.take(j as int), *dag, fb, fd);
                    if prev.dom().contains(k) {
                        let i = choose|i: int| 0 <= i < sd_before.len() && (#[trigger] sd_before[i]).0@ == k;
                        assert(skipped_d@[i] == sd_before[i]);
                    } else {
                        assert(skipped_d@[skipped_d@.len() - 1].0@ == k);
                    }
                }
            }
            j = j + 1;
        }
        proof {
            assert(w.take(n as int) =~= w);
        }
        let ghost sb = skipped_builds(w, *dag, fb, fd);
        let ghost sd = skipped_binds(w, *dag, fb, fd);
        let ghost mid = *self;
        let mut t: usize = 0;
        while t < skipped_b.len()
            invariant
                self.failed_builds.wf(),
                self.waves == mid.waves,
                self.next == mid.next,
                self.stopped == mid.stopped,
                self.stop_on_failure == mid.stop_on_failure,
                self.failed_binds == mid.failed_binds,
                self.applied_order == mid.applied_order,
                self.result == mid.result,
                t <= skipped_b@.len(),
                forall|i: int| 0 <= i < skipped_b@.len() ==> sb.dom().contains(#[trigger] skipped_b@[i].0@),
                forall|k: Seq<char>| #[trigger] sb.dom().contains(k) ==> exists|i: int|
                    0 <= i < skipped_b@.len() && (#[trigger] skipped_b@[i]).0@ == k,
                forall|k: Seq<char>| #[trigger] self.failed_builds@.dom().contains(k) <==> fb.contains(k) || exists|i: int|
                    0 <= i < t && (#[trigger] skipped_b@[i]).0@ == k,
            decreases skipped_b@.len() - t,
        {
            self.failed_builds.insert(skipped_b[t].0.clone(), ());
            proof {
                assert forall|k: Seq<char>| #[trigger] self.failed_builds@.dom().contains(k) <==> fb.contains(k) || exists|i: int|
                    0 <= i < t + 1 && (#[trigger] skipped_b@[i]).0@ == k by {
                    if exists|i: int| 0 <= i < t + 1 && (#[trigger] skipped_b@[i]).0@ == k {
                        let i = choose|i: int| 0 <= i < t + 1 && (#[trigger] skipped_b@[i]).0@ == k;
                        if i < t {
                            assert(exists|i2: int| 0 <= i2 < t && (#[trigger] skipped_b@[i2]).0@ == k);
                        }
                    }
                    if k == skipped_b@[t as int].0@ {
                        assert(exists|i: int| 0 <= i < t + 1 && (#[trigger] skipped_b@[i]).0@ == k);
                    }
                }
            }
            t = t + 1;
        }
        proof {
            assert(self.failed_builds@.dom() =~= fb + sb.dom());
        }
        let ghost mid2 = *self;
        let mut t: usize = 0;
        while t < skipped_d.len()
            invariant
                self.failed_binds.wf(),
                self.waves == mid2.waves,
                self.next == mid2.next,
                self.stopped == mid2.stopped,
                self.stop_on_failure == mid2.stop_on_failure,
                self.failed_builds == mid2.failed_builds,
                self.applied_order == mid2.applied_order,
                self.result == mid2.result,
                t <= skipped_d@.len(),
                forall|i: int| 0 <= i < skipped_d@.len() ==> sd.dom().contains(#[trigger] skipped_d@[i].0@),
                forall|k: Seq<char>| #[trigger] sd.dom().contains(k) ==> exists|i: int|
                    0 <= i < skipped_d@.len() && (#[trigger] skipped_d@[i]).0@ == k,
                forall|k: Seq<char>| #[trigger] self.failed_binds@.dom().contains(k) <==> fd.contains(k) || exists|i: int|
                    0 <= i < t && (#[trigger] skipped_d@[i]).0@ == k,
            decreases skipped_d@.len() - t,
        {
            self.failed_binds.insert(skipped_d[t].0.clone(), ());
            proof {
                assert forall|k: Seq<char>| #[trigger] self.failed_binds@.dom().contains(k) <==> fd.contains(k) || exists|i: int|
                    0 <= i < t + 1 && (#[trigger] skipped_d@[i]).0@ == k by {
                    if exists|i: int| 0 <= i < t + 1 && (#[trigger] skipped_d@[i]).0@ == k {
                        let i = choose|i: int| 0 <= i < t + 1 && (#[trigger] skipped_d@[i]).0@ == k;
                        if i < t {
                            assert(exists|i2: int| 0 <= i2 < t && (#[trigger] skipped_d@[i2]).0@ == k);
                        }
                    }
                    if k == skipped_d@[t as int].0@ {
                        assert(exists|i: int| 0 <= i < t + 1 && (#[trigger] skipped_d@[i]).0@ == k);
                    }
                }
            }
            t = t + 1;
        }
        proof {
            assert(self.failed_binds@.dom() =~= fd + sd.dom());
        }
        self.next = self.next + 1;
        proof {
            Self::lemma_wf_frame(start, *self);
        }
        Some(WavePlan { builds, binds })
    }

    /// Records the outcomes of the wave's builds: each success as realized,
    /// each failure as failed (it counts as failed for its dependents); the
    /// last failure is the one kept. When the run stops on failure and one of
    /// them failed, the run stops, and the applied binds come back in the
    /// order to roll them back in.
    pub fn finish_builds(&mut self, results: Vec<(ObjectHash, Result<BuildResult, ExecuteError>)>) -> (rollback: Option<Vec<ObjectHash>>)
        requires
            old(self).wf(),
        ensures
            final(self).wf(),
            final(self).waves() == old(self).waves(),
            final(self).next_wave() == old(self).next_wave(),
            final(self).stops_on_failure() == old(self).stops_on_failure(),
            final(self).failed_binds() == old(self).failed_binds(),
            final(self).applied_order() == old(self).applied_order(),
            final(self).outcome().applied@ == old(self).outcome().applied@,
            final(self).outcome().build_skipped@ == old(self).outcome().build_skipped@,
            final(self).outcome().bind_skipped@ == old(self).outcome().bind_skipped@,
            final(self).outcome().bind_failed == old(self).outcome().bind_failed,
            final(self).outcome().realized@ == successes_into(old(self).outcome().realized@, results@),
            final(self).outcome().build_failed == last_failure(old(self).outcome().build_failed, results@),
            final(self).failed_builds() == old(self).failed_builds() + failure_hashes(results@),
            final(self).is_stopped() == (old(self).is_stopped() || (old(self).stops_on_failure() && any_failure(results@))),
            rollback is Some <==> old(self).stops_on_failure() && any_failure(results@),
            rollback matches Some(v) ==> v@ == final(self).applied_order().reverse(),
    {
        let ghost rs = results@;
        let ghost start = *self;
        let mut rest = results;
        let n0 = rest.len();
        let mut i: usize = 0;
        let mut failed = false;
        proof {
            assert(rs.take(0) =~= Seq::<(ObjectHash, Result<BuildResult, ExecuteError>)>::empty());
            assert(rs.skip(0) =~= rs);
            assert(start.failed_builds@.dom() + Set::<Seq<char>>::empty() =~= start.failed_builds@.dom());
        }
        while rest.len() > 0
            invariant
                start == *old(self),
                n0 == rs.len(),
                start.wf(),
                self.result.wf(),
                self.failed_builds.wf(),
                self.failed_binds.wf(),
                self.waves == start.waves,
                self.next == start.next,
                self.stop_on_failure == start.stop_on_failure,
                self.stopped == start.stopped,
                self.failed_binds == start.failed_binds,
                self.applied_order == start.applied_order,
                self.result.applied == start.result.applied,
                self.result.build_skipped == start.result.build_skipped,
                self.result.bind_skipped == start.result.bind_skipped,
                self.result.bind_failed == start.result.bind_failed,
                i <= rs.len(),
                rs.len() <= usize::MAX,
                rest@ == rs.skip(i as int),
                rs == results@,
                self.result.realized@ == successes_into(start.result.realized@, rs.take(i as int)),
                self.result.build_failed == last_failure(start.result.build_failed, rs.take(i as int)),
                self.failed_builds@.dom() == start.failed_builds@.dom() + failure_hashes(rs.take(i as int)),
                failed == any_failure(rs.take(i as int)),
            decreases rest@.len(),
        {
            let item = rest.remove(0);
            proof {
                assert(item == rs[i as int]);
                assert(rest@ =~= rs.skip(i + 1));
                assert(rs.take(i + 1).drop_last() =~= rs.take(i as int));
                assert(rs.take(i + 1).last() == item);
            }
            let (h, r) = item;
            match r {
                Ok(br) => {
                    self.result.realized.insert(h.0, br);
                },
                Err(e) => {
                    self.failed_builds.insert(h.0.clone(), ());
                    self.result.build_failed = Some((h, e));
                    failed = true;
                },
            }
            proof {
                assert(self.failed_builds@.dom() =~= start.failed_builds@.dom() + failure_hashes(rs.take(i + 1)));
            }
            i = i + 1;
        }
        proof {
            assert(rs.take(i as int) =~= rs);
        }
        if self.stop_on_failure && failed {
            self.stopped = true;
        }
        proof {
            assert(self.waves() =~= start.waves());
            Self::lemma_wf_frame(start, *self);
        }
        if self.stop_on_failure && failed {
            Some(self.rollback_order())
        } else {
            None
        }
    }

    /// Records the outcomes of the wave's binds: each success as applied,
    /// last in the order of application; each failure as failed (it counts
    /// as failed for its dependents); the last failure is the one kept. When
    /// the run stops on failure and one of them failed, the run stops, and
    /// every applied bind, those of this wave included, comes back in the
    /// order to roll them back in.
    pub fn finish_binds(&mut self, results: Vec<(ObjectHash, Result<BindResult, ExecuteError>)>) -> (rollback: Option<Vec<ObjectHash>>)
        requires
            old(self).wf(),
        ensures
            final(self).wf(),
            final(self).waves() == old(self).waves(),
            final(self).next_wave() == old(self).next_wave(),
            final(self).stops_on_failure() == old(self).stops_on_failure(),
            final(self).failed_builds() == old(self).failed_builds(),
            final(self).outcome().realized@ == old(self).outcome().realized@,
            final(self).outcome().build_skipped@ == old(self).outcome().build_skipped@,
            final(self).outcome().bind_skipped@ == old(self).outcome().bind_skipped@,
            final(self).outcome().build_failed == old(self).outcome().build_failed,
            final(self).outcome().applied@ == successes_into(old(self).outcome().applied@, results@),
            final(self).applied_order() == old(self).applied_order() + success_hashes(results@),
            final(self).outcome().bind_failed == last_failure(old(self).outcome().bind_failed, results@),
            final(self).failed_binds() == old(self).failed_binds() + failure_hashes(results@),
            final(self).is_stopped() == (old(self).is_stopped() || (old(self).stops_on_failure() && any_failure(results@))),
            rollback is Some <==> old(self).stops_on_failure() && any_failure(results@),
            rollback matches Some(v) ==> v@ == final(self).applied_order().reverse(),
    {
        let ghost rs = results@;
        let ghost start = *self;
        let mut rest = results;
        let n0 = rest.len();
        let mut i: usize = 0;
        let mut failed = false;
        proof {
            assert(rs.take(0) =~= Seq::<(ObjectHash, Result<BindResult, ExecuteError>)>::empty());
            assert(rs.skip(0) =~= rs);
            assert(start.failed_binds@.dom() + Set::<Seq<char>>::empty() =~= start.failed_binds@.dom());
            assert(start.applied_order@ + Seq::<ObjectHash>::empty() =~= start.applied_order@);
        }
        while rest.len() > 0
            invariant
                start == *old(self),
                n0 == rs.len(),
                start.wf(),
                self.wf(),
                self.waves == start.waves,
                self.next == start.next,
                self.stop_on_failure == start.stop_on_failure,
                self.stopped == start.stopped,
                self.failed_builds == start.failed_builds,
                self.result.realized == start.result.realized,
                self.result.build_skipped == start.result.build_skipped,
                self.result.bind_skipped == start.result.bind_skipped,
                self.result.build_failed == start.result.build_failed,
                i <= rs.len(),
                rs.len() <= usize::MAX,
                rest@ == rs.skip(i as int),
                rs == results@,
                self.result.applied@ == successes_into(start.result.applied@, rs.take(i as int)),
                self.applied_order@ == start.applied_order@ + success_hashes(rs.take(i as int)),
                self.result.bind_failed == last_failure(start.result.bind_failed, rs.take(i as int)),
                self.failed_binds@.dom() == start.failed_binds@.dom() + failure_hashes(rs.take(i as int)),
                failed == any_failure(rs.take(i as int)),
            decreases rest@.len(),
        {
            let item = rest.remove(0);
            proof {
                assert(item == rs[i as int]);
                assert(rest@ =~= rs.skip(i + 1));
                assert(rs.take(i + 1).drop_last() =~= rs.take(i as int));
                assert(rs.take(i + 1).last() == item);
            }
            let ghost before = *self;
            let (h, r) = item;
            match r {
                Ok(br) => {
                    self.applied_order.push(ObjectHash(h.0.clone()));
                    self.result.applied.insert(h.0, br);
                    proof {
                        assert forall|t: int| 0 <= t < self.applied_order@.len() implies self.result.applied@.dom().contains(
                            (#[trigger] self.applied_order@[t]).0@,
                        ) by {
                            if t < before.applied_order@.len() {
                                assert(before.result.applied@.dom().contains(before.applied_order@[t].0@));
                            }
                        }
                        assert forall|k: Seq<char>| #[trigger] self.result.applied@.dom().contains(k) implies exists|t: int|
                            0 <= t < self.applied_order@.len() && (#[trigger] self.applied_order@[t]).0@ == k by {
                            if k == rs[i as int].0.0@ {
                                assert(self.applied_order@[self.applied_order@.len() - 1].0@ == k);
                            } else {
                                assert(before.result.applied@.dom().contains(k));
                                let t = choose|t: int| 0 <= t < before.applied_order@.len() && (#[trigger] before.applied_order@[t]).0@ == k;
                                assert(self.applied_order@[t] == before.applied_order@[t]);
                            }
                        }
                        assert(self.applied_order@ =~= start.applied_order@ + success_hashes(rs.take(i + 1)));
                    }
                },
                Err(e) => {
                    self.failed_binds.insert(h.0.clone(), ());
                    self.result.bind_failed = Some((h, e));
                    failed = true;
                    proof {
                        assert(self.applied_order@ =~= start.applied_order@ + success_hashes(rs.take(i + 1)));
                    }
                },
            }
            proof {
                assert(self.failed_binds@.dom() =~= start.failed_binds@.dom() + failure_hashes(rs.take(i + 1)));
            }
            i = i + 1;
        }
        proof {
            assert(rs.take(i as int) =~= rs);
        }
        if self.stop_on_failure && failed {
            self.stopped = true;
        }
        proof {
            assert(self.waves() =~= start.waves());
        }
        if self.stop_on_failure && failed {
            Some(self.rollback_order())
        } else {
            None
        }
    }

    /// Whether the run is over: every wave was planned.
    pub fn is_finished(&self) -> (b: bool)
        ensures
            b == (self.next_wave() >= self.waves().len()),
    {
        self.next >= self.waves.len()
    }

    /// Whether a failure stopped the run.
    pub fn stopped(&self) -> (b: bool)
        ensures
            b == self.is_stopped(),
    {
        self.stopped
    }

    /// What the run recorded.
    pub fn result(&self) -> (r: &DagResult)
        ensures
            *r == self.outcome(),
    {
        &self.result
    }

    /// Ends the run, giving back what it recorded.
    pub fn into_result(self) -> (r: DagResult)
        ensures
            r == self.outcome(),
    {
        self.result
    }

    /// The applied binds in reverse order of application: the order to roll them back in.
    pub fn rollback_order(&self) -> (r: Vec<ObjectHash>)
        ensures
            r@ == self.applied_order().reverse(),
    {
        let n = self.applied_order.len();
        let mut r: Vec<ObjectHash> = Vec::new();
        let mut i: usize = n;
        while i > 0
            invariant
                n == self.applied_order@.len(),
                i <= n,
                r@ == self.applied_order@.skip(i as int).reverse(),
            decreases i,
        {
            i = i - 1;
            r.push(ObjectHash(self.applied_order[i].0.clone()));
            proof {
                assert(r@ =~= self.applied_order@.skip(i as int).reverse());
            }
        }
        proof {
            assert(self.applied_order@.skip(0) =~= self.applied_order@);
        }
        r
    }
}

/// `first_in` picks a member of the list that is in the set, and finds one
/// whenever the list has one.
pub proof fn lemma_first_in(hs: Seq<ObjectHash>, failed: Set<Seq<char>>)
    ensures
        match first_in(hs, failed) {
            Some(h) => hs.contains(h) && failed.contains(h.0@),
            None => forall|i: int| 0 <= i < hs.len() ==> !failed.contains(#[trigger] hs[i].0@),
        },
    decreases hs.len(),
{
    if hs.len() > 0 && !failed.contains(hs[0].0@) {
        lemma_first_in(hs.drop_first(), failed);
        match first_in(hs.drop_first(), failed) {
            Some(h) => {
                let j = choose|j: int| 0 <= j < hs.drop_first().len() && hs.drop_first()[j] == h;
                assert(hs[j + 1] == h);
            },
            None => {
                assert forall|i: int| 0 <= i < hs.len() implies !failed.contains(#[trigger] hs[i].0@) by {
                    if i > 0 {
                        assert(hs[i] == hs.drop_first()[i - 1]);
                    }
                }
            },
        }
    } else if hs.len() > 0 {
        assert(hs[0] == hs[0]);
    }
}

/// A node is skipped only for a dependency of its own that failed or was
/// itself skipped, and is skipped whenever it has one (for a bind, a failed
/// build dependency is named before a failed bind dependency).
pub proof fn lemma_skip_reason(dag: ExecutionDag, node: DagNode, fb: Set<Seq<char>>, fd: Set<Seq<char>>)
    ensures
        match spec_failed_dependency(dag, node, fb, fd) {
            Some(FailedDependency::Build(h)) => fb.contains(h.0@) && match node {
                DagNode::Build(x) => dag.build_index(x.0@) matches Some(i) && build_hashes(dag.incoming(i), dag.node_list()).contains(h),
                DagNode::Bind(x) => dag.bind_index(x.0@) matches Some(i) && build_hashes(dag.incoming(i), dag.node_list()).contains(h),
            },
            Some(FailedDependency::Bind(h)) => fd.contains(h.0@) && node is Bind && match node {
                DagNode::Bind(x) => dag.bind_index(x.0@) matches Some(i) && bind_hashes(dag.incoming(i), dag.node_list()).contains(h),
                DagNode::Build(_) => false,
            },
            None => match node {
                DagNode::Build(x) => dag.build_index(x.0@) matches Some(i) ==> forall|k: int|
                    0 <= k < build_hashes(dag.incoming(i), dag.node_list()).len()
                    ==> !fb.contains(#[trigger] build_hashes(dag.incoming(i), dag.node_list())[k].0@),
                DagNode::Bind(x) => dag.bind_index(x.0@) matches Some(i) ==> {
                    &&& forall|k: int| 0 <= k < build_hashes(dag.incoming(i), dag.node_list()).len()
                        ==> !fb.contains(#[trigger] build_hashes(dag.incoming(i), dag.node_list())[k].0@)
                    &&& forall|k: int| 0 <= k < bind_hashes(dag.incoming(i), dag.node_list()).len()
                        ==> !fd.contains(#[trigger] bind_hashes(dag.incoming(i), dag.node_list())[k].0@)
                },
            },
        },
{
    match node {
        DagNode::Build(x) => {
            match dag.build_index(x.0@) {
                Some(i) => lemma_first_in(build_hashes(dag.incoming(i), dag.node_list()), fb),
                None => {},
            }
        },
        DagNode::Bind(x) => {
            match dag.bind_index(x.0@) {
                Some(i) => {
                    lemma_first_in(build_hashes(dag.incoming(i), dag.node_list()), fb);
                    lemma_first_in(bind_hashes(dag.incoming(i), dag.node_list()), fd);
                },
                None => {},
            }
        },
    }
}

/// Each build handed out to run belongs to the wave and has no dependency
/// that failed or was skipped.
pub proof fn lemma_ready_builds(wave: Seq<DagNode>, dag: ExecutionDag, fb: Set<Seq<char>>, fd: Set<Seq<char>>, i: int)
    requires
        0 <= i < ready_builds(wave, dag, fb, fd).len(),
    ensures
        wave.contains(DagNode::Build(ready_builds(wave, dag, fb, fd)[i])),
        spec_failed_dependency(dag, DagNode::Build(ready_builds(wave, dag, fb, fd)[i]), fb, fd) is None,
    decreases wave.len(),
{
    let rest = ready_builds(wave.drop_last(), dag, fb, fd);
    if i < rest.len() {
        lemma_ready_builds(wave.drop_last(), dag, fb, fd, i);
        let j = choose|j: int| 0 <= j < wave.drop_last().len() && wave.drop_last()[j] == DagNode::Build(rest[i]);
        assert(wave[j] == DagNode::Build(rest[i]));
    } else {
        assert(wave[wave.len() - 1] == wave.last());
    }
}

/// Each bind handed out to run belongs to the wave and has no dependency
/// that failed or was skipped.
pub proof fn lemma_ready_binds(wave: Seq<DagNode>, dag: ExecutionDag, fb: Set<Seq<char>>, fd: Set<Seq<char>>, i: int)
    requires
        0 <= i < ready_binds(wave, dag, fb, fd).len(),
    ensures
        wave.contains(DagNode::Bind(ready_binds(wave, dag, fb, fd)[i])),
        spec_failed_dependency(dag, DagNode::Bind(ready_binds(wave, dag, fb, fd)[i]), fb, fd) is None,
    decreases wave.len(),
{
    let rest = ready_binds(wave.drop_last(), dag, fb, fd);
    if i < rest.len() {
        lemma_ready_binds(wave.drop_last(), dag, fb, fd, i);
        let j = choose|j: int| 0 <= j < wave.drop_last().len() && wave.drop_last()[j] == DagNode::Bind(rest[i]);
        assert(wave[j] == DagNode::Bind(rest[i]));
    } else {
        assert(wave[wave.len() - 1] == wave.last());
    }
}

/// The rollback covers exactly the applied binds, in reverse order of application.
pub proof fn lemma_rollback_covers_applied(run: ExecutionRun)
    requires
        run.wf(),
    ensures
        forall|k: Seq<char>| run.outcome().applied@.dom().contains(k) <==> exists|i: int|
            0 <= i < run.applied_order().reverse().len() && (#[trigger] run.applied_order().reverse()[i]).0@ == k,
{
    let o = run.applied_order();
    assert forall|k: Seq<char>| run.outcome().applied@.dom().contains(k) <==> exists|i: int|
        0 <= i < o.reverse().len() && (#[trigger] o.reverse()[i]).0@ == k by {
        if run.outcome().applied@.dom().contains(k) {
            let i = choose|i: int| 0 <= i < o.len() && (#[trigger] o[i]).0@ == k;
            assert(o.reverse()[o.len() - 1 - i] == o[i]);
        }
        if exists|i: int| 0 <= i < o.reverse().len() && (#[trigger] o.reverse()[i]).0@ == k {
            let i = choose|i: int| 0 <= i < o.reverse().len() && (#[trigger] o.reverse()[i]).0@ == k;
            assert(o.reverse()[i] == o[o.len() - 1 - i]);
        }
    }
}

} // verus!
