use vstd::prelude::*;

use crate::dep_queue::{
    deps_done, enqueued, finished, first_ready, has_key, incoming, inflow, is_done, is_running, key_pos,
    lemma_enqueued_keeps_progress, lemma_is_done_after_update, lemma_is_running_after_update,
    lemma_outcome_after_update, outcome,
    ready, unfinished, DependencyQueue, NodeState, NodeView,
};
use crate::freshness::{join, Freshness};
use crate::stage::{
    direct_deps, edges, lemma_no_self_edge, lemma_start_waits_for_dependency_end, NodeKey, Resolve,
    TargetStage,
};

verus! {

/// Bookkeeping for a node whose jobs are running.
#[derive(Clone, Copy, Debug)]
pub struct PendingBuild {
    pub key: NodeKey,
    /// Number of completion messages still expected for the node.
    pub amt: usize,
    /// Freshness of the node, combined with that of each completed job.
    pub fresh: Freshness,
}

/// A node handed out for execution, and what to do with it.
pub struct Dispatch<J> {
    pub pkg: usize,
    pub stage: TargetStage,
    /// The incoming freshness of the node.
    pub fresh: Freshness,
    /// For a `Start` node, the package's status: `Fresh` to report it as
    /// fresh, `Dirty` to report it as compiling. `None` for other stages.
    pub status: Option<Freshness>,
    /// The node's jobs, each with its effective freshness. When there are
    /// none, one completion `(pkg, stage, fresh, success)` is still owed.
    pub jobs: Vec<(J, Freshness)>,
}

/// What to do after a completion message.
#[derive(Clone, Copy, Debug, PartialEq, Eq, Structural)]
pub enum Completion {
    /// Keep scheduling.
    Continue,
    /// A job failed: receive this many more messages, then report the failure.
    Failed(usize),
}

/// The scheduler of the whole build graph.
///
/// Each (package, stage) node is enqueued with its jobs; the node is handed
/// out by `next_dispatch` once the nodes it depends on have finished, and
/// finishes when a completion has been received for each of its jobs.
pub struct JobQueue<J> {
    queue: DependencyQueue<Vec<(J, Freshness)>>,
    resolve: Resolve,
    workers: usize,
    active: usize,
    pending: Vec<PendingBuild>,
    state: Vec<Freshness>,
    failed: bool,
    /// For each node handed out, the completion messages it owes.
    owed: Ghost<Map<NodeKey, nat>>,
    /// For each node handed out, the successful completions taken in.
    received: Ghost<Map<NodeKey, nat>>,
    /// For each node handed out, the freshness it was handed out with,
    /// combined with that of each successful completion taken in.
    accumulated: Ghost<Map<NodeKey, Freshness>>,
}

/// Number of completion messages a node with `n` jobs produces.
pub open spec fn units(n: nat) -> nat {
    if n == 0 {
        1
    } else {
        n
    }
}

/// The combined freshness of a list of jobs (`Fresh` for none).
pub open spec fn jobs_fresh<J>(jobs: Seq<(J, Freshness)>) -> Freshness
    decreases jobs.len(),
{
    if jobs.len() == 0 {
        Freshness::Fresh
    } else {
        join(jobs_fresh(jobs.drop_last()), jobs.last().1)
    }
}

/// Each job with its own freshness combined with the node's incoming one.
pub open spec fn effective<J>(jobs: Seq<(J, Freshness)>, f: Freshness) -> Seq<(J, Freshness)> {
    jobs.map_values(|p: (J, Freshness)| (p.0, join(p.1, f)))
}

pub open spec fn has_pending(ps: Seq<PendingBuild>, k: NodeKey) -> bool {
    exists|i: int| 0 <= i < ps.len() && ps[i].key == k
}

/// The position of the record for `k`.
pub open spec fn pending_pos(ps: Seq<PendingBuild>, k: NodeKey) -> int {
    choose|i: int| 0 <= i < ps.len() && ps[i].key == k
}

/// The completion messages still expected by the given records.
pub open spec fn pending_total(ps: Seq<PendingBuild>) -> nat
    decreases ps.len(),
{
    if ps.len() == 0 {
        0
    } else {
        pending_total(ps.drop_last()) + ps.last().amt as nat
    }
}

proof fn lemma_total_push(ps: Seq<PendingBuild>, p: PendingBuild)
    ensures
        pending_total(ps.push(p)) == pending_total(ps) + p.amt,
{
    assert(ps.push(p).drop_last() =~= ps);
}

proof fn lemma_total_update(ps: Seq<PendingBuild>, i: int, p: PendingBuild)
    requires
        0 <= i < ps.len(),
    ensures
        pending_total(ps.update(i, p)) == pending_total(ps) - ps[i].amt + p.amt,
    decreases ps.len(),
{
    if i == ps.len() - 1 {
        assert(ps.update(i, p).drop_last() =~= ps.drop_last());
    } else {
        lemma_total_update(ps.drop_last(), i, p);
        assert(ps.update(i, p).drop_last() =~= ps.drop_last().update(i, p));
    }
}

proof fn lemma_total_remove(ps: Seq<PendingBuild>, i: int)
    requires
        0 <= i < ps.len(),
    ensures
        pending_total(ps.remove(i)) == pending_total(ps) - ps[i].amt,
    decreases ps.len(),
{
    if i == ps.len() - 1 {
        assert(ps.remove(i) =~= ps.drop_last());
    } else {
        lemma_total_remove(ps.drop_last(), i);
        assert(ps.remove(i).drop_last() =~= ps.drop_last().remove(i));
    }
}

proof fn lemma_total_at_least(ps: Seq<PendingBuild>, i: int)
    requires
        0 <= i < ps.len(),
    ensures
        pending_total(ps) >= ps[i].amt,
    decreases ps.len(),
{
    if i < ps.len() - 1 {
        lemma_total_at_least(ps.drop_last(), i);
    }
}

fn with_freshness<J>(jobs: Vec<(J, Freshness)>, f: Freshness) -> (r: Vec<(J, Freshness)>)
    ensures
        r@ == effective(jobs@, f),
{
    let ghost orig = jobs@;
    let mut jobs = jobs;
    let mut out: Vec<(J, Freshness)> = Vec::new();
    while jobs.len() > 0
        invariant
            out@.len() + jobs@.len() == orig.len(),
            jobs@ == orig.subrange(out@.len() as int, orig.len() as int),
            forall|k: int| 0 <= k < out@.len() ==> out@[k] == (orig[k].0, join(orig[k].1, f)),
        decreases jobs.len(),
    {
        let (j, jf) = jobs.remove(0);
        out.push((j, jf.combine(f)));
    }
    assert(out@ =~= effective(orig, f));
    out
}

fn fold_freshness<J>(jobs: &Vec<(J, Freshness)>) -> (r: Freshness)
    ensures
        r == jobs_fresh(jobs@),
{
    let mut acc = Freshness::Fresh;
    let mut i: usize = 0;
    while i < jobs.len()
        invariant
            i <= jobs@.len(),
            acc == jobs_fresh(jobs@.subrange(0, i as int)),
        decreases jobs.len() - i,
    {
        assert(jobs@.subrange(0, i as int + 1).drop_last() =~= jobs@.subrange(0, i as int));
        acc = acc.combine(jobs[i].1);
        i = i + 1;
    }
    assert(jobs@.subrange(0, jobs@.len() as int) =~= jobs@);
    acc
}

impl<J> JobQueue<J> {
    pub closed spec fn nodes(&self) -> Seq<NodeView<Vec<(J, Freshness)>>> {
        self.queue@
    }

    pub closed spec fn resolve(&self) -> Seq<Seq<usize>> {
        self.resolve@
    }

    pub closed spec fn worker_count(&self) -> usize {
        self.workers
    }

    /// Number of completion messages still expected.
    pub closed spec fn active(&self) -> nat {
        self.active as nat
    }

    pub closed spec fn pending(&self) -> Seq<PendingBuild> {
        self.pending@
    }

    /// For each package, the combined freshness of all jobs enqueued for it.
    pub closed spec fn state(&self) -> Seq<Freshness> {
        self.state@
    }

    pub closed spec fn failed(&self) -> bool {
        self.failed
    }

    /// For each node handed out so far, the completion messages it owes.
    pub closed spec fn owed(&self) -> Map<NodeKey, nat> {
        self.owed@
    }

    /// For each node handed out so far, the successful completions taken in.
    pub closed spec fn received(&self) -> Map<NodeKey, nat> {
        self.received@
    }

    /// For each node handed out so far, the freshness it was handed out with,
    /// combined with that of each successful completion taken in.
    pub closed spec fn accumulated(&self) -> Map<NodeKey, Freshness> {
        self.accumulated@
    }

    /// The queue's own invariant: its nodes wait on the edges of their keys,
    /// and each pending record belongs to a distinct running node.
    pub closed spec fn wf(&self) -> bool {
        &&& self.queue.wf()
        &&& self.state@.len() == self.resolve@.len()
        &&& forall|i: int|
            0 <= i < self.queue@.len() ==> (#[trigger] self.queue@[i]).deps == edges(
                self.queue@[i].key,
                self.resolve@,
            ) && self.queue@[i].key.0 < self.state@.len()
        &&& forall|i: int, j: int|
            0 <= i < self.pending@.len() && 0 <= j < self.pending@.len() && i != j
                ==> self.pending@[i].key != self.pending@[j].key
        &&& forall|i: int|
            0 <= i < self.pending@.len() ==> is_running(self.queue@, (#[trigger] self.pending@[i]).key)
                && self.pending@[i].amt >= 1 && self.owed@.contains_key(self.pending@[i].key)
                && self.pending@[i].amt + self.received@[self.pending@[i].key]
                == self.owed@[self.pending@[i].key]
                && self.pending@[i].fresh == self.accumulated@[self.pending@[i].key]
        &&& forall|k: NodeKey|
            #[trigger] self.owed@.contains_key(k) ==> self.accumulated@.contains_key(k) && (is_done(
                self.queue@,
                k,
            ) ==> outcome(self.queue@, k) == self.accumulated@[k])
        &&& forall|k: NodeKey|
            #[trigger] self.owed@.contains_key(k) ==> self.received@.contains_key(k)
                && self.received@[k] <= self.owed@[k] && (is_running(self.queue@, k) || is_done(
                self.queue@,
                k,
            )) && (is_done(self.queue@, k) <==> self.received@[k] == self.owed@[k])
        &&& forall|i: int|
            0 <= i < self.queue@.len() && (#[trigger] self.queue@[i]).state == NodeState::Running
                ==> has_pending(self.pending@, self.queue@[i].key)
        &&& !self.failed ==> self.active as nat == pending_total(self.pending@)
    }

    pub fn new(resolve: Resolve, workers: usize) -> (q: JobQueue<J>)
        ensures
            q.wf(),
            q.nodes() == Seq::<NodeView<Vec<(J, Freshness)>>>::empty(),
            q.resolve() == resolve@,
            q.worker_count() == workers,
            q.active() == 0,
            q.pending() == Seq::<PendingBuild>::empty(),
            q.state() == Seq::new(resolve@.len(), |i: int| Freshness::Fresh),
            !q.failed(),
            q.owed() == Map::<NodeKey, nat>::empty(),
            q.received() == Map::<NodeKey, nat>::empty(),
            q.accumulated() == Map::<NodeKey, Freshness>::empty(),
    {
        let n = resolve.num_packages();
        let mut state: Vec<Freshness> = Vec::new();
        while state.len() < n
            invariant
                state@.len() <= n,
                forall|i: int| 0 <= i < state@.len() ==> state@[i] == Freshness::Fresh,
            decreases n - state.len(),
        {
            state.push(Freshness::Fresh);
        }
        let q = JobQueue {
            queue: DependencyQueue::new(),
            resolve,
            workers,
            active: 0,
            pending: Vec::new(),
            state,
            failed: false,
            owed: Ghost(Map::empty()),
            received: Ghost(Map::empty()),
            accumulated: Ghost(Map::empty()),
        };
        assert(q.state() =~= Seq::new(q.resolve@.len(), |i: int| Freshness::Fresh));
        assert(q.pending@ =~= Seq::<PendingBuild>::empty());
        q
    }

    /// The size of the worker pool the jobs are meant to run on.
    pub fn workers(&self) -> (n: usize)
        ensures
            n == self.worker_count(),
    {
        self.workers
    }

    pub fn num_packages(&self) -> (n: usize)
        ensures
            n == self.resolve().len(),
    {
        self.resolve.num_packages()
    }

    /// Number of nodes that have not finished.
    pub fn remaining(&self) -> (n: usize)
        ensures
            n == unfinished(self.nodes()),
    {
        self.queue.len()
    }

    /// Registers the jobs of stage `stage` of package `pkg` with their
    /// combined freshness, and folds that freshness into the package's state.
    pub fn enqueue(&mut self, pkg: usize, stage: TargetStage, jobs: Vec<(J, Freshness)>)
        requires
            old(self).wf(),
            pkg < old(self).resolve().len(),
        ensures
            final(self).wf(),
            final(self).state() == old(self).state().update(
                pkg as int,
                join(old(self).state()[pkg as int], jobs_fresh(jobs@)),
            ),
            final(self).nodes() == enqueued(
                old(self).nodes(),
                old(self).resolve(),
                jobs_fresh(jobs@),
                (pkg, stage),
                jobs,
            ),
            final(self).resolve() == old(self).resolve(),
            final(self).worker_count() == old(self).worker_count(),
            final(self).active() == old(self).active(),
            final(self).pending() == old(self).pending(),
            final(self).failed() == old(self).failed(),
            final(self).owed() == old(self).owed(),
            final(self).received() == old(self).received(),
            final(self).accumulated() == old(self).accumulated(),
    {
        let fresh = fold_freshness(&jobs);
        let prev = self.state[pkg];
        self.state.set(pkg, prev.combine(fresh));
        let ghost before = self.queue@;
        let ghost value = jobs;
        self.queue.enqueue(&self.resolve, fresh, (pkg, stage), jobs);
        proof {
            let after = self.queue@;
            assert forall|k: NodeKey| #[trigger] self.owed@.contains_key(k) implies self.received@.contains_key(k)
                && self.received@[k] <= self.owed@[k] && (is_running(after, k) || is_done(after, k))
                && (is_done(after, k) <==> self.received@[k] == self.owed@[k]) && (is_done(after, k)
                ==> outcome(after, k) == self.accumulated@[k]) by {
                lemma_enqueued_keeps_progress(before, self.resolve@, fresh, (pkg, stage), value, k);
            }
            if has_key(before, (pkg, stage)) {
                let i = key_pos(before, (pkg, stage));
                assert(after.len() == before.len());
                assert forall|j: int| 0 <= j < after.len() implies after[j].key == before[j].key
                    && after[j].deps == before[j].deps && (before[j].state == NodeState::Running
                    ==> after[j].state == NodeState::Running) by {}
                assert forall|k: int| 0 <= k < self.pending@.len() implies is_running(
                    after,
                    (#[trigger] self.pending@[k]).key,
                ) by {
                    let c = choose|c: int|
                        0 <= c < before.len() && before[c].key == self.pending@[k].key
                            && before[c].state == NodeState::Running;
                    assert(after[c].key == self.pending@[k].key);
                }
            } else {
                assert forall|k: int| 0 <= k < self.pending@.len() implies is_running(
                    after,
                    (#[trigger] self.pending@[k]).key,
                ) by {
                    let c = choose|c: int|
                        0 <= c < before.len() && before[c].key == self.pending@[k].key
                            && before[c].state == NodeState::Running;
                    assert(after[c] == before[c]);
                }
                assert forall|j: int| 0 <= j < after.len() implies (#[trigger] after[j]).deps
                    == edges(after[j].key, self.resolve@) && after[j].key.0 < self.state@.len() by {
                    if j < before.len() {
                        assert(after[j] == before[j]);
                    }
                }
            }
        }
    }

    fn find_pending(&self, key: NodeKey) -> (r: Option<usize>)
        requires
            self.wf(),
        ensures
            match r {
                Some(i) => i == pending_pos(self.pending(), key) && i < self.pending().len()
                    && self.pending()[i as int].key == key,
                None => !has_pending(self.pending(), key),
            },
    {
        let mut i: usize = 0;
        while i < self.pending.len()
            invariant
                self.wf(),
                i <= self.pending@.len(),
                forall|j: int| 0 <= j < i ==> self.pending@[j].key != key,
            decreases self.pending.len() - i,
        {
            let k = self.pending[i].key;
            if k.0 == key.0 && k.1 == key.1 {
                assert(self.pending@[i as int].key == key);
                let ghost c = pending_pos(self.pending@, key);
                assert(c == i);
                return Some(i);
            }
            i = i + 1;
        }
        None
    }

    /// Whether a completion message for `(pkg, stage)` is expected now.
    pub fn expects(&self, pkg: usize, stage: TargetStage) -> (r: bool)
        requires
            self.wf(),
        ensures
            r == (!self.failed() && self.active() > 0 && has_pending(self.pending(), (pkg, stage))),
    {
        if self.failed || self.active == 0 {
            return false;
        }
        match self.find_pending((pkg, stage)) {
            Some(_) => true,
            None => false,
        }
    }

    /// Hands out the first node whose dependencies have all finished, and
    /// records that its completion messages are now expected: one per job,
    /// or one when it has no job. Nothing is handed out after a failure, nor
    /// when the count of expected messages would exceed `usize::MAX`.
    pub fn next_dispatch(&mut self) -> (r: Option<Dispatch<J>>)
        requires
            old(self).wf(),
        ensures
            final(self).wf(),
            final(self).resolve() == old(self).resolve(),
            final(self).state() == old(self).state(),
            final(self).worker_count() == old(self).worker_count(),
            final(self).failed() == old(self).failed(),
            ({
                let i = first_ready(old(self).nodes());
                let n = old(self).nodes()[i];
                let amt = units(n.value->Some_0@.len());
                match r {
                    None => {
                        &&& old(self).failed() || i == -1 || old(self).active() + amt > usize::MAX
                        &&& final(self).nodes() == old(self).nodes()
                        &&& final(self).pending() == old(self).pending()
                        &&& final(self).active() == old(self).active()
                        &&& final(self).owed() == old(self).owed()
                        &&& final(self).received() == old(self).received()
                        &&& final(self).accumulated() == old(self).accumulated()
                    },
                    Some(d) => {
                        &&& !old(self).failed()
                        &&& i != -1
                        &&& ready(old(self).nodes(), i)
                        &&& n.key == (d.pkg, d.stage)
                        &&& deps_done(old(self).nodes(), edges(n.key, old(self).resolve()))
                        &&& d.fresh == incoming(old(self).nodes(), i)
                        &&& d.fresh == inflow(old(self).nodes(), edges(n.key, old(self).resolve()))
                        &&& d.status == if d.stage == TargetStage::StageStart {
                            Some(join(d.fresh, old(self).state()[d.pkg as int]))
                        } else {
                            None::<Freshness>
                        }
                        &&& d.jobs@ == effective(n.value->Some_0@, d.fresh)
                        &&& final(self).nodes() == old(self).nodes().update(
                            i,
                            NodeView { state: NodeState::Running, value: None, ..n },
                        )
                        &&& final(self).pending() == old(self).pending().push(
                            PendingBuild { key: n.key, amt: amt as usize, fresh: d.fresh },
                        )
                        &&& final(self).active() == old(self).active() + amt
                        &&& final(self).owed() == old(self).owed().insert(n.key, amt)
                        &&& final(self).received() == old(self).received().insert(n.key, 0)
                        &&& final(self).accumulated() == old(self).accumulated().insert(n.key, d.fresh)
                    },
                }
            }),
    {
        if self.failed {
            return None;
        }
        let amt = match self.queue.peek() {
            None => {
                return None;
            },
            Some(jobs) => if jobs.len() == 0 {
                1
            } else {
                jobs.len()
            },
        };
        if amt > usize::MAX - self.active {
            return None;
        }
        let ghost before = self.queue@;
        let ghost i = first_ready(before);
        let (fresh, key, jobs) = match self.queue.dequeue() {
            None => {
                return None;
            },
            Some(t) => t,
        };
        let status = if key.1 == TargetStage::StageStart {
            Some(fresh.combine(self.state[key.0]))
        } else {
            None
        };
        self.active = self.active + amt;
        self.pending.push(PendingBuild { key, amt, fresh });
        let ghost old_owed = self.owed@;
        let ghost old_received = self.received@;
        self.owed = Ghost(self.owed@.insert(key, amt as nat));
        self.received = Ghost(self.received@.insert(key, 0));
        self.accumulated = Ghost(self.accumulated@.insert(key, fresh));
        let jobs = with_freshness(jobs, fresh);
        proof {
            let after = self.queue@;
            let n = NodeView { state: NodeState::Running, value: None, ..before[i] };
            assert(after == before.update(i, n));
            lemma_total_push(old(self).pending@, PendingBuild { key, amt, fresh });
            assert forall|j: int|
                0 <= j < after.len() && (#[trigger] after[j]).state == NodeState::Running
                    implies has_pending(self.pending@, after[j].key) by {
                if j == i {
                    assert(self.pending@[self.pending@.len() - 1].key == key);
                } else {
                    assert(after[j] == before[j]);
                    let m = choose|m: int|
                        0 <= m < old(self).pending@.len() && old(self).pending@[m].key == before[j].key;
                    assert(self.pending@[m] == old(self).pending@[m]);
                }
            }
            lemma_is_done_after_update(before, i, before[i], key);
            assert(before.update(i, before[i]) =~= before);
            assert(!old_owed.contains_key(key)) by {
                if old_owed.contains_key(key) {
                    assert(is_running(before, key) || is_done(before, key));
                    if is_running(before, key) {
                        let c = choose|c: int|
                            0 <= c < before.len() && before[c].key == key && before[c].state
                                == NodeState::Running;
                        assert(c == i);
                    }
                }
            }
            assert forall|k: NodeKey| #[trigger] self.owed@.contains_key(k) implies self.received@.contains_key(k)
                && self.received@[k] <= self.owed@[k] && (is_running(after, k) || is_done(after, k))
                && (is_done(after, k) <==> self.received@[k] == self.owed@[k]) by {
                lemma_is_done_after_update(before, i, n, k);
                lemma_is_running_after_update(before, i, n, k);
            }
            assert forall|k: NodeKey| #[trigger] self.owed@.contains_key(k) implies self.accumulated@.contains_key(k)
                && (is_done(after, k) ==> outcome(after, k) == self.accumulated@[k]) by {
                lemma_is_done_after_update(before, i, n, k);
                lemma_outcome_after_update(before, i, n, k);
            }
            assert(before[i].deps == edges(key, self.resolve@));
            assert forall|j: int| 0 <= j < after.len() implies (#[trigger] after[j]).deps
                == edges(after[j].key, self.resolve@) && after[j].key.0 < self.state@.len() by {
                assert(before[j].key == after[j].key);
            }
            assert forall|k: int| 0 <= k < self.pending@.len() implies is_running(
                after,
                (#[trigger] self.pending@[k]).key,
            ) && self.pending@[k].amt >= 1 by {
                if k == self.pending@.len() - 1 {
                    assert(after[i].key == key);
                } else {
                    assert(self.pending@[k].key != key) by {
                        let c = choose|c: int|
                            0 <= c < before.len() && before[c].key == self.pending@[k].key
                                && before[c].state == NodeState::Running;
                        assert(c != i);
                    }
                    let c = choose|c: int|
                        0 <= c < before.len() && before[c].key == self.pending@[k].key
                            && before[c].state == NodeState::Running;
                    assert(c != i);
                    assert(after[c] == before[c]);
                }
            }
            assert forall|a: int, b: int|
                0 <= a < self.pending@.len() && 0 <= b < self.pending@.len() && a != b
                    implies self.pending@[a].key != self.pending@[b].key by {
                let last = self.pending@.len() - 1;
                if a == last || b == last {
                    let o = if a == last { b } else { a };
                    let c = choose|c: int|
                        0 <= c < before.len() && before[c].key == self.pending@[o].key
                            && before[c].state == NodeState::Running;
                    assert(c != i);
                }
            }
        }
        Some(Dispatch { pkg: key.0, stage: key.1, fresh, status, jobs })
    }

    /// Takes in the completion message `(pkg, stage, fresh, ok)` of one job.
    ///
    /// On success the node's record counts one message less and combines
    /// `fresh` into its freshness; with the last expected message the node
    /// finishes with that freshness and its record goes. On failure the queue
    /// stops handing out work and asks for the messages still outstanding to
    /// be drained.
    #[verifier::rlimit(40)]
    pub fn on_complete(&mut self, pkg: usize, stage: TargetStage, fresh: Freshness, ok: bool) -> (r:
        Completion)
        requires
            old(self).wf(),
            !old(self).failed(),
            old(self).active() > 0,
            has_pending(old(self).pending(), (pkg, stage)),
        ensures
            final(self).wf(),
            final(self).resolve() == old(self).resolve(),
            final(self).state() == old(self).state(),
            final(self).worker_count() == old(self).worker_count(),
            final(self).active() == old(self).active() - 1,
            final(self).owed() == old(self).owed(),
            !ok ==> final(self).received() == old(self).received(),
            !ok ==> final(self).accumulated() == old(self).accumulated(),
            ok ==> final(self).accumulated() == old(self).accumulated().insert(
                (pkg, stage),
                join(old(self).accumulated()[(pkg, stage)], fresh),
            ),
            ok ==> final(self).received() == old(self).received().insert(
                (pkg, stage),
                old(self).received()[(pkg, stage)] + 1,
            ),
            !ok ==> {
                &&& r == Completion::Failed((old(self).active() - 1) as usize)
                &&& final(self).failed()
                &&& final(self).nodes() == old(self).nodes()
                &&& final(self).pending() == old(self).pending()
            },
            ok ==> {
                let ps = old(self).pending();
                let i = pending_pos(ps, (pkg, stage));
                let acc = join(ps[i].fresh, fresh);
                &&& r == Completion::Continue
                &&& !final(self).failed()
                &&& ps[i].amt == 1 ==> final(self).nodes() == finished(
                    old(self).nodes(),
                    (pkg, stage),
                    acc,
                ) && final(self).pending() == ps.remove(i)
                &&& ps[i].amt != 1 ==> final(self).nodes() == old(self).nodes()
                    && final(self).pending() == ps.update(
                    i,
                    PendingBuild { key: (pkg, stage), amt: (ps[i].amt - 1) as usize, fresh: acc },
                )
            },
    {
        if !ok {
            self.failed = true;
            self.active = self.active - 1;
            return Completion::Failed(self.active);
        }
        let key = (pkg, stage);
        let i = match self.find_pending(key) {
            Some(i) => i,
            None => {
                return Completion::Continue;
            },
        };
        self.active = self.active - 1;
        let p = self.pending[i];
        let acc = p.fresh.combine(fresh);
        let ghost before = self.queue@;
        let ghost old_received = self.received@;
        self.received = Ghost(self.received@.insert(key, self.received@[key] + 1));
        self.accumulated = Ghost(self.accumulated@.insert(key, join(self.accumulated@[key], fresh)));
        proof {
            assert(self.owed@.contains_key(key));
            assert(is_running(before, key));
            let c = choose|c: int|
                0 <= c < before.len() && before[c].key == key && before[c].state == NodeState::Running;
            lemma_is_done_after_update(before, c, before[c], key);
            assert(before.update(c, before[c]) =~= before);
        }
        if p.amt == 1 {
            self.queue.finish(key, acc);
            self.pending.remove(i);
            proof {
                let after = self.queue@;
                let c = key_pos(before, key);
                let n = NodeView { state: NodeState::Done(acc), ..before[c] };
                assert(after == before.update(c, n));
                lemma_total_remove(old(self).pending@, i as int);
                assert forall|j: int|
                    0 <= j < after.len() && (#[trigger] after[j]).state == NodeState::Running
                        implies has_pending(self.pending@, after[j].key) by {
                    assert(j != c);
                    assert(after[j] == before[j]);
                    let m = choose|m: int|
                        0 <= m < old(self).pending@.len() && old(self).pending@[m].key == before[j].key;
                    assert(m != i);
                    let m2 = if m < i { m } else { m - 1 };
                    assert(self.pending@[m2] == old(self).pending@[m]);
                }
                assert forall|k: NodeKey| #[trigger] self.owed@.contains_key(k) implies self.received@.contains_key(k)
                    && self.received@[k] <= self.owed@[k] && (is_running(after, k) || is_done(after, k))
                    && (is_done(after, k) <==> self.received@[k] == self.owed@[k]) by {
                    lemma_is_done_after_update(before, c, n, k);
                    lemma_is_running_after_update(before, c, n, k);
                }
                assert(old(self).pending@[i as int].fresh == old(self).accumulated@[key]);
                assert forall|k: NodeKey| #[trigger] self.owed@.contains_key(k) implies self.accumulated@.contains_key(k)
                    && (is_done(after, k) ==> outcome(after, k) == self.accumulated@[k]) by {
                    lemma_is_done_after_update(before, c, n, k);
                    lemma_outcome_after_update(before, c, n, k);
                }
                assert forall|j: int| 0 <= j < after.len() implies (#[trigger] after[j]).deps
                    == edges(after[j].key, self.resolve@) && after[j].key.0 < self.state@.len() by {
                    assert(before[j].key == after[j].key);
                }
                assert forall|k: int| 0 <= k < self.pending@.len() implies is_running(
                    after,
                    (#[trigger] self.pending@[k]).key,
                ) && self.pending@[k].amt >= 1 by {
                    let k0 = if k < i { k } else { k + 1 };
                    assert(self.pending@[k] == old(self).pending@[k0]);
                    assert(k0 != i);
                    assert(self.pending@[k].key != key);
                    let d = choose|d: int|
                        0 <= d < before.len() && before[d].key == self.pending@[k].key
                            && before[d].state == NodeState::Running;
                    assert(d != c);
                    assert(after[d] == before[d]);
                }
                assert forall|a: int, b: int|
                    0 <= a < self.pending@.len() && 0 <= b < self.pending@.len() && a != b
                        implies self.pending@[a].key != self.pending@[b].key by {
                    let a0 = if a < i { a } else { a + 1 };
                    let b0 = if b < i { b } else { b + 1 };
                    assert(self.pending@[a] == old(self).pending@[a0]);
                    assert(self.pending@[b] == old(self).pending@[b0]);
                }
            }
        } else {
            self.pending.set(i, PendingBuild { key, amt: p.amt - 1, fresh: acc });
            proof {
                lemma_total_update(old(self).pending@, i as int, PendingBuild { key, amt: (p.amt - 1) as usize, fresh: acc });
                assert forall|j: int|
                    0 <= j < self.queue@.len() && (#[trigger] self.queue@[j]).state == NodeState::Running
                        implies has_pending(self.pending@, self.queue@[j].key) by {
                    let m = choose|m: int|
                        0 <= m < old(self).pending@.len() && old(self).pending@[m].key == self.queue@[j].key;
                    assert(self.pending@[m].key == old(self).pending@[m].key);
                }
                assert forall|k: int| 0 <= k < self.pending@.len() implies is_running(
                    self.queue@,
                    (#[trigger] self.pending@[k]).key,
                ) && self.pending@[k].amt >= 1 && self.owed@.contains_key(self.pending@[k].key)
                    && self.pending@[k].amt + self.received@[self.pending@[k].key]
                    == self.owed@[self.pending@[k].key] by {
                    assert(self.pending@[k].key == old(self).pending@[k].key);
                    if k != i {
                        assert(self.pending@[k].key != key);
                    }
                }
                assert forall|k: NodeKey| #[trigger] self.owed@.contains_key(k) implies self.received@.contains_key(k)
                    && self.received@[k] <= self.owed@[k] && (is_running(self.queue@, k) || is_done(self.queue@, k))
                    && (is_done(self.queue@, k) <==> self.received@[k] == self.owed@[k]) by {
                    if k == key {
                        assert(old(self).pending@[i as int].amt + old_received[key] == self.owed@[key]);
                    }
                }
                assert forall|k: NodeKey| #[trigger] self.owed@.contains_key(k) implies self.accumulated@.contains_key(k)
                    && (is_done(self.queue@, k) ==> outcome(self.queue@, k) == self.accumulated@[k]) by {
                    if k == key {
                        assert(old(self).pending@[i as int].amt + old_received[key] == self.owed@[key]);
                        assert(!is_done(self.queue@, key));
                    }
                }
            }
        }
        Completion::Continue
    }
}

/// When package `a` depends on another package `b`, the `Start` node of `a`
/// is ready only once the `End` node of `b` has finished.
pub proof fn lemma_dependency_end_precedes_start<J>(q: &JobQueue<J>, i: int, b: usize)
    requires
        q.wf(),
        ready(q.nodes(), i),
        q.nodes()[i].key.1 == TargetStage::StageStart,
        direct_deps(q.resolve(), q.nodes()[i].key.0).contains(b),
        q.nodes()[i].key.0 != b,
    ensures
        is_done(q.nodes(), (b, TargetStage::StageEnd)),
{
    let a = q.nodes()[i].key.0;
    lemma_start_waits_for_dependency_end(q.resolve(), a, b);
    let deps = q.nodes()[i].deps;
    assert(deps == edges((a, TargetStage::StageStart), q.resolve()));
    let j = choose|j: int| 0 <= j < deps.len() && deps[j] == (b, TargetStage::StageEnd);
    assert(is_done(q.nodes(), deps[j]));
}

/// A node handed out for execution owes one completion per job, or one when
/// it has no job (see `next_dispatch`). It finishes exactly when all of them
/// have been taken in successfully, and runs until then.
pub proof fn lemma_finishes_after_all_completions<J>(q: &JobQueue<J>, k: NodeKey)
    requires
        q.wf(),
        q.owed().contains_key(k),
    ensures
        q.received()[k] <= q.owed()[k],
        is_done(q.nodes(), k) <==> q.received()[k] == q.owed()[k],
        !is_done(q.nodes(), k) ==> is_running(q.nodes(), k),
{
}

/// What the queue's invariant says of its shape: one state per package, and
/// every node waits exactly on the edges of its key.
pub proof fn lemma_queue_shape<J>(q: &JobQueue<J>)
    requires
        q.wf(),
    ensures
        q.state().len() == q.resolve().len(),
        forall|i: int|
            0 <= i < q.nodes().len() ==> (#[trigger] q.nodes()[i]).deps == edges(
                q.nodes()[i].key,
                q.resolve(),
            ) && q.nodes()[i].key.0 < q.state().len(),
{
}

/// Until a failure, the count of expected messages is the sum, over the nodes
/// running, of the completions each still owes.
pub proof fn lemma_active_counts_outstanding<J>(q: &JobQueue<J>)
    requires
        q.wf(),
        !q.failed(),
    ensures
        q.active() == pending_total(q.pending()),
        forall|i: int|
            0 <= i < q.pending().len() ==> (#[trigger] q.pending()[i]).amt + q.received()[q.pending()[i].key]
                == q.owed()[q.pending()[i].key],
{
}

pub open spec fn stage_index(s: TargetStage) -> nat {
    match s {
        TargetStage::StageStart => 0,
        TargetStage::StageCustomBuild => 1,
        TargetStage::StageLibraries => 2,
        TargetStage::StageBinaries => 3,
        TargetStage::StageEnd => 4,
    }
}

/// A rank of nodes that every edge decreases, given a rank of packages that
/// every dependency between two packages decreases.
pub open spec fn node_rank(rank: spec_fn(usize) -> nat, k: NodeKey) -> nat {
    rank(k.0) * 5 + stage_index(k.1)
}

proof fn lemma_edge_lowers_rank(r: Seq<Seq<usize>>, rank: spec_fn(usize) -> nat, key: NodeKey, j: int)
    requires
        forall|a: usize, b: usize| #[trigger] direct_deps(r, a).contains(b) && a != b ==> rank(b) < rank(a),
        0 <= j < edges(key, r).len(),
    ensures
        node_rank(rank, edges(key, r)[j]) < node_rank(rank, key),
{
    let e = edges(key, r)[j];
    if key.1 == TargetStage::StageStart {
        assert(edges(key, r).contains(e));
        lemma_no_self_edge(r, key.0, e);
        let lo = rank(e.0);
        let hi = rank(key.0);
        assert(lo < hi);
        assert(lo * 5 + 4 < hi * 5) by (nonlinear_arith)
            requires
                lo < hi,
        ;
    }
}

proof fn lemma_progress_from<J>(q: &JobQueue<J>, rank: spec_fn(usize) -> nat, i: int)
    requires
        q.wf(),
        !q.failed(),
        forall|a: usize, b: usize|
            #[trigger] direct_deps(q.resolve(), a).contains(b) && a != b ==> rank(b) < rank(a),
        forall|x: int, j: int|
            0 <= x < q.nodes().len() && 0 <= j < q.nodes()[x].deps.len() ==> has_key(
                q.nodes(),
                #[trigger] q.nodes()[x].deps[j],
            ),
        0 <= i < q.nodes().len(),
        q.nodes()[i].state !is Done,
    ensures
        (exists|x: int| ready(q.nodes(), x)) || q.active() > 0,
    decreases node_rank(rank, q.nodes()[i].key),
{
    let nodes = q.nodes();
    if nodes[i].state == NodeState::Running {
        assert(has_pending(q.pending(), nodes[i].key));
        let m = choose|m: int| 0 <= m < q.pending().len() && q.pending()[m].key == nodes[i].key;
        lemma_total_at_least(q.pending(), m);
    } else if deps_done(nodes, nodes[i].deps) {
        assert(ready(nodes, i));
    } else {
        let deps = nodes[i].deps;
        let j = choose|j: int| 0 <= j < deps.len() && !is_done(nodes, #[trigger] deps[j]);
        assert(has_key(nodes, deps[j]));
        let i2 = choose|i2: int| 0 <= i2 < nodes.len() && nodes[i2].key == deps[j];
        lemma_edge_lowers_rank(q.resolve(), rank, nodes[i].key, j);
        lemma_progress_from(q, rank, i2);
    }
}

/// Progress: with no failure, every dependency registered and the package
/// graph acyclic (each dependency of a package ranks lower than it), a graph
/// with an unfinished node has a node ready to hand out or a completion
/// still to come. The scheduling loop never waits for a message that no one
/// will send.
pub proof fn lemma_progress<J>(q: &JobQueue<J>, rank: spec_fn(usize) -> nat, k: NodeKey)
    requires
        q.wf(),
        !q.failed(),
        forall|a: usize, b: usize|
            #[trigger] direct_deps(q.resolve(), a).contains(b) && a != b ==> rank(b) < rank(a),
        forall|x: int, j: int|
            0 <= x < q.nodes().len() && 0 <= j < q.nodes()[x].deps.len() ==> has_key(
                q.nodes(),
                #[trigger] q.nodes()[x].deps[j],
            ),
        has_key(q.nodes(), k),
        !is_done(q.nodes(), k),
    ensures
        (exists|x: int| ready(q.nodes(), x)) || q.active() > 0,
{
    let i = choose|i: int| 0 <= i < q.nodes().len() && q.nodes()[i].key == k;
    lemma_progress_from(q, rank, i);
}

/// A finished node finished with the freshness it was handed out with,
/// combined with that of every completion it took in: a dirty dependency
/// (through `incoming`) or a dirty job makes the node finish dirty, and so
/// makes each node that waits on it go out dirty in turn.
pub proof fn lemma_outcome_accumulates<J>(q: &JobQueue<J>, k: NodeKey)
    requires
        q.wf(),
        q.owed().contains_key(k),
        is_done(q.nodes(), k),
    ensures
        outcome(q.nodes(), k) == q.accumulated()[k],
{
}

} // verus!
