use std::collections::VecDeque;

use build_queue::dep_queue::DependencyQueue;
use build_queue::freshness::Freshness;
use build_queue::job_queue::{Completion, JobQueue};
use build_queue::stage::{dependencies, Resolve, TargetStage};

const STAGES: [TargetStage; 5] = [
    TargetStage::StageStart,
    TargetStage::StageCustomBuild,
    TargetStage::StageLibraries,
    TargetStage::StageBinaries,
    TargetStage::StageEnd,
];

/// A job of the tests: its name and whether it succeeds.
type TestJob = (&'static str, bool);

type Message = (usize, TargetStage, Freshness, Result<(), &'static str>);

#[derive(Debug, PartialEq)]
enum Event {
    Dispatched(usize, TargetStage, Freshness),
    Finished(usize, TargetStage),
}

struct Run {
    result: Result<(), &'static str>,
    statuses: Vec<(usize, &'static str)>,
    events: Vec<Event>,
    described: Vec<&'static str>,
    drained: usize,
    remaining: usize,
}

/// Runs the scheduling loop without threads: the jobs "complete" in the
/// order in which they were handed out.
fn simulate(q: &mut JobQueue<TestJob>) -> Run {
    let mut inflight: VecDeque<Message> = VecDeque::new();
    let mut run = Run {
        result: Ok(()),
        statuses: Vec::new(),
        events: Vec::new(),
        described: Vec::new(),
        drained: 0,
        remaining: 0,
    };
    loop {
        while let Some(d) = q.next_dispatch() {
            run.events.push(Event::Dispatched(d.pkg, d.stage, d.fresh));
            match d.status {
                Some(Freshness::Fresh) => run.statuses.push((d.pkg, "Fresh")),
                Some(Freshness::Dirty) => run.statuses.push((d.pkg, "Compiling")),
                None => {}
            }
            if d.jobs.is_empty() {
                inflight.push_back((d.pkg, d.stage, d.fresh, Ok(())));
            }
            for ((name, ok), f) in d.jobs {
                if f == Freshness::Dirty {
                    run.described.push(name);
                }
                inflight.push_back((d.pkg, d.stage, f, if ok { Ok(()) } else { Err(name) }));
            }
        }
        if q.remaining() == 0 {
            run.remaining = 0;
            return run;
        }
        let (pkg, stage, fresh, result) = inflight.pop_front().expect("a message is outstanding");
        assert!(q.expects(pkg, stage));
        let before = q.remaining();
        match q.on_complete(pkg, stage, fresh, result.is_ok()) {
            Completion::Continue => {
                if q.remaining() < before {
                    run.events.push(Event::Finished(pkg, stage));
                }
            }
            Completion::Failed(k) => {
                assert_eq!(k, inflight.len());
                for _ in 0..k {
                    inflight.pop_front().unwrap();
                }
                run.drained = k;
                run.result = result;
                assert!(q.next_dispatch().is_none());
                run.remaining = q.remaining();
                return run;
            }
        }
    }
}

/// Enqueues all five stages of `pkg`, with `jobs` at its libraries stage.
fn enqueue_package(q: &mut JobQueue<TestJob>, pkg: usize, jobs: Vec<(TestJob, Freshness)>) {
    for stage in STAGES {
        if stage == TargetStage::StageLibraries {
            q.enqueue(pkg, stage, jobs.clone());
        } else {
            q.enqueue(pkg, stage, Vec::new());
        }
    }
}

const B: usize = 0;
const A: usize = 1;

/// Packages B (0) and A (1), where A depends on B.
fn two_packages(b_job: (TestJob, Freshness), a_job: (TestJob, Freshness)) -> JobQueue<TestJob> {
    let resolve = Resolve::new(vec![vec![], vec![B]]);
    let mut q = JobQueue::new(resolve, 2);
    enqueue_package(&mut q, B, vec![b_job]);
    enqueue_package(&mut q, A, vec![a_job]);
    q
}

fn position(events: &[Event], e: &Event) -> usize {
    events.iter().position(|x| x == e).expect("event happened")
}

#[test]
fn combine_laws_on_all_values() {
    let all = [Freshness::Fresh, Freshness::Dirty];
    for a in all {
        assert_eq!(Freshness::Fresh.combine(a), a);
        assert_eq!(a.combine(Freshness::Fresh), a);
        assert_eq!(a.combine(a), a);
        assert_eq!(Freshness::Dirty.combine(a), Freshness::Dirty);
        for b in all {
            assert_eq!(a.combine(b), b.combine(a));
            for c in all {
                assert_eq!(a.combine(b).combine(c), a.combine(b.combine(c)));
            }
        }
    }
    assert_eq!(Freshness::Fresh.combine(Freshness::Fresh), Freshness::Fresh);
}

#[test]
fn stage_edges() {
    let resolve = Resolve::new(vec![vec![], vec![0, 1, 2]]);
    assert_eq!(
        dependencies((1, TargetStage::StageStart), &resolve),
        vec![(0, TargetStage::StageEnd), (2, TargetStage::StageEnd)]
    );
    assert_eq!(dependencies((0, TargetStage::StageStart), &resolve), vec![]);
    assert_eq!(
        dependencies((1, TargetStage::StageCustomBuild), &resolve),
        vec![(1, TargetStage::StageStart)]
    );
    assert_eq!(
        dependencies((1, TargetStage::StageLibraries), &resolve),
        vec![(1, TargetStage::StageCustomBuild)]
    );
    assert_eq!(
        dependencies((1, TargetStage::StageBinaries), &resolve),
        vec![(1, TargetStage::StageLibraries)]
    );
    assert_eq!(
        dependencies((1, TargetStage::StageEnd), &resolve),
        vec![(1, TargetStage::StageBinaries), (1, TargetStage::StageLibraries)]
    );
}

#[test]
fn start_has_no_self_edge() {
    let resolve = Resolve::new(vec![vec![0, 0]]);
    assert_eq!(dependencies((0, TargetStage::StageStart), &resolve), vec![]);
}

#[test]
fn unknown_package_has_no_start_edges() {
    let resolve = Resolve::new(vec![vec![]]);
    assert_eq!(dependencies((5, TargetStage::StageStart), &resolve), vec![]);
}

#[test]
fn all_fresh_reports_fresh() {
    let mut q = two_packages(
        (("b-lib", true), Freshness::Fresh),
        (("a-lib", true), Freshness::Fresh),
    );
    assert_eq!(q.remaining(), 10);
    let run = simulate(&mut q);
    assert_eq!(run.result, Ok(()));
    assert_eq!(run.statuses, vec![(B, "Fresh"), (A, "Fresh")]);
    assert_eq!(run.remaining, 0);
    assert_eq!(q.remaining(), 0);
    assert!(run.described.is_empty());
}

#[test]
fn dirty_dependency_makes_dependent_compile() {
    let mut q = two_packages(
        (("b-lib", true), Freshness::Dirty),
        (("a-lib", true), Freshness::Fresh),
    );
    let run = simulate(&mut q);
    assert_eq!(run.result, Ok(()));
    assert_eq!(run.statuses, vec![(B, "Compiling"), (A, "Compiling")]);
    assert!(run.events.contains(&Event::Dispatched(A, TargetStage::StageStart, Freshness::Dirty)));
    assert_eq!(run.described, vec!["b-lib", "a-lib"]);
    assert_eq!(q.remaining(), 0);
}

#[test]
fn dependency_end_finishes_before_dependent_start() {
    let mut q = two_packages(
        (("b-lib", true), Freshness::Fresh),
        (("a-lib", true), Freshness::Fresh),
    );
    let run = simulate(&mut q);
    let end_b = position(&run.events, &Event::Finished(B, TargetStage::StageEnd));
    let start_a = run
        .events
        .iter()
        .position(|e| matches!(e, Event::Dispatched(A, TargetStage::StageStart, _)))
        .unwrap();
    assert!(end_b < start_a);
    for stage in STAGES {
        let deps = dependencies((A, stage), &Resolve::new(vec![vec![], vec![B]]));
        let mine = run
            .events
            .iter()
            .position(|e| matches!(e, Event::Dispatched(p, s, _) if *p == A && *s == stage))
            .unwrap();
        for (p, s) in deps {
            assert!(position(&run.events, &Event::Finished(p, s)) < mine);
        }
    }
}

#[test]
fn failing_dependency_stops_dependent() {
    let mut q = two_packages(
        (("b-lib", false), Freshness::Fresh),
        (("a-lib", true), Freshness::Fresh),
    );
    let run = simulate(&mut q);
    assert_eq!(run.result, Err("b-lib"));
    assert!(!run
        .events
        .iter()
        .any(|e| matches!(e, Event::Dispatched(A, TargetStage::StageStart, _))));
    assert!(run.remaining > 0);
}

#[test]
fn node_finishes_after_each_of_its_jobs() {
    let resolve = Resolve::new(vec![vec![]]);
    let mut q: JobQueue<TestJob> = JobQueue::new(resolve, 4);
    q.enqueue(
        0,
        TargetStage::StageEnd,
        vec![
            (("x", true), Freshness::Fresh),
            (("y", true), Freshness::Dirty),
            (("z", true), Freshness::Fresh),
        ],
    );
    q.enqueue(0, TargetStage::StageBinaries, Vec::new());
    q.enqueue(0, TargetStage::StageLibraries, Vec::new());
    q.enqueue(0, TargetStage::StageCustomBuild, Vec::new());
    q.enqueue(0, TargetStage::StageStart, Vec::new());
    assert_eq!(q.remaining(), 5);
    for stage in [
        TargetStage::StageStart,
        TargetStage::StageCustomBuild,
        TargetStage::StageLibraries,
        TargetStage::StageBinaries,
    ] {
        let d = q.next_dispatch().unwrap();
        assert_eq!(d.stage, stage);
        assert!(d.jobs.is_empty());
        assert!(q.next_dispatch().is_none());
        assert_eq!(q.on_complete(0, stage, d.fresh, true), Completion::Continue);
    }
    assert_eq!(q.remaining(), 1);
    let d = q.next_dispatch().unwrap();
    assert_eq!(d.stage, TargetStage::StageEnd);
    assert_eq!(d.status, None);
    let effective: Vec<Freshness> = d.jobs.iter().map(|(_, f)| *f).collect();
    assert_eq!(effective, vec![Freshness::Fresh, Freshness::Dirty, Freshness::Fresh]);
    for f in [Freshness::Fresh, Freshness::Dirty] {
        assert!(q.expects(0, TargetStage::StageEnd));
        assert_eq!(q.on_complete(0, TargetStage::StageEnd, f, true), Completion::Continue);
        assert_eq!(q.remaining(), 1);
    }
    assert_eq!(q.on_complete(0, TargetStage::StageEnd, Freshness::Fresh, true), Completion::Continue);
    assert_eq!(q.remaining(), 0);
    assert!(!q.expects(0, TargetStage::StageEnd));
}

#[test]
fn node_without_jobs_needs_one_message() {
    let resolve = Resolve::new(vec![vec![]]);
    let mut q: JobQueue<TestJob> = JobQueue::new(resolve, 1);
    q.enqueue(0, TargetStage::StageStart, Vec::new());
    let d = q.next_dispatch().unwrap();
    assert_eq!(d.status, Some(Freshness::Fresh));
    assert!(d.jobs.is_empty());
    assert!(q.expects(0, TargetStage::StageStart));
    assert_eq!(q.remaining(), 1);
    assert_eq!(q.on_complete(0, TargetStage::StageStart, d.fresh, true), Completion::Continue);
    assert_eq!(q.remaining(), 0);
}

#[test]
fn failure_drains_outstanding_jobs() {
    let resolve = Resolve::new(vec![vec![], vec![]]);
    let mut q: JobQueue<TestJob> = JobQueue::new(resolve, 4);
    q.enqueue(
        0,
        TargetStage::StageStart,
        vec![
            (("p", false), Freshness::Fresh),
            (("q", true), Freshness::Fresh),
            (("r", true), Freshness::Fresh),
        ],
    );
    q.enqueue(1, TargetStage::StageStart, vec![(("s", true), Freshness::Fresh)]);
    q.enqueue(1, TargetStage::StageCustomBuild, Vec::new());
    assert!(q.next_dispatch().is_some());
    assert!(q.next_dispatch().is_some());
    assert!(q.next_dispatch().is_none());
    assert_eq!(q.on_complete(0, TargetStage::StageStart, Freshness::Fresh, false), Completion::Failed(3));
    assert!(!q.expects(1, TargetStage::StageStart));
    assert!(q.next_dispatch().is_none());
}

#[test]
fn failure_of_last_job_drains_nothing() {
    let resolve = Resolve::new(vec![vec![]]);
    let mut q: JobQueue<TestJob> = JobQueue::new(resolve, 1);
    q.enqueue(0, TargetStage::StageStart, vec![(("p", false), Freshness::Dirty)]);
    let d = q.next_dispatch().unwrap();
    assert_eq!(d.status, Some(Freshness::Dirty));
    assert_eq!(q.on_complete(0, TargetStage::StageStart, Freshness::Dirty, false), Completion::Failed(0));
}

#[test]
fn enqueue_again_combines_freshness_and_replaces_jobs() {
    let resolve = Resolve::new(vec![vec![]]);
    let mut q: JobQueue<TestJob> = JobQueue::new(resolve, 1);
    q.enqueue(0, TargetStage::StageStart, vec![(("old", true), Freshness::Dirty)]);
    q.enqueue(0, TargetStage::StageStart, vec![(("new", true), Freshness::Fresh)]);
    assert_eq!(q.remaining(), 1);
    let d = q.next_dispatch().unwrap();
    assert_eq!(d.status, Some(Freshness::Dirty));
    assert_eq!(d.jobs.len(), 1);
    assert_eq!((d.jobs[0].0).0, "new");
    assert_eq!(d.jobs[0].1, Freshness::Fresh);
}

#[test]
fn empty_graph_is_done() {
    let mut q: JobQueue<TestJob> = JobQueue::new(Resolve::new(vec![]), 3);
    assert_eq!(q.workers(), 3);
    assert_eq!(q.num_packages(), 0);
    let run = simulate(&mut q);
    assert_eq!(run.result, Ok(()));
    assert!(run.events.is_empty());
}

#[test]
fn dependency_queue_order_and_propagation() {
    let resolve = Resolve::new(vec![vec![1], vec![]]);
    let mut dq: DependencyQueue<&str> = DependencyQueue::new();
    dq.enqueue(&resolve, Freshness::Fresh, (0, TargetStage::StageStart), "a-start");
    dq.enqueue(&resolve, Freshness::Fresh, (1, TargetStage::StageCustomBuild), "b-build");
    dq.enqueue(&resolve, Freshness::Fresh, (1, TargetStage::StageStart), "b-start");
    assert_eq!(dq.len(), 3);
    assert_eq!(dq.peek(), Some(&"b-start"));
    let (f, k, v) = dq.dequeue().unwrap();
    assert_eq!((f, k, v), (Freshness::Fresh, (1, TargetStage::StageStart), "b-start"));
    assert!(dq.dequeue().is_none());
    dq.finish((1, TargetStage::StageStart), Freshness::Dirty);
    assert_eq!(dq.len(), 2);
    let (f, k, v) = dq.dequeue().unwrap();
    assert_eq!((f, k, v), (Freshness::Dirty, (1, TargetStage::StageCustomBuild), "b-build"));
    dq.finish((1, TargetStage::StageCustomBuild), Freshness::Fresh);
    // The start of package 0 waits for the end of package 1, which was never registered.
    assert!(dq.peek().is_none());
    assert!(dq.dequeue().is_none());
    assert_eq!(dq.len(), 1);
}

#[test]
fn dependency_queue_hands_out_dependency_outcomes() {
    let resolve = Resolve::new(vec![vec![]]);
    let mut dq: DependencyQueue<u8> = DependencyQueue::new();
    dq.enqueue(&resolve, Freshness::Fresh, (0, TargetStage::StageStart), 1);
    dq.enqueue(&resolve, Freshness::Dirty, (0, TargetStage::StageStart), 2);
    dq.enqueue(&resolve, Freshness::Dirty, (0, TargetStage::StageCustomBuild), 3);
    assert_eq!(dq.len(), 2);
    // No dependency: handed out fresh, whatever it was registered with.
    assert_eq!(dq.dequeue(), Some((Freshness::Fresh, (0, TargetStage::StageStart), 2)));
    dq.finish((0, TargetStage::StageStart), Freshness::Fresh);
    assert_eq!(dq.dequeue(), Some((Freshness::Fresh, (0, TargetStage::StageCustomBuild), 3)));
}

#[test]
fn dirty_job_runs_dirty_and_finishes_its_node_dirty() {
    let resolve = Resolve::new(vec![vec![]]);
    let mut q: JobQueue<TestJob> = JobQueue::new(resolve, 1);
    q.enqueue(0, TargetStage::StageStart, vec![(("s", true), Freshness::Dirty), (("t", true), Freshness::Fresh)]);
    q.enqueue(0, TargetStage::StageCustomBuild, Vec::new());
    let d = q.next_dispatch().unwrap();
    assert_eq!(d.fresh, Freshness::Fresh);
    assert_eq!(d.status, Some(Freshness::Dirty));
    let effective: Vec<Freshness> = d.jobs.iter().map(|(_, f)| *f).collect();
    assert_eq!(effective, vec![Freshness::Dirty, Freshness::Fresh]);
    assert_eq!(q.on_complete(0, TargetStage::StageStart, Freshness::Dirty, true), Completion::Continue);
    assert_eq!(q.on_complete(0, TargetStage::StageStart, Freshness::Fresh, true), Completion::Continue);
    let d = q.next_dispatch().unwrap();
    assert_eq!(d.stage, TargetStage::StageCustomBuild);
    assert_eq!(d.fresh, Freshness::Dirty);
}
