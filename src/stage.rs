use vstd::prelude::*;

verus! {

/// Current stage of compilation for an individual package.
///
/// Each build step of a package is registered under one of these stages; the
/// edges between stages are given by `dependencies`.
#[derive(Clone, Copy, Debug, PartialEq, Eq, Structural, Hash, PartialOrd, Ord)]
pub enum TargetStage {
    StageStart,
    StageCustomBuild,
    StageLibraries,
    StageBinaries,
    StageEnd,
}

/// A schedulable unit: a package, by its index in the resolved graph, and a stage.
pub type NodeKey = (usize, TargetStage);

/// The resolved package graph: for each package index, the indices of the
/// packages it directly depends on.
pub struct Resolve {
    deps: Vec<Vec<usize>>,
}

impl View for Resolve {
    type V = Seq<Seq<usize>>;

    closed spec fn view(&self) -> Seq<Seq<usize>> {
        self.deps@.map_values(|d: Vec<usize>| d@)
    }
}

/// The direct dependencies of package `id`; none for an unknown package.
pub open spec fn direct_deps(r: Seq<Seq<usize>>, id: usize) -> Seq<usize> {
    if id < r.len() {
        r[id as int]
    } else {
        Seq::empty()
    }
}

/// The `End` stage of each listed package other than `id`, in list order.
pub open spec fn start_edges(ds: Seq<usize>, id: usize) -> Seq<NodeKey>
    decreases ds.len(),
{
    if ds.len() == 0 {
        Seq::empty()
    } else {
        let rest = start_edges(ds.drop_last(), id);
        if ds.last() == id {
            rest
        } else {
            rest.push((ds.last(), TargetStage::StageEnd))
        }
    }
}

/// The node keys that node `key` waits for.
pub open spec fn edges(key: NodeKey, r: Seq<Seq<usize>>) -> Seq<NodeKey> {
    let id = key.0;
    match key.1 {
        TargetStage::StageStart => start_edges(direct_deps(r, id), id),
        TargetStage::StageCustomBuild => seq![(id, TargetStage::StageStart)],
        TargetStage::StageLibraries => seq![(id, TargetStage::StageCustomBuild)],
        TargetStage::StageBinaries => seq![(id, TargetStage::StageLibraries)],
        TargetStage::StageEnd => seq![(id, TargetStage::StageBinaries), (id, TargetStage::StageLibraries)],
    }
}

impl Resolve {
    pub fn new(deps: Vec<Vec<usize>>) -> (r: Resolve)
        ensures
            r@ == deps@.map_values(|d: Vec<usize>| d@),
    {
        Resolve { deps }
    }

    pub fn num_packages(&self) -> (n: usize)
        ensures
            n == self@.len(),
    {
        self.deps.len()
    }
}

/// The nodes that `key` depends on: the `End` stage of every other package
/// that a package's `Start` depends on, and the previous stage(s) of the same
/// package otherwise.
pub fn dependencies(key: NodeKey, resolve: &Resolve) -> (r: Vec<NodeKey>)
    ensures
        r@ == edges(key, resolve@),
{
    let id = key.0;
    match key.1 {
        TargetStage::StageStart => {
            let mut out: Vec<NodeKey> = Vec::new();
            if id < resolve.deps.len() {
                let ds = &resolve.deps[id];
                assert(ds@ == direct_deps(resolve@, id));
                let mut i: usize = 0;
                while i < ds.len()
                    invariant
                        i <= ds@.len(),
                        out@ == start_edges(ds@.subrange(0, i as int), id),
                    decreases ds.len() - i,
                {
                    assert(ds@.subrange(0, i as int + 1).drop_last() =~= ds@.subrange(0, i as int));
                    let d = ds[i];
                    if d != id {
                        out.push((d, TargetStage::StageEnd));
                    }
                    i = i + 1;
                }
                assert(ds@.subrange(0, ds@.len() as int) =~= ds@);
            }
            out
        },
        TargetStage::StageCustomBuild => {
            let r = vec![(id, TargetStage::StageStart)];
            assert(r@ =~= edges(key, resolve@));
            r
        },
        TargetStage::StageLibraries => {
            let r = vec![(id, TargetStage::StageCustomBuild)];
            assert(r@ =~= edges(key, resolve@));
            r
        },
        TargetStage::StageBinaries => {
            let r = vec![(id, TargetStage::StageLibraries)];
            assert(r@ =~= edges(key, resolve@));
            r
        },
        TargetStage::StageEnd => {
            let r = vec![(id, TargetStage::StageBinaries), (id, TargetStage::StageLibraries)];
            assert(r@ =~= edges(key, resolve@));
            r
        },
    }
}

proof fn lemma_start_edges_members(ds: Seq<usize>, id: usize, k: NodeKey)
    ensures
        start_edges(ds, id).contains(k) <==> (k.0 != id && k.1 == TargetStage::StageEnd
            && ds.contains(k.0)),
    decreases ds.len(),
{
    if ds.len() > 0 {
        lemma_start_edges_members(ds.drop_last(), id, k);
        let rest = start_edges(ds.drop_last(), id);
        if ds.last() != id {
            assert(rest.push((ds.last(), TargetStage::StageEnd)).last() == (ds.last(), TargetStage::StageEnd));
            assert forall|x: NodeKey| rest.push((ds.last(), TargetStage::StageEnd)).contains(x)
                <==> (rest.contains(x) || x == (ds.last(), TargetStage::StageEnd)) by {
                if rest.push((ds.last(), TargetStage::StageEnd)).contains(x) {
                    let j = choose|j: int| 0 <= j < rest.len() + 1 && rest.push((ds.last(), TargetStage::StageEnd))[j] == x;
                    if j < rest.len() {
                        assert(rest[j] == x);
                    }
                }
                if rest.contains(x) {
                    let j = choose|j: int| 0 <= j < rest.len() && rest[j] == x;
                    assert(rest.push((ds.last(), TargetStage::StageEnd))[j] == x);
                }
                if x == (ds.last(), TargetStage::StageEnd) {
                    assert(rest.push((ds.last(), TargetStage::StageEnd))[rest.len() as int] == x);
                }
            }
        }
        assert forall|p: usize| ds.contains(p) <==> (ds.drop_last().contains(p) || p == ds.last()) by {
            if ds.contains(p) {
                let j = choose|j: int| 0 <= j < ds.len() && ds[j] == p;
                if j < ds.len() - 1 {
                    assert(ds.drop_last()[j] == p);
                }
            }
            if ds.drop_last().contains(p) {
                let j = choose|j: int| 0 <= j < ds.len() - 1 && ds.drop_last()[j] == p;
                assert(ds[j] == p);
            }
            if p == ds.last() {
                assert(ds[ds.len() - 1] == p);
            }
        }
    }
}

/// A package's `Start` never waits on a stage of the package itself: every
/// edge it has leads to the `End` of another package it depends on.
pub proof fn lemma_no_self_edge(r: Seq<Seq<usize>>, id: usize, k: NodeKey)
    requires
        edges((id, TargetStage::StageStart), r).contains(k),
    ensures
        k.0 != id,
        k.1 == TargetStage::StageEnd,
        direct_deps(r, id).contains(k.0),
{
    lemma_start_edges_members(direct_deps(r, id), id, k);
}

/// When package `a` directly depends on another package `b`, the `Start` of
/// `a` waits for the `End` of `b`.
pub proof fn lemma_start_waits_for_dependency_end(r: Seq<Seq<usize>>, a: usize, b: usize)
    requires
        direct_deps(r, a).contains(b),
        a != b,
    ensures
        edges((a, TargetStage::StageStart), r).contains((b, TargetStage::StageEnd)),
{
    lemma_start_edges_members(direct_deps(r, a), a, (b, TargetStage::StageEnd));
}

} // verus!
