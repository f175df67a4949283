use vstd::prelude::*;

use crate::freshness::{join, Freshness};
use crate::stage::{dependencies, edges, NodeKey, Resolve};

verus! {

/// Where a node of the queue is in its life.
#[derive(Clone, Copy, Debug, PartialEq, Eq, Structural)]
pub enum NodeState {
    /// Registered, not yet handed out.
    Waiting,
    /// Handed out by `dequeue`, not yet finished.
    Running,
    /// Finished, with the freshness it finished with.
    Done(Freshness),
}

struct QueueNode<V> {
    key: NodeKey,
    deps: Vec<NodeKey>,
    fresh: Freshness,
    state: NodeState,
    value: Option<V>,
}

/// What the queue knows of one node.
pub struct NodeView<V> {
    pub key: NodeKey,
    pub deps: Seq<NodeKey>,
    /// Freshness given at registration, combined over repeated registrations.
    pub fresh: Freshness,
    pub state: NodeState,
    /// The payload; present exactly while the node is waiting.
    pub value: Option<V>,
}

/// A topological work queue over node keys: a node is handed out only once
/// every node it depends on has been finished.
pub struct DependencyQueue<V> {
    nodes: Vec<QueueNode<V>>,
}

impl<V> View for DependencyQueue<V> {
    type V = Seq<NodeView<V>>;

    closed spec fn view(&self) -> Seq<NodeView<V>> {
        self.nodes@.map_values(|n: QueueNode<V>| NodeView {
            key: n.key,
            deps: n.deps@,
            fresh: n.fresh,
            state: n.state,
            value: n.value,
        })
    }
}

/// Keys are unique, and the payload is held exactly while a node waits.
pub open spec fn nodes_wf<V>(nodes: Seq<NodeView<V>>) -> bool {
    &&& forall|i: int, j: int|
        0 <= i < nodes.len() && 0 <= j < nodes.len() && i != j ==> nodes[i].key != nodes[j].key
    &&& forall|i: int|
        0 <= i < nodes.len() ==> (nodes[i].value is Some <==> nodes[i].state == NodeState::Waiting)
}

pub open spec fn has_key<V>(nodes: Seq<NodeView<V>>, k: NodeKey) -> bool {
    exists|i: int| 0 <= i < nodes.len() && nodes[i].key == k
}

pub open spec fn is_done<V>(nodes: Seq<NodeView<V>>, k: NodeKey) -> bool {
    exists|i: int| 0 <= i < nodes.len() && nodes[i].key == k && nodes[i].state is Done
}

pub open spec fn is_running<V>(nodes: Seq<NodeView<V>>, k: NodeKey) -> bool {
    exists|i: int| 0 <= i < nodes.len() && nodes[i].key == k && nodes[i].state == NodeState::Running
}

/// The freshness a finished node finished with (`Fresh` if it has not finished).
pub open spec fn outcome<V>(nodes: Seq<NodeView<V>>, k: NodeKey) -> Freshness {
    if is_done(nodes, k) {
        let i = choose|i: int| 0 <= i < nodes.len() && nodes[i].key == k && nodes[i].state is Done;
        nodes[i].state->Done_0
    } else {
        Freshness::Fresh
    }
}

/// The combined outcome of the listed nodes (`Fresh` for none).
pub open spec fn inflow<V>(nodes: Seq<NodeView<V>>, deps: Seq<NodeKey>) -> Freshness
    decreases deps.len(),
{
    if deps.len() == 0 {
        Freshness::Fresh
    } else {
        join(inflow(nodes, deps.drop_last()), outcome(nodes, deps.last()))
    }
}

pub open spec fn deps_done<V>(nodes: Seq<NodeView<V>>, deps: Seq<NodeKey>) -> bool {
    forall|j: int| 0 <= j < deps.len() ==> is_done(nodes, #[trigger] deps[j])
}

/// Node `i` waits and all of its dependencies have finished.
pub open spec fn ready<V>(nodes: Seq<NodeView<V>>, i: int) -> bool {
    &&& 0 <= i < nodes.len()
    &&& nodes[i].state == NodeState::Waiting
    &&& deps_done(nodes, nodes[i].deps)
}

pub open spec fn is_first_ready<V>(nodes: Seq<NodeView<V>>, i: int) -> bool {
    ready(nodes, i) && forall|j: int| 0 <= j < i ==> !#[trigger] ready(nodes, j)
}

/// The position of the first ready node, or -1 when none is ready.
pub open spec fn first_ready<V>(nodes: Seq<NodeView<V>>) -> int {
    if exists|i: int| is_first_ready(nodes, i) {
        choose|i: int| is_first_ready(nodes, i)
    } else {
        -1
    }
}

/// The freshness a node is handed out with: the combined outcomes of all of
/// its dependencies (`Fresh` when it has none).
pub open spec fn incoming<V>(nodes: Seq<NodeView<V>>, i: int) -> Freshness {
    inflow(nodes, nodes[i].deps)
}

/// The number of nodes that have not finished.
pub open spec fn unfinished<V>(nodes: Seq<NodeView<V>>) -> nat
    decreases nodes.len(),
{
    if nodes.len() == 0 {
        0
    } else {
        unfinished(nodes.drop_last()) + if nodes.last().state is Done {
            0nat
        } else {
            1nat
        }
    }
}

/// The position of the node with key `k`.
pub open spec fn key_pos<V>(nodes: Seq<NodeView<V>>, k: NodeKey) -> int {
    choose|i: int| 0 <= i < nodes.len() && nodes[i].key == k
}

/// The nodes after `finish(k, f)`.
pub open spec fn finished<V>(nodes: Seq<NodeView<V>>, k: NodeKey, f: Freshness) -> Seq<NodeView<V>> {
    let i = key_pos(nodes, k);
    nodes.update(i, NodeView { state: NodeState::Done(f), ..nodes[i] })
}

/// The nodes after `enqueue(resolve, fresh, key, value)`.
pub open spec fn enqueued<V>(
    nodes: Seq<NodeView<V>>,
    r: Seq<Seq<usize>>,
    fresh: Freshness,
    key: NodeKey,
    value: V,
) -> Seq<NodeView<V>> {
    if has_key(nodes, key) {
        let i = key_pos(nodes, key);
        if nodes[i].state == NodeState::Waiting {
            nodes.update(
                i,
                NodeView { fresh: join(nodes[i].fresh, fresh), value: Some(value), ..nodes[i] },
            )
        } else {
            nodes
        }
    } else {
        nodes.push(
            NodeView {
                key,
                deps: edges(key, r),
                fresh,
                state: NodeState::Waiting,
                value: Some(value),
            },
        )
    }
}

proof fn lemma_first_ready_unique<V>(nodes: Seq<NodeView<V>>, i: int)
    requires
        is_first_ready(nodes, i),
    ensures
        first_ready(nodes) == i,
{
    let j = first_ready(nodes);
    assert(is_first_ready(nodes, j));
    if j < i {
        assert(!ready(nodes, j));
    } else if i < j {
        assert(!ready(nodes, i));
    }
}

proof fn lemma_none_ready<V>(nodes: Seq<NodeView<V>>)
    requires
        forall|i: int| 0 <= i < nodes.len() ==> !#[trigger] ready(nodes, i),
    ensures
        first_ready(nodes) == -1,
{
}

proof fn lemma_dirty_inflow<V>(nodes: Seq<NodeView<V>>, deps: Seq<NodeKey>, j: int)
    requires
        0 <= j < deps.len(),
        outcome(nodes, deps[j]) == Freshness::Dirty,
    ensures
        inflow(nodes, deps) == Freshness::Dirty,
    decreases deps.len(),
{
    if j < deps.len() - 1 {
        lemma_dirty_inflow(nodes, deps.drop_last(), j);
    }
}

/// A node one of whose dependencies finished dirty is handed out dirty.
pub proof fn lemma_dirty_dependency_taints<V>(nodes: Seq<NodeView<V>>, i: int, j: int)
    requires
        0 <= i < nodes.len(),
        0 <= j < nodes[i].deps.len(),
        outcome(nodes, nodes[i].deps[j]) == Freshness::Dirty,
    ensures
        incoming(nodes, i) == Freshness::Dirty,
{
    lemma_dirty_inflow(nodes, nodes[i].deps, j);
}

/// Replacing a node by one with the same key changes whether that key is
/// finished, and no other.
pub proof fn lemma_is_done_after_update<V>(nodes: Seq<NodeView<V>>, i: int, n: NodeView<V>, k: NodeKey)
    requires
        nodes_wf(nodes),
        0 <= i < nodes.len(),
        n.key == nodes[i].key,
    ensures
        is_done(nodes.update(i, n), k) == if k == n.key {
            n.state is Done
        } else {
            is_done(nodes, k)
        },
{
    let after = nodes.update(i, n);
    if is_done(after, k) {
        let j = choose|j: int| 0 <= j < after.len() && after[j].key == k && after[j].state is Done;
        if j != i {
            assert(nodes[j] == after[j]);
        }
    }
    if k != n.key && is_done(nodes, k) {
        let j = choose|j: int| 0 <= j < nodes.len() && nodes[j].key == k && nodes[j].state is Done;
        assert(j != i);
        assert(nodes[j] == after[j]);
    }
    if k == n.key && n.state is Done {
        assert(after[i].key == k);
    }
}

/// Replacing a node by one with the same key changes the outcome of that key
/// only.
pub proof fn lemma_outcome_after_update<V>(nodes: Seq<NodeView<V>>, i: int, n: NodeView<V>, k: NodeKey)
    requires
        nodes_wf(nodes),
        0 <= i < nodes.len(),
        n.key == nodes[i].key,
    ensures
        outcome(nodes.update(i, n), k) == if k == n.key {
            match n.state {
                NodeState::Done(f) => f,
                _ => Freshness::Fresh,
            }
        } else {
            outcome(nodes, k)
        },
{
    let after = nodes.update(i, n);
    lemma_is_done_after_update(nodes, i, n, k);
    if is_done(after, k) {
        let j = choose|j: int| 0 <= j < after.len() && after[j].key == k && after[j].state is Done;
        if k == n.key {
            assert(j == i);
        } else {
            assert(j != i);
            let j2 = choose|j2: int| 0 <= j2 < nodes.len() && nodes[j2].key == k && nodes[j2].state is Done;
            assert(j2 == j);
        }
    }
}

/// Same for whether a key is running.
pub proof fn lemma_is_running_after_update<V>(
    nodes: Seq<NodeView<V>>,
    i: int,
    n: NodeView<V>,
    k: NodeKey,
)
    requires
        nodes_wf(nodes),
        0 <= i < nodes.len(),
        n.key == nodes[i].key,
    ensures
        is_running(nodes.update(i, n), k) == if k == n.key {
            n.state == NodeState::Running
        } else {
            is_running(nodes, k)
        },
{
    let after = nodes.update(i, n);
    if is_running(after, k) {
        let j = choose|j: int|
            0 <= j < after.len() && after[j].key == k && after[j].state == NodeState::Running;
        if j != i {
            assert(nodes[j] == after[j]);
        }
    }
    if k != n.key && is_running(nodes, k) {
        let j = choose|j: int|
            0 <= j < nodes.len() && nodes[j].key == k && nodes[j].state == NodeState::Running;
        assert(j != i);
        assert(nodes[j] == after[j]);
    }
    if k == n.key && n.state == NodeState::Running {
        assert(after[i].key == k);
    }
}

/// Registering work never changes which keys are running or finished.
pub proof fn lemma_enqueued_keeps_progress<V>(
    nodes: Seq<NodeView<V>>,
    r: Seq<Seq<usize>>,
    fresh: Freshness,
    key: NodeKey,
    value: V,
    k: NodeKey,
)
    requires
        nodes_wf(nodes),
    ensures
        is_done(enqueued(nodes, r, fresh, key, value), k) == is_done(nodes, k),
        is_running(enqueued(nodes, r, fresh, key, value), k) == is_running(nodes, k),
        outcome(enqueued(nodes, r, fresh, key, value), k) == outcome(nodes, k),
{
    let after = enqueued(nodes, r, fresh, key, value);
    if has_key(nodes, key) {
        let i = key_pos(nodes, key);
        if nodes[i].state == NodeState::Waiting {
            let n = NodeView { fresh: join(nodes[i].fresh, fresh), value: Some(value), ..nodes[i] };
            lemma_is_done_after_update(nodes, i, n, k);
            lemma_is_running_after_update(nodes, i, n, k);
            lemma_is_done_after_update(nodes, i, nodes[i], k);
            lemma_is_running_after_update(nodes, i, nodes[i], k);
            lemma_outcome_after_update(nodes, i, n, k);
            lemma_outcome_after_update(nodes, i, nodes[i], k);
            assert(nodes.update(i, nodes[i]) =~= nodes);
        }
    } else {
        if is_done(after, k) {
            let j = choose|j: int| 0 <= j < after.len() && after[j].key == k && after[j].state is Done;
            assert(j < nodes.len());
            assert(nodes[j] == after[j]);
            let j2 = choose|j2: int| 0 <= j2 < nodes.len() && nodes[j2].key == k && nodes[j2].state is Done;
            assert(after[j2] == nodes[j2]);
        }
        if is_running(after, k) {
            let j = choose|j: int|
                0 <= j < after.len() && after[j].key == k && after[j].state == NodeState::Running;
            assert(j < nodes.len());
            assert(nodes[j] == after[j]);
        }
        if is_done(nodes, k) {
            let j = choose|j: int| 0 <= j < nodes.len() && nodes[j].key == k && nodes[j].state is Done;
            assert(nodes[j] == after[j]);
        }
        if is_running(nodes, k) {
            let j = choose|j: int|
                0 <= j < nodes.len() && nodes[j].key == k && nodes[j].state == NodeState::Running;
            assert(nodes[j] == after[j]);
        }
    }
}

impl<V> DependencyQueue<V> {
    pub open spec fn wf(&self) -> bool {
        nodes_wf(self@)
    }

    pub fn new() -> (q: DependencyQueue<V>)
        ensures
            q.wf(),
            q@ == Seq::<NodeView<V>>::empty(),
    {
        let q = DependencyQueue { nodes: Vec::new() };
        assert(q@ =~= Seq::<NodeView<V>>::empty());
        q
    }

    fn find(&self, key: NodeKey) -> (r: Option<usize>)
        ensures
            match r {
                Some(i) => i < self@.len() && self@[i as int].key == key,
                None => !has_key(self@, key),
            },
    {
        let mut i: usize = 0;
        while i < self.nodes.len()
            invariant
                i <= self@.len(),
                self@.len() == self.nodes@.len(),
                forall|j: int| 0 <= j < i ==> self@[j].key != key,
            decreases self.nodes.len() - i,
        {
            let k = self.nodes[i].key;
            assert(k == self@[i as int].key);
            if k.0 == key.0 && k.1 == key.1 {
                return Some(i);
            }
            i = i + 1;
        }
        None
    }

    /// The outcome of `key` if it has finished.
    fn outcome_of(&self, key: NodeKey) -> (r: Option<Freshness>)
        requires
            self.wf(),
        ensures
            r is Some <==> is_done(self@, key),
            r is Some ==> r->Some_0 == outcome(self@, key),
    {
        match self.find(key) {
            None => None,
            Some(i) => {
                match self.nodes[i].state {
                    NodeState::Done(f) => {
                        assert(self@[i as int].state is Done);
                        let ghost c = choose|c: int|
                            0 <= c < self@.len() && self@[c].key == key && self@[c].state is Done;
                        assert(c == i);
                        Some(f)
                    },
                    _ => {
                        assert(self@[i as int].state !is Done);
                        None
                    },
                }
            },
        }
    }

    /// The incoming freshness of node `i` if all of its dependencies have finished.
    fn ready_at(&self, i: usize) -> (r: Option<Freshness>)
        requires
            self.wf(),
            i < self@.len(),
        ensures
            r is Some <==> ready(self@, i as int),
            r is Some ==> r->Some_0 == incoming(self@, i as int),
    {
        if self.nodes[i].state != NodeState::Waiting {
            return None;
        }
        let deps = &self.nodes[i].deps;
        assert(deps@ == self@[i as int].deps);
        let mut acc = Freshness::Fresh;
        let mut j: usize = 0;
        while j < deps.len()
            invariant
                self.wf(),
                i < self@.len(),
                deps@ == self@[i as int].deps,
                j <= deps@.len(),
                deps_done(self@, deps@.subrange(0, j as int)),
                acc == inflow(self@, deps@.subrange(0, j as int)),
            decreases deps.len() - j,
        {
            assert(deps@.subrange(0, j as int + 1).drop_last() =~= deps@.subrange(0, j as int));
            match self.outcome_of(deps[j]) {
                None => {
                    assert(!deps_done(self@, deps@));
                    return None;
                },
                Some(f) => {
                    acc = acc.combine(f);
                },
            }
            j = j + 1;
            assert(deps_done(self@, deps@.subrange(0, j as int)));
        }
        assert(deps@.subrange(0, deps@.len() as int) =~= deps@);
        Some(acc)
    }

    /// The position and incoming freshness of the first ready node.
    fn first_ready_node(&self) -> (r: Option<(usize, Freshness)>)
        requires
            self.wf(),
        ensures
            match r {
                Some((i, f)) => i == first_ready(self@) && f == incoming(self@, i as int),
                None => first_ready(self@) == -1,
            },
    {
        let mut i: usize = 0;
        while i < self.nodes.len()
            invariant
                self.wf(),
                i <= self@.len(),
                self@.len() == self.nodes@.len(),
                forall|j: int| 0 <= j < i ==> !#[trigger] ready(self@, j),
            decreases self.nodes.len() - i,
        {
            match self.ready_at(i) {
                Some(f) => {
                    assert(is_first_ready(self@, i as int));
                    proof {
                        lemma_first_ready_unique(self@, i as int);
                    }
                    return Some((i, f));
                },
                None => {},
            }
            i = i + 1;
        }
        proof {
            lemma_none_ready(self@);
        }
        None
    }

    /// Registers `key` with payload `value`. A key already waiting keeps its
    /// place: its payload is replaced and its freshness combined with `fresh`.
    /// A key already handed out is left as it is.
    pub fn enqueue(&mut self, resolve: &Resolve, fresh: Freshness, key: NodeKey, value: V)
        requires
            old(self).wf(),
        ensures
            final(self).wf(),
            final(self)@ == enqueued(old(self)@, resolve@, fresh, key, value),
    {
        match self.find(key) {
            Some(i) => {
                let ghost c = choose|c: int| 0 <= c < self@.len() && self@[c].key == key;
                assert(c == i);
                if self.nodes[i].state == NodeState::Waiting {
                    let old_node = self.nodes.remove(i);
                    let node = QueueNode {
                        key: old_node.key,
                        deps: old_node.deps,
                        fresh: old_node.fresh.combine(fresh),
                        state: old_node.state,
                        value: Some(value),
                    };
                    self.nodes.insert(i, node);
                    assert(self@ =~= enqueued(old(self)@, resolve@, fresh, key, value));
                }
            },
            None => {
                let deps = dependencies(key, resolve);
                self.nodes.push(
                    QueueNode { key, deps, fresh, state: NodeState::Waiting, value: Some(value) },
                );
                assert(self@ =~= enqueued(old(self)@, resolve@, fresh, key, value));
            },
        }
    }

    /// The payload of the node that `dequeue` would hand out next.
    pub fn peek(&self) -> (r: Option<&V>)
        requires
            self.wf(),
        ensures
            first_ready(self@) == -1 ==> r is None,
            first_ready(self@) != -1 ==> r is Some && self@[first_ready(self@)].value
                == Some(*r->Some_0),
    {
        match self.first_ready_node() {
            None => None,
            Some((i, _)) => {
                assert(self@[i as int].value is Some);
                match &self.nodes[i].value {
                    Some(v) => Some(v),
                    None => None,
                }
            },
        }
    }

    /// Hands out the first node all of whose dependencies have finished, with
    /// its incoming freshness, and marks it running. `None` when no node is ready.
    pub fn dequeue(&mut self) -> (r: Option<(Freshness, NodeKey, V)>)
        requires
            old(self).wf(),
        ensures
            final(self).wf(),
            ({
                let i = first_ready(old(self)@);
                let n = old(self)@[i];
                match r {
                    None => i == -1 && final(self)@ == old(self)@,
                    Some((f, k, v)) => {
                        &&& i != -1
                        &&& ready(old(self)@, i)
                        &&& k == n.key
                        &&& n.value == Some(v)
                        &&& f == incoming(old(self)@, i)
                        &&& final(self)@ == old(self)@.update(
                            i,
                            NodeView { state: NodeState::Running, value: None, ..n },
                        )
                    },
                }
            }),
    {
        match self.first_ready_node() {
            None => None,
            Some((i, f)) => {
                let old_node = self.nodes.remove(i);
                let v = match old_node.value {
                    Some(v) => v,
                    None => {
                        assert(false);
                        return None;
                    },
                };
                let key = old_node.key;
                let node = QueueNode {
                    key,
                    deps: old_node.deps,
                    fresh: old_node.fresh,
                    state: NodeState::Running,
                    value: None,
                };
                self.nodes.insert(i, node);
                let ghost n = old(self)@[i as int];
                assert(self@ =~= old(self)@.update(
                    i as int,
                    NodeView { state: NodeState::Running, value: None, ..n },
                ));
                Some((f, key, v))
            },
        }
    }

    /// Marks the running node `key` finished with freshness `fresh`.
    pub fn finish(&mut self, key: NodeKey, fresh: Freshness)
        requires
            old(self).wf(),
            is_running(old(self)@, key),
        ensures
            final(self).wf(),
            final(self)@ == finished(old(self)@, key, fresh),
    {
        match self.find(key) {
            None => {},
            Some(i) => {
                let ghost c = choose|c: int|
                    0 <= c < self@.len() && self@[c].key == key && self@[c].state
                        == NodeState::Running;
                assert(c == i);
                assert(key_pos(self@, key) == i);
                let old_node = self.nodes.remove(i);
                let node = QueueNode {
                    key: old_node.key,
                    deps: old_node.deps,
                    fresh: old_node.fresh,
                    state: NodeState::Done(fresh),
                    value: old_node.value,
                };
                self.nodes.insert(i, node);
                let ghost n = old(self)@[i as int];
                assert(self@ =~= old(self)@.update(
                    i as int,
                    NodeView { state: NodeState::Done(fresh), ..n },
                ));
            },
        }
    }

    /// The number of nodes that have not finished.
    pub fn len(&self) -> (n: usize)
        ensures
            n == unfinished(self@),
    {
        let mut n: usize = 0;
        let mut i: usize = 0;
        while i < self.nodes.len()
            invariant
                i <= self@.len(),
                self@.len() == self.nodes@.len(),
                n == unfinished(self@.subrange(0, i as int)),
                n <= i,
            decreases self.nodes.len() - i,
        {
            assert(self@.subrange(0, i as int + 1).drop_last() =~= self@.subrange(0, i as int));
            match self.nodes[i].state {
                NodeState::Done(_) => {},
                _ => {
                    n = n + 1;
                },
            }
            i = i + 1;
        }
        assert(self@.subrange(0, self@.len() as int) =~= self@);
        n
    }
}

} // verus!
