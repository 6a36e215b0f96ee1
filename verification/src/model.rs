//! The mathematical model of the reactive graph: what every contract of the
//! runtime is stated over.
//!
//! Nodes and scopes are numbered in the order of their creation. A node may
//! only read nodes that were created before it, so the graph has no cycles
//! and every walk along its edges ends.

use vstd::prelude::*;
use crate::value::ValueView;

verus! {

/// The three kinds of reactive node.
#[derive(Clone, Copy, Debug, PartialEq, Eq, Structural)]
pub enum Kind {
    /// A cell that is written from outside.
    Signal,
    /// A cached computation, recomputed when it is next read.
    Memo,
    /// A computation that is re-run as soon as something it read changes.
    Effect,
}

/// How far a memo or an effect can be trusted.
#[derive(Clone, Copy, Debug, PartialEq, Eq, Structural)]
pub enum Status {
    /// Its value agrees with everything it last read.
    Clean,
    /// Something upstream was invalidated; its own reads may still be unchanged.
    Check,
    /// Something it read was written: it has to run again.
    Dirty,
}

/// One scope of the ownership tree.
#[derive(Clone, Copy, Debug, PartialEq, Eq, Structural)]
pub struct ScopeState {
    /// The scope under which this one was created, if any.
    pub parent: Option<usize>,
    /// Whether the scope has been disposed.
    pub disposed: bool,
}

/// One node of the graph.
pub struct NodeState {
    pub kind: Kind,
    /// The scope that owns the node.
    pub scope: usize,
    /// False once the owning scope has been disposed.
    pub alive: bool,
    /// For a signal: whether every write notifies, even one of an equal value.
    pub always: bool,
    /// The current value of a signal, the cache of a memo, the last output of an effect.
    pub value: ValueView,
    pub status: Status,
    /// The nodes read during the most recent run, each once, in the order of the first read.
    pub sources: Seq<usize>,
    /// The value that each source had when it was read.
    pub seen: Seq<ValueView>,
    /// How many times the computation of the node has run.
    pub runs: nat,
}

/// The whole graph.
pub struct Model {
    pub scopes: Seq<ScopeState>,
    pub nodes: Seq<NodeState>,
}

impl NodeState {
    /// The same node with another status.
    pub open spec fn with_status(self, status: Status) -> NodeState {
        NodeState { status, ..self }
    }

    /// The same node with another value.
    pub open spec fn with_value(self, value: ValueView) -> NodeState {
        NodeState { value, ..self }
    }

    /// The node after a run that read `sources`, saw `seen` and produced `value`.
    pub open spec fn ran(self, value: ValueView, sources: Seq<usize>, seen: Seq<ValueView>) -> NodeState {
        NodeState { value, sources, seen, status: Status::Clean, runs: self.runs + 1, ..self }
    }

    /// The node once its scope is disposed: inert, with no edge left.
    pub open spec fn retired(self) -> NodeState {
        NodeState { alive: false, sources: Seq::empty(), seen: Seq::empty(), status: Status::Clean, ..self }
    }

    /// A node as it is created.
    pub open spec fn fresh(kind: Kind, scope: usize, always: bool, value: ValueView, status: Status) -> NodeState {
        NodeState {
            kind,
            scope,
            alive: true,
            always,
            value,
            status,
            sources: Seq::empty(),
            seen: Seq::empty(),
            runs: 0,
        }
    }
}

impl Model {
    /// The graph with node `i` replaced.
    pub open spec fn with_node(self, i: int, n: NodeState) -> Model {
        Model { scopes: self.scopes, nodes: self.nodes.update(i, n) }
    }

    /// The graph with one more node.
    pub open spec fn add_node(self, n: NodeState) -> Model {
        Model { scopes: self.scopes, nodes: self.nodes.push(n) }
    }

    /// The graph with one more scope.
    pub open spec fn add_scope(self, c: ScopeState) -> Model {
        Model { scopes: self.scopes.push(c), nodes: self.nodes }
    }

    /// The graph with scope `c` marked as disposed.
    pub open spec fn close_scope(self, c: int) -> Model {
        Model {
            scopes: self.scopes.update(c, ScopeState { disposed: true, ..self.scopes[c] }),
            nodes: self.nodes,
        }
    }

    /// The shape that every graph has: owners exist, edges point backwards,
    /// nothing is read twice, only memos and effects carry edges or a status,
    /// a signal never runs, and a live memo or effect that need not run has run.
    pub open spec fn structured(self) -> bool {
        &&& forall|c: int| 0 <= c < self.scopes.len() ==> #[trigger] self.scope_ok(c)
        &&& forall|i: int| 0 <= i < self.nodes.len() ==> #[trigger] self.node_ok(i)
    }

    pub open spec fn scope_ok(self, c: int) -> bool {
        self.scopes[c].parent matches Some(p) ==> {
            &&& p < c
            &&& self.scopes[p as int].disposed ==> self.scopes[c].disposed
        }
    }

    pub open spec fn node_ok(self, i: int) -> bool {
        let n = self.nodes[i];
        &&& n.scope < self.scopes.len()
        &&& n.alive ==> !self.scopes[n.scope as int].disposed
        &&& n.sources.len() == n.seen.len()
        &&& n.sources.no_duplicates()
        &&& forall|k: int| 0 <= k < n.sources.len() ==> #[trigger] self.edge_ok(i, n.sources[k])
        &&& (n.kind == Kind::Signal || !n.alive) ==> n.sources.len() == 0 && n.status == Status::Clean
        &&& n.kind == Kind::Signal ==> n.runs == 0
        &&& n.kind != Kind::Signal && n.alive && n.status != Status::Dirty ==> n.runs > 0
    }

    /// An edge from reader `i` to source `src` is in order: the source is
    /// older than the reader and is no effect.
    pub open spec fn edge_ok(self, i: int, src: usize) -> bool {
        &&& src < i
        &&& self.nodes[src as int].kind != Kind::Effect
    }

    /// Node `i` agrees with what it last read: each source is clean and still
    /// holds the value that `i` saw.
    pub open spec fn consistent(self, i: int) -> bool {
        let n = self.nodes[i];
        forall|k: int| 0 <= k < n.sources.len() ==> #[trigger] self.agrees(i, k)
    }

    pub open spec fn agrees(self, i: int, k: int) -> bool {
        let n = self.nodes[i];
        let src = self.nodes[n.sources[k] as int];
        &&& src.status == Status::Clean
        &&& src.value == n.seen[k]
    }

    /// Every clean node is consistent.
    pub open spec fn coherent(self) -> bool {
        forall|i: int| 0 <= i < self.nodes.len() && #[trigger] self.nodes[i].status == Status::Clean
            ==> self.consistent(i)
    }

    /// No effect is waiting to run.
    pub open spec fn settled(self) -> bool {
        forall|i: int| 0 <= i < self.nodes.len() && #[trigger] self.nodes[i].kind == Kind::Effect
            ==> self.nodes[i].status == Status::Clean
    }

    /// What holds of the graph at every moment.
    pub open spec fn wf(self) -> bool {
        self.structured() && self.coherent()
    }

    /// What holds of the graph between two operations of the runtime.
    pub open spec fn at_rest(self) -> bool {
        self.wf() && self.settled()
    }

    /// Whether node `j` reads node `s`, directly or through other nodes.
    pub open spec fn depends_on(self, j: int, s: int) -> bool
        decreases j,
    {
        &&& 0 <= j < self.nodes.len()
        &&& exists|k: int|
            0 <= k < self.nodes[j].sources.len() && {
                let src = #[trigger] self.nodes[j].sources[k];
                src == s || (src < j && self.depends_on(src as int, s))
            }
    }

    /// Whether source `k` of node `j` is `s` or depends on `s`.
    pub open spec fn reaches(self, j: int, k: int, s: int) -> bool {
        let src = self.nodes[j].sources[k];
        src == s || (src < j && self.depends_on(src as int, s))
    }

    /// Whether scope `c` is `root` or lies below it.
    pub open spec fn within(self, c: int, root: int) -> bool
        decreases c,
    {
        if c == root {
            true
        } else if 0 <= c < self.scopes.len() {
            match self.scopes[c].parent {
                Some(p) => p < c && self.within(p as int, root),
                None => false,
            }
        } else {
            false
        }
    }

    /// The status of node `j` once signal `s` has been written: a direct
    /// reader has to run again, every other node that depends on `s` has to
    /// be checked, the rest is as it was.
    pub open spec fn invalidated(self, j: int, s: int) -> Status {
        let n = self.nodes[j];
        if n.status == Status::Dirty || n.sources.contains(s as usize) {
            Status::Dirty
        } else if n.status == Status::Check || self.depends_on(j, s) {
            Status::Check
        } else {
            Status::Clean
        }
    }

    /// The graph once `v` has been stored in signal `s` and everything that
    /// depends on `s` has been invalidated, before anything runs.
    pub open spec fn written(self, s: int, v: ValueView) -> Model {
        Model {
            scopes: self.scopes,
            nodes: Seq::new(
                self.nodes.len(),
                |j: int|
                    if j == s {
                        self.nodes[j].with_value(v)
                    } else {
                        self.nodes[j].with_status(self.invalidated(j, s))
                    },
            ),
        }
    }

    /// The graph once scope `root` has been disposed: the scope and every
    /// scope below it are closed, and every node they own is retired.
    pub open spec fn disposed(self, root: int) -> Model {
        Model {
            scopes: Seq::new(
                self.scopes.len(),
                |c: int|
                    if self.within(c, root) {
                        ScopeState { disposed: true, ..self.scopes[c] }
                    } else {
                        self.scopes[c]
                    },
            ),
            nodes: Seq::new(
                self.nodes.len(),
                |i: int|
                    if self.nodes[i].alive && self.within(self.nodes[i].scope as int, root) {
                        self.nodes[i].retired()
                    } else {
                        self.nodes[i]
                    },
            ),
        }
    }

    /// Whether `c` names a scope in which nodes can still be created.
    pub open spec fn scope_live(self, c: int) -> bool {
        0 <= c < self.scopes.len() && !self.scopes[c].disposed
    }

    /// Whether `i` names a node of kind `kind` that has not been disposed.
    pub open spec fn node_live(self, i: int, kind: Kind) -> bool {
        0 <= i < self.nodes.len() && self.nodes[i].kind == kind && self.nodes[i].alive
    }

    /// The readers of node `s`: the nodes that have `s` among their sources.
    pub open spec fn subscribers(self, s: int) -> Set<int> {
        Set::new(|j: int| 0 <= j < self.nodes.len() && self.nodes[j].sources.contains(s as usize))
    }
}

/// Why a node ran between `a` and `b`: it had been invalidated directly, or
/// one of the nodes it had read holds, clean, another value than it saw.
pub open spec fn stale(a: Model, b: Model, i: int) -> bool {
    ||| a.nodes[i].status == Status::Dirty
    ||| exists|k: int| 0 <= k < a.nodes[i].sources.len() && #[trigger] differs(a, b, i, k)
}

pub open spec fn differs(a: Model, b: Model, i: int, k: int) -> bool {
    let src = b.nodes[a.nodes[i].sources[k] as int];
    src.status == Status::Clean && src.value != a.nodes[i].seen[k]
}

/// What an evaluation may do to node `i`: nothing, or bring it from an
/// invalidated state to a clean one. A node that was to be checked and whose
/// sources all hold what it saw becomes clean without running; any other
/// runs, once.
pub open spec fn step(a: Model, b: Model, i: int) -> bool {
    let x = a.nodes[i];
    let y = b.nodes[i];
    ||| y == x
    ||| {
        &&& x.alive && y.alive
        &&& x.status != Status::Clean
        &&& y.status == Status::Clean
        &&& y.kind == x.kind
        &&& y.scope == x.scope
        &&& y.always == x.always
        &&& if y.runs == x.runs {
            x.status == Status::Check && y.value == x.value && y.sources == x.sources && y.seen == x.seen
        } else {
            y.runs == x.runs + 1 && stale(a, b, i)
        }
    }
}

/// `b` comes from `a` by evaluation alone: by refreshing invalidated nodes.
pub open spec fn evolves(a: Model, b: Model) -> bool {
    &&& b.scopes == a.scopes
    &&& b.nodes.len() == a.nodes.len()
    &&& forall|i: int| 0 <= i < a.nodes.len() ==> #[trigger] step(a, b, i)
}

/// `a` and `b` have the same scopes and the same nodes, each of the kind,
/// in the scope and as alive as before.
pub open spec fn same_frame(a: Model, b: Model) -> bool {
    &&& b.scopes == a.scopes
    &&& b.nodes.len() == a.nodes.len()
    &&& forall|i: int|
        0 <= i < a.nodes.len() ==> {
            let y = #[trigger] b.nodes[i];
            let x = a.nodes[i];
            y.kind == x.kind && y.scope == x.scope && y.alive == x.alive && y.always == x.always
        }
}

/// Every signal but `s`, and every disposed node, is in `b` as it is in `a`.
pub open spec fn signals_kept(a: Model, b: Model, s: int) -> bool {
    &&& b.nodes.len() == a.nodes.len()
    &&& forall|i: int|
        0 <= i < a.nodes.len() && i != s && (a.nodes[i].kind == Kind::Signal || !a.nodes[i].alive) ==> #[trigger] b.nodes[i]
            == a.nodes[i]
}

/// Two states of a node that hold the result of the same run.
pub open spec fn same_run(x: NodeState, y: NodeState) -> bool {
    y.value == x.value && y.sources == x.sources && y.seen == x.seen && y.runs == x.runs
}

/// Node `j` is in the older graph `g` of the kind it has in `m`, and alive
/// there if it is alive in `m`.
pub open spec fn kept_alive(m: Model, g: Model, j: int) -> bool {
    g.nodes[j].kind == m.nodes[j].kind && (m.nodes[j].alive ==> g.nodes[j].alive)
}

/// Source `k` of node `i` of `m` held in `g` the value that the node saw.
pub open spec fn recalled(m: Model, i: int, g: Model, k: int) -> bool {
    let src = m.nodes[i].sources[k] as int;
    src < g.nodes.len() && g.nodes[src].value == m.nodes[i].seen[k]
}

/// `g` is a graph on which node `i` of `m` can have run last: every node
/// that it read held in `g` the value it saw, and every node of `g` is of
/// the same kind in `m` and was alive if it still is.
pub open spec fn remembered(m: Model, i: int, g: Model) -> bool {
    &&& 0 <= i < g.nodes.len() <= m.nodes.len()
    &&& forall|k: int| 0 <= k < m.nodes[i].sources.len() ==> #[trigger] recalled(m, i, g, k)
    &&& forall|j: int| 0 <= j < g.nodes.len() ==> #[trigger] kept_alive(m, g, j)
}

/// `b` is a later graph than `a`: it has the nodes of `a`, each of its kind
/// and alive in `a` if it is alive in `b`.
pub open spec fn outlives(a: Model, b: Model) -> bool {
    &&& a.nodes.len() <= b.nodes.len()
    &&& forall|j: int| 0 <= j < a.nodes.len() ==> #[trigger] kept_alive(b, a, j)
}

/// What `backs` tells of node `j` between graphs `a` and `b`: if the node
/// ran, its value is backed in `b`; if it holds the result of the same run,
/// it is backed in `b` as it was in `a`.
pub open spec fn tracked_by(backs: spec_fn(int, Model) -> bool, a: Model, b: Model, j: int) -> bool {
    &&& b.nodes[j].runs != a.nodes[j].runs ==> backs(j, b)
    &&& same_run(a.nodes[j], b.nodes[j]) && backs(j, a) ==> backs(j, b)
}

/// `tracked_by` of every node.
pub open spec fn tracks_by(backs: spec_fn(int, Model) -> bool, a: Model, b: Model) -> bool {
    forall|j: int| 0 <= j < a.nodes.len() ==> #[trigger] tracked_by(backs, a, b, j)
}

/// Tracking composes along evaluation.
pub proof fn lemma_tracks_chain(backs: spec_fn(int, Model) -> bool, a: Model, b: Model, c: Model)
    requires
        evolves(a, b),
        evolves(b, c),
        tracks_by(backs, a, b),
        tracks_by(backs, b, c),
    ensures
        tracks_by(backs, a, c),
{
    assert forall|j: int| 0 <= j < a.nodes.len() implies #[trigger] tracked_by(backs, a, c, j) by {
        assert(step(a, b, j));
        assert(step(b, c, j));
        assert(tracked_by(backs, a, b, j));
        assert(tracked_by(backs, b, c, j));
    }
}

/// Tracking holds between a graph and itself.
pub proof fn lemma_tracks_self(backs: spec_fn(int, Model) -> bool, a: Model)
    ensures
        tracks_by(backs, a, a),
{
    assert forall|j: int| 0 <= j < a.nodes.len() implies #[trigger] tracked_by(backs, a, a, j) by {}
}

/// The nodes from `bound` on are the same in `a` and `b`.
pub open spec fn untouched_from(a: Model, b: Model, bound: int) -> bool {
    &&& b.nodes.len() == a.nodes.len()
    &&& forall|i: int| bound <= i < a.nodes.len() ==> #[trigger] b.nodes[i] == a.nodes[i]
}

/// Evaluation composes: whatever a first evaluation refreshed, a second one
/// leaves alone. So however many reads follow one write, and along however
/// many paths a node depends on what was written, it runs at most once.
pub proof fn lemma_evolves_transitive(a: Model, b: Model, c: Model)
    requires
        a.structured(),
        evolves(a, b),
        evolves(b, c),
    ensures
        evolves(a, c),
{
    assert forall|i: int| 0 <= i < a.nodes.len() implies #[trigger] step(a, c, i) by {
        assert(step(a, b, i));
        assert(step(b, c, i));
        let x = a.nodes[i];
        let y = b.nodes[i];
        let z = c.nodes[i];
        if y == x {
            if z != y && z.runs != y.runs {
                assert(stale(b, c, i));
                if b.nodes[i].status != Status::Dirty {
                    let k = choose|k: int| 0 <= k < y.sources.len() && #[trigger] differs(b, c, i, k);
                    assert(differs(a, c, i, k));
                }
            }
        } else {
            assert(z == y);
            if y.runs != x.runs {
                if x.status != Status::Dirty {
                    let k = choose|k: int| 0 <= k < x.sources.len() && #[trigger] differs(a, b, i, k);
                    let src = x.sources[k] as int;
                    assert(a.node_ok(i));
                    assert(a.edge_ok(i, x.sources[k]));
                    assert(step(b, c, src));
                    assert(differs(a, c, i, k));
                }
            }
        }
    }
}

/// Bringing one invalidated node up to date keeps the graph well formed:
/// the node becomes clean, has run, and each of its sources is an older
/// node, no effect, clean, and holds the value that the node saw.
pub proof fn lemma_refreshed(a: Model, b: Model, k: int)
    requires
        a.wf(),
        0 <= k < a.nodes.len(),
        a.nodes[k].status != Status::Clean,
        b.scopes == a.scopes,
        b.nodes.len() == a.nodes.len(),
        forall|i: int| 0 <= i < a.nodes.len() && i != k ==> #[trigger] b.nodes[i] == a.nodes[i],
        b.nodes[k].kind == a.nodes[k].kind,
        b.nodes[k].scope == a.nodes[k].scope,
        b.nodes[k].alive == a.nodes[k].alive,
        b.nodes[k].status == Status::Clean,
        b.nodes[k].runs > 0,
        b.nodes[k].sources.len() == b.nodes[k].seen.len(),
        b.nodes[k].sources.no_duplicates(),
        forall|x: int|
            0 <= x < b.nodes[k].sources.len() ==> {
                let src = #[trigger] b.nodes[k].sources[x];
                &&& src < k
                &&& a.nodes[src as int].kind != Kind::Effect
                &&& a.nodes[src as int].status == Status::Clean
                &&& a.nodes[src as int].value == b.nodes[k].seen[x]
            },
    ensures
        b.wf(),
{
    assert(a.node_ok(k));
    assert forall|c: int| 0 <= c < b.scopes.len() implies #[trigger] b.scope_ok(c) by {
        assert(a.scope_ok(c));
    }
    assert forall|i: int| 0 <= i < b.nodes.len() implies #[trigger] b.node_ok(i) by {
        assert(a.node_ok(i));
        assert forall|x: int| 0 <= x < b.nodes[i].sources.len() implies #[trigger] b.edge_ok(
            i,
            b.nodes[i].sources[x],
        ) by {
            if i != k {
                assert(a.edge_ok(i, a.nodes[i].sources[x]));
            }
        }
    }
    assert forall|i: int|
        0 <= i < b.nodes.len() && #[trigger] b.nodes[i].status == Status::Clean implies b.consistent(i) by {
        if i != k {
            assert(a.consistent(i));
            assert(a.node_ok(i));
        }
        assert forall|x: int| 0 <= x < b.nodes[i].sources.len() implies #[trigger] b.agrees(i, x) by {
            if i != k {
                assert(a.agrees(i, x));
                assert(a.edge_ok(i, a.nodes[i].sources[x]));
            }
        }
    }
}

/// Evaluation relates every graph to itself.
pub proof fn lemma_evolves_reflexive(a: Model)
    ensures
        evolves(a, a),
{
    assert forall|i: int| 0 <= i < a.nodes.len() implies #[trigger] step(a, a, i) by {}
}

/// Evaluation changes no scope, no signal and no disposed node, and leaves
/// every node of its kind, in its scope and alive.
pub proof fn lemma_evolves_frame(a: Model, b: Model)
    requires
        a.structured(),
        evolves(a, b),
    ensures
        same_frame(a, b),
        signals_kept(a, b, -1),
{
    assert forall|i: int| 0 <= i < a.nodes.len() implies {
        let y = #[trigger] b.nodes[i];
        let x = a.nodes[i];
        y.kind == x.kind && y.scope == x.scope && y.alive == x.alive && y.always == x.always
    } by {
        assert(step(a, b, i));
    }
    assert forall|i: int|
        0 <= i < a.nodes.len() && i != -1 && (a.nodes[i].kind == Kind::Signal
            || !a.nodes[i].alive) implies #[trigger] b.nodes[i] == a.nodes[i] by {
        assert(step(a, b, i));
        assert(a.node_ok(i));
    }
}

/// A write changes no scope and, but for the value of the signal, no signal
/// and no disposed node, and leaves every node of its kind, in its scope and
/// alive.
pub proof fn lemma_written_frame(a: Model, s: int, v: ValueView)
    requires
        a.structured(),
        0 <= s < a.nodes.len(),
        s <= usize::MAX,
    ensures
        same_frame(a, a.written(s, v)),
        signals_kept(a, a.written(s, v), s),
        a.written(s, v).nodes[s] == a.nodes[s].with_value(v),
{
    let w = a.written(s, v);
    assert forall|i: int|
        0 <= i < a.nodes.len() && i != s && (a.nodes[i].kind == Kind::Signal
            || !a.nodes[i].alive) implies #[trigger] w.nodes[i] == a.nodes[i] by {
        lemma_invalidated_same(a, i, s);
    }
}

/// Evaluation keeps a settled graph settled.
pub proof fn lemma_evolves_settled(a: Model, b: Model)
    requires
        a.settled(),
        evolves(a, b),
    ensures
        b.settled(),
{
    assert forall|i: int|
        0 <= i < b.nodes.len() && #[trigger] b.nodes[i].kind == Kind::Effect implies b.nodes[i].status
        == Status::Clean by {
        assert(step(a, b, i));
    }
}

/// A new scope under a live parent, or under none, keeps the graph in order.
pub proof fn lemma_add_scope(m: Model, c: ScopeState)
    requires
        m.wf(),
        !c.disposed,
        c.parent matches Some(p) ==> m.scope_live(p as int),
    ensures
        m.add_scope(c).wf(),
        m.settled() ==> m.add_scope(c).settled(),
{
    let b = m.add_scope(c);
    assert forall|k: int| 0 <= k < b.scopes.len() implies #[trigger] b.scope_ok(k) by {
        if k < m.scopes.len() {
            assert(m.scope_ok(k));
        }
    }
    assert forall|i: int| 0 <= i < b.nodes.len() implies #[trigger] b.node_ok(i) by {
        assert(m.node_ok(i));
        assert forall|k: int| 0 <= k < b.nodes[i].sources.len() implies #[trigger] b.edge_ok(
            i,
            b.nodes[i].sources[k],
        ) by {
            assert(m.edge_ok(i, m.nodes[i].sources[k]));
        }
    }
    assert forall|i: int|
        0 <= i < b.nodes.len() && #[trigger] b.nodes[i].status == Status::Clean implies b.consistent(i) by {
        assert(m.consistent(i));
        assert forall|k: int| 0 <= k < b.nodes[i].sources.len() implies #[trigger] b.agrees(i, k) by {
            assert(m.agrees(i, k));
        }
    }
}

/// A new node without edges in a live scope keeps the graph in order.
pub proof fn lemma_add_node(m: Model, n: NodeState)
    requires
        m.wf(),
        m.scope_live(n.scope as int),
        n.alive,
        n.sources.len() == 0,
        n.seen.len() == 0,
        n.kind == Kind::Signal ==> n.status == Status::Clean && n.runs == 0,
        n.kind != Kind::Signal ==> n.status == Status::Dirty,
    ensures
        m.add_node(n).wf(),
        m.settled() && (n.kind == Kind::Effect ==> n.status == Status::Clean) ==> m.add_node(n).settled(),
{
    let b = m.add_node(n);
    assert forall|k: int| 0 <= k < b.scopes.len() implies #[trigger] b.scope_ok(k) by {
        assert(m.scope_ok(k));
    }
    assert forall|i: int| 0 <= i < b.nodes.len() implies #[trigger] b.node_ok(i) by {
        if i < m.nodes.len() {
            assert(m.node_ok(i));
            assert forall|k: int| 0 <= k < b.nodes[i].sources.len() implies #[trigger] b.edge_ok(
                i,
                b.nodes[i].sources[k],
            ) by {
                assert(m.edge_ok(i, m.nodes[i].sources[k]));
            }
        }
    }
    assert forall|i: int|
        0 <= i < b.nodes.len() && #[trigger] b.nodes[i].status == Status::Clean implies b.consistent(i) by {
        if i < m.nodes.len() {
            assert(m.consistent(i));
            assert(m.node_ok(i));
            assert forall|k: int| 0 <= k < b.nodes[i].sources.len() implies #[trigger] b.agrees(i, k) by {
                assert(m.agrees(i, k));
                assert(m.edge_ok(i, m.nodes[i].sources[k]));
            }
        }
    }
}


/// The edge through which a node depends on another.
pub proof fn lemma_depends_witness(m: Model, j: int, s: int) -> (k: int)
    requires
        m.depends_on(j, s),
    ensures
        0 <= j < m.nodes.len(),
        0 <= k < m.nodes[j].sources.len(),
        m.reaches(j, k, s),
{
    choose|k: int|
        0 <= k < m.nodes[j].sources.len() && {
            let src = #[trigger] m.nodes[j].sources[k];
            src == s || (src < j && m.depends_on(src as int, s))
        }
}

/// A node depends only on nodes that are older than it.
pub proof fn lemma_depends_older(m: Model, j: int, s: int)
    requires
        m.structured(),
        m.depends_on(j, s),
    ensures
        s < j,
        0 <= j < m.nodes.len(),
    decreases j,
{
    let k = lemma_depends_witness(m, j, s);
    assert(m.node_ok(j));
    assert(m.edge_ok(j, m.nodes[j].sources[k]));
    let src = m.nodes[j].sources[k] as int;
    if src != s {
        lemma_depends_older(m, src, s);
    }
}

/// A direct reader depends on what it reads.
pub proof fn lemma_reader_depends(m: Model, j: int, s: int)
    requires
        0 <= j < m.nodes.len(),
        0 <= s,
        m.nodes[j].sources.contains(s as usize),
        s <= usize::MAX,
    ensures
        m.depends_on(j, s),
{
    let k = choose|k: int| 0 <= k < m.nodes[j].sources.len() && m.nodes[j].sources[k] == s as usize;
    assert(m.reaches(j, k, s));
}

/// A write to `s` leaves the status of every node that is not younger than
/// `s`, of every signal and of every disposed node as it was.
pub proof fn lemma_invalidated_same(m: Model, j: int, s: int)
    requires
        m.structured(),
        0 <= j < m.nodes.len(),
        0 <= s <= usize::MAX,
        j <= s || m.nodes[j].kind == Kind::Signal || !m.nodes[j].alive,
    ensures
        m.invalidated(j, s) == m.nodes[j].status,
{
    assert(m.node_ok(j));
    if m.nodes[j].sources.contains(s as usize) {
        lemma_reader_depends(m, j, s);
    }
    if m.depends_on(j, s) {
        lemma_depends_older(m, j, s);
        let k = lemma_depends_witness(m, j, s);
    }
}

/// Whether node `j` has a source that is not clean.
pub open spec fn unsettled_source(m: Model, j: int) -> bool {
    exists|k: int| 0 <= k < m.nodes[j].sources.len() && #[trigger] unsettled_at(m, j, k)
}

pub open spec fn unsettled_at(m: Model, j: int, k: int) -> bool {
    m.nodes[m.nodes[j].sources[k] as int].status != Status::Clean
}

/// Invalidation can be decided node by node, in the order of creation: a
/// clean node that does not read `s` itself depends on `s` exactly when, once
/// the older nodes are invalidated, one of its sources is not clean.
pub proof fn lemma_invalidated_local(a: Model, w: Model, j: int, s: int)
    requires
        a.wf(),
        0 <= s < j < a.nodes.len(),
        s <= usize::MAX,
        a.nodes[s].kind == Kind::Signal,
        a.nodes[j].status == Status::Clean,
        !a.nodes[j].sources.contains(s as usize),
        w.nodes.len() == a.nodes.len(),
        w.nodes[j].sources == a.nodes[j].sources,
        forall|i: int| 0 <= i < j && i != s ==> (#[trigger] w.nodes[i]).status == a.invalidated(i, s),
    ensures
        a.depends_on(j, s) <==> unsettled_source(w, j),
{
    assert(a.node_ok(j));
    assert(a.consistent(j));
    if a.depends_on(j, s) {
        let k = lemma_depends_witness(a, j, s);
        let src = a.nodes[j].sources[k] as int;
        assert(a.edge_ok(j, a.nodes[j].sources[k]));
        assert(a.nodes[j].sources.contains(a.nodes[j].sources[k]));
        assert(src != s);
        assert(w.nodes[src].status == a.invalidated(src, s));
        assert(unsettled_at(w, j, k));
    }
    if unsettled_source(w, j) {
        let k = choose|k: int| 0 <= k < w.nodes[j].sources.len() && #[trigger] unsettled_at(w, j, k);
        let src = a.nodes[j].sources[k] as int;
        assert(a.edge_ok(j, a.nodes[j].sources[k]));
        assert(a.nodes[j].sources.contains(a.nodes[j].sources[k]));
        assert(src != s);
        assert(a.agrees(j, k));
        assert(w.nodes[src].status == a.invalidated(src, s));
        if a.nodes[src].sources.contains(s as usize) {
            lemma_reader_depends(a, src, s);
        }
        assert(a.depends_on(src, s));
        assert(a.reaches(j, k, s));
    }
}

/// A write leaves the graph well formed, and leaves every effect that is not
/// younger than the signal clean.
pub proof fn lemma_written_wf(a: Model, s: int, v: ValueView)
    requires
        a.at_rest(),
        a.node_live(s, Kind::Signal),
        s <= usize::MAX,
    ensures
        a.written(s, v).wf(),
        a.written(s, v).scopes == a.scopes,
        a.written(s, v).nodes.len() == a.nodes.len(),
        forall|i: int| 0 <= i <= s && (#[trigger] a.nodes[i]).kind == Kind::Effect ==> a.written(s, v).nodes[i].status
            == Status::Clean,
{
    let w = a.written(s, v);
    assert(a.node_ok(s));
    assert forall|c: int| 0 <= c < w.scopes.len() implies #[trigger] w.scope_ok(c) by {
        assert(a.scope_ok(c));
    }
    assert forall|i: int| 0 <= i < w.nodes.len() implies #[trigger] w.node_ok(i) by {
        assert(a.node_ok(i));
        if i != s {
            if a.nodes[i].kind == Kind::Signal || !a.nodes[i].alive {
                lemma_invalidated_same(a, i, s);
            }
        }
        assert forall|k: int| 0 <= k < w.nodes[i].sources.len() implies #[trigger] w.edge_ok(
            i,
            w.nodes[i].sources[k],
        ) by {
            assert(a.edge_ok(i, a.nodes[i].sources[k]));
        }
    }
    assert forall|i: int|
        0 <= i < w.nodes.len() && #[trigger] w.nodes[i].status == Status::Clean implies w.consistent(i) by {
        if i != s {
            assert(a.node_ok(i));
            assert(a.nodes[i].status == Status::Clean);
            assert(a.consistent(i));
            assert forall|k: int| 0 <= k < w.nodes[i].sources.len() implies #[trigger] w.agrees(i, k) by {
                let src = a.nodes[i].sources[k] as int;
                assert(a.agrees(i, k));
                assert(a.edge_ok(i, a.nodes[i].sources[k]));
                assert(a.nodes[i].sources.contains(a.nodes[i].sources[k]));
                assert(src != s);
                if a.nodes[src].sources.contains(s as usize) {
                    lemma_reader_depends(a, src, s);
                }
                if a.depends_on(src, s) {
                    assert(a.reaches(i, k, s));
                    assert(a.depends_on(i, s));
                }
                assert(a.invalidated(src, s) == Status::Clean);
            }
        }
    }
    assert forall|i: int| 0 <= i <= s && (#[trigger] a.nodes[i]).kind == Kind::Effect implies w.nodes[i].status
        == Status::Clean by {
        lemma_invalidated_same(a, i, s);
    }
}

/// A scope below `root`, other than `root`, is younger than `root`.
pub proof fn lemma_within_younger(m: Model, c: int, root: int)
    requires
        m.within(c, root),
        c != root,
    ensures
        root < c,
        0 <= c < m.scopes.len(),
    decreases c,
{
    match m.scopes[c].parent {
        Some(p) => {
            if p as int != root {
                lemma_within_younger(m, p as int, root);
            }
        },
        None => {},
    }
}

/// Disposal leaves the graph in order.
pub proof fn lemma_disposed_wf(a: Model, root: int)
    requires
        a.at_rest(),
    ensures
        a.disposed(root).at_rest(),
{
    let d = a.disposed(root);
    assert forall|c: int| 0 <= c < d.scopes.len() implies #[trigger] d.scope_ok(c) by {
        assert(a.scope_ok(c));
    }
    assert forall|i: int| 0 <= i < d.nodes.len() implies #[trigger] d.node_ok(i) by {
        assert(a.node_ok(i));
        assert forall|k: int| 0 <= k < d.nodes[i].sources.len() implies #[trigger] d.edge_ok(
            i,
            d.nodes[i].sources[k],
        ) by {
            assert(a.edge_ok(i, a.nodes[i].sources[k]));
        }
    }
    assert forall|i: int|
        0 <= i < d.nodes.len() && #[trigger] d.nodes[i].status == Status::Clean implies d.consistent(i) by {
        assert(a.node_ok(i));
        if d.nodes[i] == a.nodes[i] {
            assert(a.consistent(i));
            assert forall|k: int| 0 <= k < d.nodes[i].sources.len() implies #[trigger] d.agrees(i, k) by {
                assert(a.agrees(i, k));
                assert(a.edge_ok(i, a.nodes[i].sources[k]));
            }
        }
    }
    assert forall|i: int|
        0 <= i < d.nodes.len() && #[trigger] d.nodes[i].kind == Kind::Effect implies d.nodes[i].status
        == Status::Clean by {
        assert(a.nodes[i].kind == Kind::Effect);
    }
}

} // verus!
