//! The reactive runtime: scopes, signals, memos and effects, and the
//! operations on them.
//!
//! The runtime owns the whole graph and is handed to every operation: there
//! is no ambient state. Handles are plain indices; an operation on a handle
//! that names nothing, or something disposed, is refused with an error and
//! leaves the graph as it was.

use vstd::prelude::*;
use crate::value::{Value, ValueView};
use crate::model::{
    Kind, Status, ScopeState, NodeState, Model, evolves, step, unsettled_source, unsettled_at,
    lemma_evolves_reflexive, lemma_evolves_settled, lemma_evolves_transitive, lemma_add_scope,
    lemma_add_node, lemma_invalidated_same, lemma_invalidated_local, lemma_written_wf,
    lemma_within_younger, lemma_disposed_wf, same_frame, signals_kept, lemma_evolves_frame,
    lemma_written_frame, same_run, outlives, kept_alive, remembered, tracks_by, tracked_by,
    lemma_tracks_chain, lemma_tracks_self,
};
use crate::graph::Core;
use crate::table::Table;
use crate::tracking::{Computation, Held, ReactiveError, Resolver, Tracker, covers, noted};

verus! {

/// A scope of the ownership tree.
#[derive(Clone, Copy, Debug, PartialEq, Eq, Structural)]
pub struct Scope {
    pub id: usize,
}

/// A signal: a cell that is written from outside.
#[derive(Clone, Copy, Debug, PartialEq, Eq, Structural)]
pub struct Signal {
    pub id: usize,
}

/// A memo: a cached computation.
#[derive(Clone, Copy, Debug, PartialEq, Eq, Structural)]
pub struct Memo {
    pub id: usize,
}

/// An effect: a computation that is kept up to date.
#[derive(Clone, Copy, Debug, PartialEq, Eq, Structural)]
pub struct Effect {
    pub id: usize,
}

/// When a write to a signal notifies its readers.
#[derive(Clone, Copy, Debug, PartialEq, Eq, Structural)]
pub enum Notify {
    /// On every write.
    Always,
    /// Only when the value written differs from the one stored.
    OnChange,
}

/// The error that an operation on scope `c` ends in when `c` is not live.
pub open spec fn scope_fault(m: Model, c: int) -> ReactiveError {
    if 0 <= c < m.scopes.len() {
        ReactiveError::Disposed
    } else {
        ReactiveError::Invalid
    }
}

/// The error that an operation on node `i` ends in when `i` is no live node
/// of kind `kind`.
pub open spec fn node_fault(m: Model, i: int, kind: Kind) -> ReactiveError {
    if 0 <= i < m.nodes.len() && m.nodes[i].kind == kind {
        ReactiveError::Disposed
    } else {
        ReactiveError::Invalid
    }
}

/// Whether a computation that runs as node `current` can read node `i` as
/// a node of kind `kind`.
pub open spec fn in_reach(m: Model, i: usize, kind: Kind, current: int) -> bool {
    m.node_live(i as int, kind) && i < current
}

/// What a computation that runs as node `current` gets from node `i`, read
/// as a node of kind `kind`: its value, or `Absent` where it cannot be read.
pub open spec fn value_in_reach(m: Model, i: usize, kind: Kind, current: int) -> ValueView {
    if in_reach(m, i, kind, current) {
        m.nodes[i as int].value
    } else {
        ValueView::Absent
    }
}

/// Every node but `except` has in `b` the body that it has in `a`.
pub open spec fn same_bodies(a: &Runtime, b: &Runtime, except: int) -> bool {
    forall|i: int, g: Model, reads: Seq<usize>, out: ValueView|
        i != except ==> #[trigger] b.computes(i, g, reads, out) == a.computes(i, g, reads, out)
}

/// The error that a read of node `i` as a node of kind `kind`, by a
/// computation that runs as node `current`, ends in when the node is not in
/// reach: `Disposed` for an older node of that kind, `Invalid` for anything
/// else.
pub open spec fn reach_fault(m: Model, i: usize, kind: Kind, current: int) -> ReactiveError {
    if i < m.nodes.len() && m.nodes[i as int].kind == kind && i < current {
        ReactiveError::Disposed
    } else {
        ReactiveError::Invalid
    }
}

/// Whether storing `v` in signal `s` notifies the readers of `s`.
pub open spec fn notifies(m: Model, s: int, v: ValueView) -> bool {
    m.nodes[s].always || m.nodes[s].value != v
}

/// Invalidates what depends on signal `s`, whose new value is already
/// stored: one pass over the younger nodes, in the order of creation.
fn invalidate(core: &mut Core, s: usize, Ghost(a): Ghost<Model>, Ghost(v): Ghost<ValueView>)
    requires
        a.at_rest(),
        a.node_live(s as int, Kind::Signal),
        old(core)@ == a.with_node(s as int, a.nodes[s as int].with_value(v)),
    ensures
        final(core)@ == a.written(s as int, v),
{
    let n = core.node_count();
    let ghost w = a.written(s as int, v);
    proof {
        assert forall|i: int| 0 <= i < s + 1 implies #[trigger] core@.nodes[i] == w.nodes[i] by {
            if i < s {
                lemma_invalidated_same(a, i, s as int);
            }
        }
    }
    let mut j: usize = s + 1;
    while j < n
        invariant
            a.at_rest(),
            a.node_live(s as int, Kind::Signal),
            w == a.written(s as int, v),
            s < j <= n,
            n == a.nodes.len(),
            core@.scopes == a.scopes,
            core@.nodes.len() == n,
            forall|i: int| 0 <= i < j ==> #[trigger] core@.nodes[i] == w.nodes[i],
            forall|i: int| j <= i < n ==> #[trigger] core@.nodes[i] == a.nodes[i],
        decreases n - j,
    {
        let status = core.status(j);
        let m = core.source_count(j);
        let mut hit = false;
        let mut soft = false;
        let mut k: usize = 0;
        proof {
            assert(core@.nodes[j as int] == a.nodes[j as int]);
            assert(a.node_ok(j as int));
        }
        while k < m
            invariant
                a.structured(),
                k <= m,
                j < n,
                n == a.nodes.len(),
                core@.nodes.len() == n,
                m == a.nodes[j as int].sources.len(),
                core@.nodes[j as int] == a.nodes[j as int],
                hit <==> exists|x: int| 0 <= x < k && #[trigger] a.nodes[j as int].sources[x] == s,
                soft <==> exists|x: int| 0 <= x < k && #[trigger] unsettled_at(core@, j as int, x),
            decreases m - k,
        {
            let src = core.source(j, k);
            proof {
                assert(a.node_ok(j as int));
                assert(a.edge_ok(j as int, a.nodes[j as int].sources[k as int]));
            }
            if src == s {
                hit = true;
            }
            if core.status(src) != Status::Clean {
                soft = true;
                proof {
                    assert(unsettled_at(core@, j as int, k as int));
                }
            }
            k += 1;
        }
        let next = if status == Status::Dirty || hit {
            Status::Dirty
        } else if status == Status::Check || soft {
            Status::Check
        } else {
            Status::Clean
        };
        proof {
            let srcs = a.nodes[j as int].sources;
            if hit {
                let x = choose|x: int| 0 <= x < m && #[trigger] srcs[x] == s;
                assert(srcs.contains(s));
            }
            if srcs.contains(s) {
                assert(hit);
            }
            assert(soft <==> unsettled_source(core@, j as int));
            if status == Status::Clean && !hit {
                lemma_invalidated_local(a, core@, j as int, s as int);
            }
            assert(next == a.invalidated(j as int, s as int));
        }
        core.set_status(j, next);
        j += 1;
    }
    proof {
        assert(core@.nodes =~= w.nodes);
    }
}

/// Brings every invalidated effect that is younger than `s` up to date, in
/// the order of creation.
fn flush(core: &mut Core, table: &Table, s: usize, Ghost(w): Ghost<Model>)
    requires
        old(core)@ == w,
        w.wf(),
        s < w.nodes.len(),
        forall|i: int| 0 <= i <= s && (#[trigger] w.nodes[i]).kind == Kind::Effect ==> w.nodes[i].status
            == Status::Clean,
    ensures
        final(core)@.at_rest(),
        evolves(w, final(core)@),
        tracks_by(|j: int, m: Model| table.backs(j, m), w, final(core)@),
{
    let n = core.node_count();
    let mut j: usize = s + 1;
    let ghost backs = |j: int, m: Model| table.backs(j, m);
    proof {
        lemma_evolves_reflexive(w);
        lemma_tracks_self(backs, w);
    }
    while j < n
        invariant
            w.wf(),
            core@.wf(),
            evolves(w, core@),
            backs == (|j: int, m: Model| table.backs(j, m)),
            tracks_by(backs, w, core@),
            s < j <= n,
            n == core@.nodes.len(),
            forall|i: int| 0 <= i < j && (#[trigger] core@.nodes[i]).kind == Kind::Effect ==> core@.nodes[i].status
                == Status::Clean,
        decreases n - j,
    {
        if core.kind(j) == Kind::Effect && core.status(j) != Status::Clean {
            let ghost before = core@;
            table.resolve(core, j);
            proof {
                lemma_tracks_chain(backs, w, before, core@);
                lemma_evolves_transitive(w, before, core@);
                assert forall|i: int| 0 <= i < j + 1 && (#[trigger] core@.nodes[i]).kind
                    == Kind::Effect implies core@.nodes[i].status == Status::Clean by {
                    assert(step(before, core@, i));
                }
            }
        }
        j += 1;
    }
}

/// Closes `root` and every scope below it: one pass over the younger scopes.
fn close_subtree(core: &mut Core, root: usize, Ghost(a): Ghost<Model>)
    requires
        old(core)@ == a,
        a.structured(),
        root < a.scopes.len(),
    ensures
        final(core)@.nodes == a.nodes,
        final(core)@.scopes == a.disposed(root as int).scopes,
{
    let n = core.scope_count();
    let ghost d = a.disposed(root as int);
    let mut c: usize = root;
    proof {
        assert forall|i: int| 0 <= i < root implies #[trigger] core@.scopes[i] == d.scopes[i] by {
            if a.within(i, root as int) {
                lemma_within_younger(a, i, root as int);
            }
        }
    }
    while c < n
        invariant
            a.structured(),
            d == a.disposed(root as int),
            root <= c <= n,
            n == a.scopes.len(),
            core@.nodes == a.nodes,
            core@.scopes.len() == n,
            forall|i: int| 0 <= i < c ==> #[trigger] core@.scopes[i] == d.scopes[i],
            forall|i: int| c <= i < n ==> #[trigger] core@.scopes[i] == a.scopes[i],
        decreases n - c,
    {
        let here = core.scope_state(c);
        proof {
            assert(a.scope_ok(c as int));
        }
        let close = if c == root {
            true
        } else {
            match here.parent {
                Some(p) => p < c && core.scope_state(p).disposed,
                None => false,
            }
        };
        if close {
            core.close_scope(c);
        }
        c += 1;
    }
    proof {
        assert(core@.scopes =~= d.scopes);
    }
}

/// Retires every live node whose scope is closed, and drops its computation.
fn retire_closed(core: &mut Core, table: &mut Table, root: usize, Ghost(a): Ghost<Model>)
    requires
        a.structured(),
        root < a.scopes.len(),
        old(core)@.nodes == a.nodes,
        old(core)@.scopes == a.disposed(root as int).scopes,
    ensures
        final(core)@ == a.disposed(root as int),
        final(table).len() == old(table).len(),
        forall|i: int, g: Model, reads: Seq<usize>, out: ValueView|
            0 <= i < a.nodes.len() && a.disposed(root as int).nodes[i].alive ==> #[trigger] final(table).supports(
                i,
                g,
                reads,
                out,
            ) == old(table).supports(i, g, reads, out),
{
    let n = core.node_count();
    let ghost d = a.disposed(root as int);
    let mut i: usize = 0;
    while i < n
        invariant
            a.structured(),
            d == a.disposed(root as int),
            i <= n,
            n == a.nodes.len(),
            core@.scopes == d.scopes,
            core@.nodes.len() == n,
            table.len() == old(table).len(),
            forall|x: int, g: Model, reads: Seq<usize>, out: ValueView|
                0 <= x < n && d.nodes[x].alive ==> #[trigger] table.supports(x, g, reads, out) == old(
                    table,
                ).supports(x, g, reads, out),
            forall|x: int| 0 <= x < i ==> #[trigger] core@.nodes[x] == d.nodes[x],
            forall|x: int| i <= x < n ==> #[trigger] core@.nodes[x] == a.nodes[x],
        decreases n - i,
    {
        proof {
            assert(a.node_ok(i as int));
        }
        if core.alive(i) && core.scope_state(core.owner(i)).disposed {
            core.retire(i);
            table.clear(i);
        }
        i += 1;
    }
    proof {
        assert(core@.nodes =~= d.nodes);
    }
}

/// A graph with the same nodes, or with more, is a later graph.
pub(crate) proof fn lemma_later(a: Model, b: Model)
    requires
        a.nodes.len() <= b.nodes.len(),
        forall|i: int| 0 <= i < a.nodes.len() ==> {
            &&& (#[trigger] b.nodes[i]).kind == a.nodes[i].kind
            &&& b.nodes[i].alive ==> a.nodes[i].alive
        },
    ensures
        outlives(a, b),
{
    assert forall|j: int| 0 <= j < a.nodes.len() implies #[trigger] kept_alive(b, a, j) by {
        assert(b.nodes[j].kind == a.nodes[j].kind);
    }
}

/// Every live node that has run holds a value that its body yields.
pub(crate) open spec fn grounded(table: &Table, m: Model) -> bool {
    forall|i: int| 0 <= i < m.nodes.len() && (#[trigger] m.nodes[i]).alive && m.nodes[i].runs > 0 ==> table.backs(i, m)
}

/// What is backed stays backed in a later graph in which every live node
/// that has run holds the result of the same run.
pub(crate) proof fn lemma_carry(table: &Table, a: Model, b: Model)
    requires
        grounded(table, a),
        outlives(a, b),
        forall|i: int|
            0 <= i < a.nodes.len() && (#[trigger] b.nodes[i]).alive && b.nodes[i].runs > 0 ==> same_run(
                a.nodes[i],
                b.nodes[i],
            ),
        forall|i: int| a.nodes.len() <= i < b.nodes.len() ==> (#[trigger] b.nodes[i]).runs == 0,
    ensures
        grounded(table, b),
{
    assert forall|i: int|
        0 <= i < b.nodes.len() && (#[trigger] b.nodes[i]).alive && b.nodes[i].runs > 0 implies table.backs(i, b) by {
        assert(kept_alive(b, a, i));
        assert(a.nodes[i].alive);
        table.lemma_stable(i, a, b);
    }
}

/// What is backed stays backed along an evaluation that tracks its runs.
pub(crate) proof fn lemma_settle(table: &Table, a: Model, b: Model)
    requires
        grounded(table, a),
        evolves(a, b),
        tracks_by(|j: int, m: Model| table.backs(j, m), a, b),
    ensures
        grounded(table, b),
{
    let backs = |j: int, m: Model| table.backs(j, m);
    assert forall|i: int|
        0 <= i < b.nodes.len() && (#[trigger] b.nodes[i]).alive && b.nodes[i].runs > 0 implies table.backs(i, b) by {
        assert(step(a, b, i));
        assert(tracked_by(backs, a, b, i));
    }
}

/// What one table backs, another backs that holds the same bodies for the
/// live nodes that have run.
pub(crate) proof fn lemma_swap(t1: &Table, t2: &Table, m: Model)
    requires
        grounded(t1, m),
        forall|i: int, g: Model, reads: Seq<usize>, out: ValueView|
            0 <= i < m.nodes.len() && m.nodes[i].alive && m.nodes[i].runs > 0 ==> #[trigger] t2.supports(
                i,
                g,
                reads,
                out,
            ) == t1.supports(i, g, reads, out),
    ensures
        grounded(t2, m),
{
    assert forall|i: int|
        0 <= i < m.nodes.len() && (#[trigger] m.nodes[i]).alive && m.nodes[i].runs > 0 implies t2.backs(i, m) by {
        let g = choose|g: Model| #[trigger] t1.recalls(i, m, g);
        assert(t2.supports(i, g, m.nodes[i].sources, m.nodes[i].value) == t1.supports(
            i,
            g,
            m.nodes[i].sources,
            m.nodes[i].value,
        ));
        assert(t2.recalls(i, m, g));
    }
}

/// The reactive graph and the computations of its nodes.
pub struct Runtime {
    core: Core,
    table: Table,
}

impl View for Runtime {
    type V = Model;

    closed spec fn view(&self) -> Model {
        self.core@
    }
}

impl Runtime {
    /// The runtime is in order: the graph is well formed and no effect is
    /// waiting to run.
    pub closed spec fn wf(&self) -> bool {
        &&& self.core@.at_rest()
        &&& self.table.len() == self.core@.nodes.len()
        &&& grounded(&self.table, self.core@)
    }

    /// Whether the body of node `i`, run on graph `g` with `reads`
    /// recorded, can return `out`. A node without a body yields `Absent`.
    pub closed spec fn computes(&self, i: int, g: Model, reads: Seq<usize>, out: ValueView) -> bool {
        self.table.supports(i, g, reads, out)
    }

    /// Whether the value that node `i` has in `m` is one that its body
    /// yields: on some graph that held, for every node that `i` read, the
    /// value that `i` saw, with the sources that `i` has.
    pub closed spec fn backs(&self, i: int, m: Model) -> bool {
        self.table.backs(i, m)
    }

    /// What a runtime in order says of its graph: it is at rest, and the
    /// value of every live node that has run is one that its body yields.
    pub proof fn lemma_wf(&self)
        requires
            self.wf(),
        ensures
            self@.at_rest(),
            forall|i: int|
                0 <= i < self@.nodes.len() && (#[trigger] self@.nodes[i]).alive && self@.nodes[i].runs > 0
                    ==> self.backs(i, self@),
    {
    }

    /// The value of a clean node is current: it is one that the body of
    /// the node yields, with the sources that the node has, on a graph that
    /// holds for every one of these sources the value that the source holds
    /// now. So what a memo returns after a write is computed from what was
    /// written, never from what was there before.
    pub proof fn lemma_current(&self, i: int) -> (g: Model)
        requires
            self.wf(),
            0 <= i < self@.nodes.len(),
            self@.nodes[i].alive,
            self@.nodes[i].kind != Kind::Signal,
            self@.nodes[i].status == Status::Clean,
        ensures
            self.computes(i, g, self@.nodes[i].sources, self@.nodes[i].value),
            remembered(self@, i, g),
            forall|k: int|
                0 <= k < self@.nodes[i].sources.len() ==> g.nodes[(#[trigger] self@.nodes[i].sources[k]) as int].value
                    == self@.nodes[self@.nodes[i].sources[k] as int].value,
    {
        let m = self@;
        assert(m.node_ok(i));
        assert(m.consistent(i));
        let g = self.lemma_backs(i, m);
        assert forall|k: int| 0 <= k < m.nodes[i].sources.len() implies g.nodes[(#[trigger] m.nodes[i].sources[k]) as int].value
            == m.nodes[m.nodes[i].sources[k] as int].value by {
            assert(crate::model::recalled(m, i, g, k));
            assert(m.agrees(i, k));
        }
        g
    }

    /// What it is for a value to be backed.
    pub proof fn lemma_backs(&self, i: int, m: Model) -> (g: Model)
        requires
            self.backs(i, m),
        ensures
            self.computes(i, g, m.nodes[i].sources, m.nodes[i].value),
            remembered(m, i, g),
    {
        choose|g: Model| #[trigger] self.table.recalls(i, m, g)
    }

    /// An empty runtime.
    pub fn new() -> (rt: Runtime)
        ensures
            rt.wf(),
            rt@.nodes.len() == 0,
            rt@.scopes.len() == 0,
    {
        Runtime { core: Core::new(), table: Table::new() }
    }

    /// Creates a scope at the root of the ownership tree.
    pub fn create_scope(&mut self) -> (scope: Scope)
        requires
            old(self).wf(),
        ensures
            final(self).wf(),
            scope.id == old(self)@.scopes.len(),
            final(self)@ == old(self)@.add_scope(ScopeState { parent: None, disposed: false }),
            same_bodies(old(self), final(self), -1),
    {
        proof {
            lemma_add_scope(self.core@, ScopeState { parent: None, disposed: false });
        }
        let id = self.core.push_scope(None);
        proof {
            lemma_later(old(self).core@, self.core@);
            lemma_carry(&self.table, old(self).core@, self.core@);
        }
        Scope { id }
    }

    fn scope_check(&self, c: usize) -> (r: Result<(), ReactiveError>)
        ensures
            match r {
                Ok(_) => self@.scope_live(c as int),
                Err(e) => !self@.scope_live(c as int) && e == scope_fault(self@, c as int),
            },
    {
        if c >= self.core.scope_count() {
            Err(ReactiveError::Invalid)
        } else if self.core.scope_state(c).disposed {
            Err(ReactiveError::Disposed)
        } else {
            Ok(())
        }
    }

    fn node_check(&self, i: usize, kind: Kind) -> (r: Result<(), ReactiveError>)
        ensures
            match r {
                Ok(_) => self@.node_live(i as int, kind),
                Err(e) => !self@.node_live(i as int, kind) && e == node_fault(self@, i as int, kind),
            },
    {
        if i >= self.core.node_count() {
            Err(ReactiveError::Invalid)
        } else if self.core.kind(i) != kind {
            Err(ReactiveError::Invalid)
        } else if !self.core.alive(i) {
            Err(ReactiveError::Disposed)
        } else {
            Ok(())
        }
    }

    /// Creates a signal in `scope`, holding `value`. Creation in a disposed
    /// scope is refused.
    pub fn create_signal(&mut self, scope: Scope, value: Value, notify: Notify) -> (r: Result<
        Signal,
        ReactiveError,
    >)
        requires
            old(self).wf(),
        ensures
            final(self).wf(),
            match r {
                Ok(s) => {
                    &&& old(self)@.scope_live(scope.id as int)
                    &&& same_bodies(old(self), final(self), -1)
                    &&& s.id == old(self)@.nodes.len()
                    &&& final(self)@ == old(self)@.add_node(
                        NodeState::fresh(
                            Kind::Signal,
                            scope.id,
                            notify == Notify::Always,
                            value@,
                            Status::Clean,
                        ),
                    )
                },
                Err(e) => {
                    &&& !old(self)@.scope_live(scope.id as int)
                    &&& e == scope_fault(old(self)@, scope.id as int)
                    &&& final(self)@ == old(self)@
                },
            },
    {
        match self.scope_check(scope.id) {
            Err(e) => Err(e),
            Ok(_) => {
                let always = notify == Notify::Always;
                proof {
                    lemma_add_node(
                        self.core@,
                        NodeState::fresh(Kind::Signal, scope.id, always, value@, Status::Clean),
                    );
                }
                let id = self.core.push_node(Kind::Signal, scope.id, always, value, Status::Clean);
                self.table.push(None);
                proof {
                    lemma_later(old(self).core@, self.core@);
                    lemma_carry(&old(self).table, old(self).core@, self.core@);
                    lemma_swap(&old(self).table, &self.table, self.core@);
                }
                Ok(Signal { id })
            },
        }
    }

    /// Creates a memo in `scope`. Its computation does not run before the
    /// memo is first read.
    pub fn create_memo<B: Computation + 'static>(&mut self, scope: Scope, body: B) -> (r: Result<
        Memo,
        ReactiveError,
    >)
        requires
            old(self).wf(),
        ensures
            final(self).wf(),
            match r {
                Ok(m) => {
                    &&& old(self)@.scope_live(scope.id as int)
                    &&& same_bodies(old(self), final(self), m.id as int)
                    &&& forall|g: Model, reads: Seq<usize>, out: ValueView| #[trigger]
                        final(self).computes(m.id as int, g, reads, out) == body.yields(g, m.id as int, Seq::empty(), reads, out)
                    &&& m.id == old(self)@.nodes.len()
                    &&& final(self)@ == old(self)@.add_node(
                        NodeState::fresh(Kind::Memo, scope.id, false, Value::Absent@, Status::Dirty),
                    )
                },
                Err(e) => {
                    &&& !old(self)@.scope_live(scope.id as int)
                    &&& e == scope_fault(old(self)@, scope.id as int)
                    &&& final(self)@ == old(self)@
                },
            },
    {
        match self.scope_check(scope.id) {
            Err(e) => Err(e),
            Ok(_) => {
                proof {
                    lemma_add_node(
                        self.core@,
                        NodeState::fresh(Kind::Memo, scope.id, false, Value::Absent@, Status::Dirty),
                    );
                }
                let id = self.core.push_node(Kind::Memo, scope.id, false, Value::Absent, Status::Dirty);
                self.table.push(Some(Box::new(Held { body })));
                proof {
                    lemma_later(old(self).core@, self.core@);
                    lemma_carry(&old(self).table, old(self).core@, self.core@);
                    lemma_swap(&old(self).table, &self.table, self.core@);
                }
                Ok(Memo { id })
            },
        }
    }

    /// Creates an effect in `scope` and runs it once, at once, which
    /// establishes what it depends on.
    pub fn create_effect<B: Computation + 'static>(&mut self, scope: Scope, body: B) -> (r: Result<
        Effect,
        ReactiveError,
    >)
        requires
            old(self).wf(),
        ensures
            final(self).wf(),
            match r {
                Ok(e) => {
                    &&& old(self)@.scope_live(scope.id as int)
                    &&& same_bodies(old(self), final(self), e.id as int)
                    &&& forall|g: Model, reads: Seq<usize>, out: ValueView| #[trigger]
                        final(self).computes(e.id as int, g, reads, out) == body.yields(g, e.id as int, Seq::empty(), reads, out)
                    &&& final(self).backs(e.id as int, final(self)@)
                    &&& same_frame(
                        old(self)@.add_node(
                            NodeState::fresh(Kind::Effect, scope.id, false, Value::Absent@, Status::Dirty),
                        ),
                        final(self)@,
                    )
                    &&& signals_kept(
                        old(self)@.add_node(
                            NodeState::fresh(Kind::Effect, scope.id, false, Value::Absent@, Status::Dirty),
                        ),
                        final(self)@,
                        -1,
                    )
                    &&& e.id == old(self)@.nodes.len()
                    &&& evolves(
                        old(self)@.add_node(
                            NodeState::fresh(Kind::Effect, scope.id, false, Value::Absent@, Status::Dirty),
                        ),
                        final(self)@,
                    )
                    &&& final(self)@.nodes[e.id as int].runs == 1
                },
                Err(e) => {
                    &&& !old(self)@.scope_live(scope.id as int)
                    &&& e == scope_fault(old(self)@, scope.id as int)
                    &&& final(self)@ == old(self)@
                },
            },
    {
        match self.scope_check(scope.id) {
            Err(e) => Err(e),
            Ok(_) => {
                let ghost fresh = NodeState::fresh(Kind::Effect, scope.id, false, Value::Absent@, Status::Dirty);
                proof {
                    lemma_add_node(self.core@, fresh);
                }
                let id = self.core.push_node(Kind::Effect, scope.id, false, Value::Absent, Status::Dirty);
                self.table.push(Some(Box::new(Held { body })));
                let ghost mid = self.core@;
                proof {
                    lemma_later(old(self).core@, mid);
                    lemma_carry(&old(self).table, old(self).core@, mid);
                    lemma_swap(&old(self).table, &self.table, mid);
                }
                self.table.resolve(&mut self.core, id);
                proof {
                    lemma_settle(&self.table, mid, self.core@);
                    lemma_evolves_frame(mid, self.core@);
                    assert(step(mid, self.core@, id as int));
                    assert forall|i: int|
                        0 <= i < self.core@.nodes.len() && #[trigger] self.core@.nodes[i].kind
                            == Kind::Effect implies self.core@.nodes[i].status == Status::Clean by {
                        assert(step(mid, self.core@, i));
                    }
                }
                Ok(Effect { id })
            },
        }
    }

    /// Runs `body` once against the graph, outside any node: what it reads
    /// is brought up to date, and nothing subscribes. The result is what the
    /// body yields as a reader that is younger than every node.
    pub fn observe(&mut self, body: &dyn Computation) -> (out: Value)
        requires
            old(self).wf(),
        ensures
            final(self).wf(),
            evolves(old(self)@, final(self)@),
            same_frame(old(self)@, final(self)@),
            signals_kept(old(self)@, final(self)@, -1),
            exists|reads: Seq<usize>| #[trigger]
                body.yields(final(self)@, final(self)@.nodes.len() as int, Seq::empty(), reads, out@),
            same_bodies(old(self), final(self), -1),
    {
        let n = self.core.node_count();
        let core = self.core.take();
        let mut cx = Tracker::begin(core, &self.table, n);
        let ghost origin = cx.origin();
        proof {
            assert(cx.reads() =~= Seq::<usize>::empty());
        }
        let out = body.compute(&mut cx);
        proof {
            cx.lemma_wf();
            lemma_evolves_settled(old(self)@, cx@);
            lemma_evolves_frame(old(self)@, cx@);
            let backs = |j: int, m: Model| self.table.backs(j, m);
            assert forall|j: int| 0 <= j < old(self)@.nodes.len() implies #[trigger] tracked_by(
                backs,
                old(self)@,
                cx@,
                j,
            ) by {
                assert(tracked_by(origin.backs, old(self)@, cx@, j));
                assert((origin.backs)(j, cx@) == self.table.backs(j, cx@));
                assert((origin.backs)(j, old(self)@) == self.table.backs(j, old(self)@));
            }
            lemma_settle(&self.table, old(self)@, cx@);
            assert(body.yields(cx@, n as int, Seq::empty(), cx.reads(), out@));
        }
        let (core, _reads, _seen) = cx.finish();
        self.core = core;
        out
    }
}

impl Scope {
    /// Creates a scope under this one. Creation under a disposed scope is
    /// refused.
    pub fn create_child(self, rt: &mut Runtime) -> (r: Result<Scope, ReactiveError>)
        requires
            old(rt).wf(),
        ensures
            final(rt).wf(),
            same_bodies(old(rt), final(rt), -1),
            match r {
                Ok(child) => {
                    &&& old(rt)@.scope_live(self.id as int)
                    &&& child.id == old(rt)@.scopes.len()
                    &&& final(rt)@ == old(rt)@.add_scope(
                        ScopeState { parent: Some(self.id), disposed: false },
                    )
                },
                Err(e) => {
                    &&& !old(rt)@.scope_live(self.id as int)
                    &&& e == scope_fault(old(rt)@, self.id as int)
                    &&& final(rt)@ == old(rt)@
                },
            },
    {
        match rt.scope_check(self.id) {
            Err(e) => Err(e),
            Ok(_) => {
                proof {
                    lemma_add_scope(rt.core@, ScopeState { parent: Some(self.id), disposed: false });
                }
                let id = rt.core.push_scope(Some(self.id));
                proof {
                    lemma_later(old(rt).core@, rt.core@);
                    lemma_carry(&rt.table, old(rt).core@, rt.core@);
                }
                Ok(Scope { id })
            },
        }
    }
}

impl Scope {
    /// Disposes this scope with every scope below it and every node they
    /// own: the nodes become inert and lose their edges, so nothing notifies
    /// them again. Disposing twice changes nothing more; a handle that names
    /// no scope changes nothing.
    pub fn dispose(self, rt: &mut Runtime)
        requires
            old(rt).wf(),
        ensures
            final(rt).wf(),
            final(rt)@ == if self.id < old(rt)@.scopes.len() {
                old(rt)@.disposed(self.id as int)
            } else {
                old(rt)@
            },
            forall|i: int, g: Model, reads: Seq<usize>, out: ValueView|
                0 <= i < final(rt)@.nodes.len() && final(rt)@.nodes[i].alive ==> #[trigger] final(rt).computes(
                    i,
                    g,
                    reads,
                    out,
                ) == old(rt).computes(i, g, reads, out),
    {
        if self.id < rt.core.scope_count() {
            let ghost a = rt.core@;
            proof {
                lemma_disposed_wf(a, self.id as int);
            }
            close_subtree(&mut rt.core, self.id, Ghost(a));
            retire_closed(&mut rt.core, &mut rt.table, self.id, Ghost(a));
            proof {
                let d = a.disposed(self.id as int);
                lemma_later(a, d);
                lemma_carry(&old(rt).table, a, d);
                lemma_swap(&old(rt).table, &rt.table, d);
            }
        }
    }
}

impl Signal {
    /// Stores `value` in the signal. Unless the signal notifies only on
    /// change and `value` equals what it holds, everything that depends on
    /// the signal is invalidated first, and then every effect among it is
    /// brought up to date, before the call returns.
    pub fn set(self, rt: &mut Runtime, value: Value) -> (r: Result<(), ReactiveError>)
        requires
            old(rt).wf(),
        ensures
            final(rt).wf(),
            same_frame(old(rt)@, final(rt)@),
            signals_kept(old(rt)@, final(rt)@, self.id as int),
            same_bodies(old(rt), final(rt), -1),
            match r {
                Ok(_) => {
                    &&& old(rt)@.node_live(self.id as int, Kind::Signal)
                    &&& final(rt)@.nodes[self.id as int] == old(rt)@.nodes[self.id as int].with_value(value@)
                    &&& if notifies(old(rt)@, self.id as int, value@) {
                        evolves(old(rt)@.written(self.id as int, value@), final(rt)@)
                    } else {
                        final(rt)@ == old(rt)@
                    }
                },
                Err(e) => {
                    &&& !old(rt)@.node_live(self.id as int, Kind::Signal)
                    &&& e == node_fault(old(rt)@, self.id as int, Kind::Signal)
                    &&& final(rt)@ == old(rt)@
                },
            },
    {
        match rt.node_check(self.id, Kind::Signal) {
            Err(e) => Err(e),
            Ok(_) => {
                let s = self.id;
                let notify = rt.core.always(s) || !rt.core.value(s).same(&value);
                if notify {
                    let ghost a = rt.core@;
                    let ghost v = value@;
                    rt.core.store(s, value);
                    invalidate(&mut rt.core, s, Ghost(a), Ghost(v));
                    proof {
                        lemma_written_wf(a, s as int, v);
                    }
                    proof {
                        let w = a.written(s as int, v);
                        lemma_written_frame(a, s as int, v);
                        lemma_later(a, w);
                        assert(a.node_ok(s as int));
                        assert forall|i: int|
                            0 <= i < a.nodes.len() && (#[trigger] w.nodes[i]).alive && w.nodes[i].runs > 0 implies same_run(
                            a.nodes[i],
                            w.nodes[i],
                        ) by {}
                        lemma_carry(&rt.table, a, w);
                    }
                    flush(&mut rt.core, &rt.table, s, Ghost(a.written(s as int, v)));
                    proof {
                        lemma_settle(&rt.table, a.written(s as int, v), rt.core@);
                        lemma_written_frame(a, s as int, v);
                        lemma_evolves_frame(a.written(s as int, v), rt.core@);
                    }
                }
                Ok(())
            },
        }
    }

    /// The current value, read from outside any computation: nothing
    /// subscribes.
    pub fn get(self, rt: &Runtime) -> (r: Result<Value, ReactiveError>)
        requires
            rt.wf(),
        ensures
            match r {
                Ok(v) => rt@.node_live(self.id as int, Kind::Signal) && v@ == rt@.nodes[self.id as int].value,
                Err(e) => !rt@.node_live(self.id as int, Kind::Signal) && e == node_fault(
                    rt@,
                    self.id as int,
                    Kind::Signal,
                ),
            },
    {
        match rt.node_check(self.id, Kind::Signal) {
            Err(e) => Err(e),
            Ok(_) => Ok(rt.core.value(self.id).clone()),
        }
    }

    /// The current value, read by the running computation, which thereby
    /// subscribes to the signal.
    pub fn read(self, cx: &mut Tracker<'_>) -> (r: Result<Value, ReactiveError>)
        requires
            old(cx).wf(),
        ensures
            final(cx).wf(),
            final(cx).current() == old(cx).current(),
            final(cx).origin() == old(cx).origin(),
            evolves(old(cx)@, final(cx)@),
            covers(final(cx).reads(), old(cx).reads()),
            r is Ok ==> final(cx).reads().contains(self.id),
            match r {
                Ok(v) => {
                    &&& old(cx)@.node_live(self.id as int, Kind::Signal)
                    &&& self.id < old(cx).current()
                    &&& v@ == final(cx)@.nodes[self.id as int].value
                    &&& final(cx)@ == old(cx)@
                    &&& if old(cx).reads().contains(self.id) {
                        final(cx).reads() == old(cx).reads() && final(cx).seen() == old(cx).seen()
                    } else {
                        final(cx).reads() == old(cx).reads().push(self.id) && final(cx).seen() == old(
                            cx,
                        ).seen().push(v@)
                    }
                },
                Err(e) => {
                    &&& !(old(cx)@.node_live(self.id as int, Kind::Signal) && self.id < old(cx).current())
                    &&& e == reach_fault(old(cx)@, self.id, Kind::Signal, old(cx).current())
                    &&& final(cx)@ == old(cx)@
                    &&& final(cx).reads() == old(cx).reads()
                    &&& final(cx).seen() == old(cx).seen()
                },
            },
    {
        proof {
            cx.lemma_wf();
            lemma_evolves_reflexive(cx@);
        }
        match cx.kind(self.id) {
            Some(Kind::Signal) => {
                proof {
                    assert(cx@.node_ok(self.id as int));
                }
                cx.read(self.id)
            },
            _ => Err(ReactiveError::Invalid),
        }
    }
}

impl Memo {
    /// The value of the memo, read from outside any computation. A memo
    /// that is up to date returns its cache; an invalidated one is brought up
    /// to date first, together with the memos it reads. Either way the
    /// value returned is one that the body of the memo yields.
    pub fn get(self, rt: &mut Runtime) -> (r: Result<Value, ReactiveError>)
        requires
            old(rt).wf(),
        ensures
            final(rt).wf(),
            evolves(old(rt)@, final(rt)@),
            same_frame(old(rt)@, final(rt)@),
            signals_kept(old(rt)@, final(rt)@, -1),
            same_bodies(old(rt), final(rt), -1),
            match r {
                Ok(v) => {
                    &&& old(rt)@.node_live(self.id as int, Kind::Memo)
                    &&& final(rt)@.nodes[self.id as int].status == Status::Clean
                    &&& v@ == final(rt)@.nodes[self.id as int].value
                    &&& final(rt).backs(self.id as int, final(rt)@)
                },
                Err(e) => {
                    &&& !old(rt)@.node_live(self.id as int, Kind::Memo)
                    &&& e == node_fault(old(rt)@, self.id as int, Kind::Memo)
                    &&& final(rt)@ == old(rt)@
                },
            },
    {
        proof {
            lemma_evolves_reflexive(rt.core@);
        }
        match rt.node_check(self.id, Kind::Memo) {
            Err(e) => Err(e),
            Ok(_) => {
                if rt.core.status(self.id) != Status::Clean {
                    rt.table.resolve(&mut rt.core, self.id);
                    proof {
                        lemma_evolves_settled(old(rt)@, rt.core@);
                        lemma_evolves_frame(old(rt)@, rt.core@);
                        lemma_settle(&rt.table, old(rt)@, rt.core@);
                    }
                }
                proof {
                    assert(rt.core@.node_ok(self.id as int));
                }
                Ok(rt.core.value(self.id).clone())
            },
        }
    }

    /// The value of the memo, read by the running computation, which
    /// thereby subscribes to the memo.
    pub fn read(self, cx: &mut Tracker<'_>) -> (r: Result<Value, ReactiveError>)
        requires
            old(cx).wf(),
        ensures
            final(cx).wf(),
            final(cx).current() == old(cx).current(),
            final(cx).origin() == old(cx).origin(),
            evolves(old(cx)@, final(cx)@),
            covers(final(cx).reads(), old(cx).reads()),
            r is Ok ==> final(cx).reads().contains(self.id),
            match r {
                Ok(v) => {
                    &&& old(cx)@.node_live(self.id as int, Kind::Memo)
                    &&& self.id < old(cx).current()
                    &&& v@ == final(cx)@.nodes[self.id as int].value
                    &&& final(cx)@.nodes[self.id as int].status == Status::Clean
                    &&& if old(cx).reads().contains(self.id) {
                        final(cx).reads() == old(cx).reads() && final(cx).seen() == old(cx).seen()
                    } else {
                        final(cx).reads() == old(cx).reads().push(self.id) && final(cx).seen() == old(
                            cx,
                        ).seen().push(v@)
                    }
                },
                Err(e) => {
                    &&& !(old(cx)@.node_live(self.id as int, Kind::Memo) && self.id < old(cx).current())
                    &&& e == reach_fault(old(cx)@, self.id, Kind::Memo, old(cx).current())
                    &&& final(cx)@ == old(cx)@
                    &&& final(cx).reads() == old(cx).reads()
                    &&& final(cx).seen() == old(cx).seen()
                },
            },
    {
        proof {
            cx.lemma_wf();
            lemma_evolves_reflexive(cx@);
        }
        match cx.kind(self.id) {
            Some(Kind::Memo) => cx.read(self.id),
            _ => Err(ReactiveError::Invalid),
        }
    }
}

/// A signal is itself a computation: it yields its value, or `Absent` where
/// it cannot be read.
impl Computation for Signal {
    open spec fn yields(
        &self,
        m: Model,
        current: int,
        before: Seq<usize>,
        reads: Seq<usize>,
        out: ValueView,
    ) -> bool {
        &&& out == value_in_reach(m, self.id, Kind::Signal, current)
        &&& reads == noted(before, self.id, in_reach(m, self.id, Kind::Signal, current))
    }

    fn compute(&self, cx: &mut Tracker<'_>) -> (out: Value)
        ensures
            final(cx)@ == old(cx)@,
            final(cx).reads() == if in_reach(old(cx)@, self.id, Kind::Signal, old(cx).current()) && !old(
                cx,
            ).reads().contains(self.id) {
                old(cx).reads().push(self.id)
            } else {
                old(cx).reads()
            },
    {
        match self.read(cx) {
            Ok(v) => v,
            Err(_) => Value::Absent,
        }
    }
}

/// A memo is itself a computation: it yields its value, or `Absent` where
/// it cannot be read.
impl Computation for Memo {
    open spec fn yields(
        &self,
        m: Model,
        current: int,
        before: Seq<usize>,
        reads: Seq<usize>,
        out: ValueView,
    ) -> bool {
        &&& out == value_in_reach(m, self.id, Kind::Memo, current)
        &&& reads == noted(before, self.id, in_reach(m, self.id, Kind::Memo, current))
    }

    fn compute(&self, cx: &mut Tracker<'_>) -> (out: Value)
        ensures
            evolves(old(cx)@, final(cx)@),
            in_reach(old(cx)@, self.id, Kind::Memo, old(cx).current()) ==> final(cx)@.nodes[self.id as int].status
                == Status::Clean,
            final(cx).reads() == if in_reach(old(cx)@, self.id, Kind::Memo, old(cx).current()) && !old(
                cx,
            ).reads().contains(self.id) {
                old(cx).reads().push(self.id)
            } else {
                old(cx).reads()
            },
    {
        proof {
            cx.lemma_wf();
        }
        let ghost start = cx@;
        let r = self.read(cx);
        proof {
            lemma_evolves_frame(start, cx@);
        }
        match r {
            Ok(v) => v,
            Err(_) => Value::Absent,
        }
    }
}

impl Effect {
    /// What the effect returned when it last ran.
    pub fn output(self, rt: &Runtime) -> (r: Result<Value, ReactiveError>)
        requires
            rt.wf(),
        ensures
            match r {
                Ok(v) => rt@.node_live(self.id as int, Kind::Effect) && v@ == rt@.nodes[self.id as int].value,
                Err(e) => !rt@.node_live(self.id as int, Kind::Effect) && e == node_fault(
                    rt@,
                    self.id as int,
                    Kind::Effect,
                ),
            },
    {
        match rt.node_check(self.id, Kind::Effect) {
            Err(e) => Err(e),
            Ok(_) => Ok(rt.core.value(self.id).clone()),
        }
    }
}

} // verus!
