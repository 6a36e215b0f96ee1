//! Evaluation: the context that a running computation reads through, which
//! records what was read, and the refreshing of invalidated nodes.

use vstd::prelude::*;
use crate::value::{Value, ValueView};
use crate::model::{
    Kind, Status, Model, evolves, untouched_from, step, remembered, tracks_by, tracked_by,
    lemma_evolves_transitive, lemma_tracks_chain, lemma_tracks_self,
};
use crate::table::Table;
use crate::graph::{Core, views};

verus! {

/// Why an operation on the graph was refused.
#[derive(Clone, Copy, Debug, PartialEq, Eq, Structural)]
pub enum ReactiveError {
    /// The node, or the scope, has been disposed.
    Disposed,
    /// The handle names nothing that the operation applies to: no slot of the
    /// graph, a node of another kind, or a node that is not older than its reader.
    Invalid,
}

/// Whether a computation that runs as node `current` may read node `k`.
pub open spec fn readable(m: Model, k: int, current: int) -> bool {
    &&& 0 <= k < current
    &&& k < m.nodes.len()
    &&& m.nodes[k].kind != Kind::Effect
    &&& m.nodes[k].alive
}

/// The error that a refused read ends in.
pub open spec fn read_fault(m: Model, k: int, current: int) -> ReactiveError {
    if 0 <= k < current && k < m.nodes.len() && m.nodes[k].kind != Kind::Effect {
        ReactiveError::Disposed
    } else {
        ReactiveError::Invalid
    }
}

/// What brings an invalidated node up to date. The runtime's table of
/// computations is the one implementation.
pub trait Resolver {
    /// Whether the body of node `i`, run on graph `g` with `reads`
    /// recorded, can return `out`.
    spec fn supports(&self, i: int, g: Model, reads: Seq<usize>, out: ValueView) -> bool;

    /// Whether `g` is a graph on which node `i` of `m` can have run last,
    /// with the sources and the value that it has in `m`.
    open spec fn recalls(&self, i: int, m: Model, g: Model) -> bool {
        self.supports(i, g, m.nodes[i].sources, m.nodes[i].value) && remembered(m, i, g)
    }

    /// Whether the value of node `i` of `m` is one that its body yields.
    open spec fn backs(&self, i: int, m: Model) -> bool {
        exists|g: Model| #[trigger] self.recalls(i, m, g)
    }

    fn resolve(&self, core: &mut Core, k: usize)
        requires
            old(core)@.wf(),
            k < old(core)@.nodes.len(),
            old(core)@.nodes[k as int].status != Status::Clean,
        ensures
            final(core)@.wf(),
            evolves(old(core)@, final(core)@),
            untouched_from(old(core)@, final(core)@, k + 1),
            final(core)@.nodes[k as int].status == Status::Clean,
            tracks_by(|j: int, m: Model| self.backs(j, m), old(core)@, final(core)@),
    ;
}

/// What a run keeps fixed: the graph as it was when the run began, and
/// which values count as backed by the bodies of the graph.
pub struct Origin {
    pub graph: Model,
    pub backs: spec_fn(int, Model) -> bool,
}

/// The tracking context of one run. Every read goes through it and becomes
/// an edge of the node that is running.
pub struct Tracker<'a> {
    core: Core,
    resolver: &'a dyn Resolver,
    current: usize,
    reads: Vec<usize>,
    seen: Vec<Value>,
    origin: Ghost<Origin>,
}

/// Whether every node of `part` is among `reads`.
pub open spec fn covers(reads: Seq<usize>, part: Seq<usize>) -> bool {
    forall|x: usize| part.contains(x) ==> #[trigger] reads.contains(x)
}

/// The reads of a context that held `before`, once node `k` has been read
/// (`done`) or the read has been refused.
pub open spec fn noted(before: Seq<usize>, k: usize, done: bool) -> Seq<usize> {
    if done && !before.contains(k) {
        before.push(k)
    } else {
        before
    }
}

/// What a user of the graph supplies: the body of a memo or of an effect.
/// It reads through the context and returns the new value.
pub trait Computation {
    /// Whether a run of the body as node `current` that leaves the graph as
    /// `m`, in a context that held the reads `before` and holds `reads`
    /// afterwards, can return `out`. A body that does not say is taken to
    /// read and to return anything.
    open spec fn yields(
        &self,
        m: Model,
        current: int,
        before: Seq<usize>,
        reads: Seq<usize>,
        out: ValueView,
    ) -> bool {
        true
    }

    fn compute(&self, cx: &mut Tracker<'_>) -> (out: Value)
        requires
            old(cx).wf(),
        ensures
            final(cx).wf(),
            final(cx).current() == old(cx).current(),
            final(cx).origin() == old(cx).origin(),
            covers(final(cx).reads(), old(cx).reads()),
            self.yields(final(cx)@, final(cx).current(), old(cx).reads(), final(cx).reads(), out@),
    ;
}

/// A body of any type, held by value: as a computation it is the body
/// itself.
pub struct Held<T> {
    pub body: T,
}

impl<T: Computation> Computation for Held<T> {
    open spec fn yields(
        &self,
        m: Model,
        current: int,
        before: Seq<usize>,
        reads: Seq<usize>,
        out: ValueView,
    ) -> bool {
        self.body.yields(m, current, before, reads, out)
    }

    fn compute(&self, cx: &mut Tracker<'_>) -> (out: Value) {
        self.body.compute(cx)
    }
}

fn position(list: &Vec<usize>, k: usize) -> (r: Option<usize>)
    ensures
        match r {
            Some(i) => i < list.len() && list[i as int] == k,
            None => !list@.contains(k),
        },
{
    let mut i: usize = 0;
    while i < list.len()
        invariant
            i <= list.len(),
            forall|j: int| 0 <= j < i ==> list[j] != k,
        decreases list.len() - i,
    {
        if list[i] == k {
            return Some(i);
        }
        i += 1;
    }
    None
}

impl<'a> Tracker<'a> {
    /// The graph as the context sees it now.
    pub closed spec fn view(&self) -> Model {
        self.core@
    }

    /// What the run keeps fixed.
    pub closed spec fn origin(&self) -> Origin {
        self.origin@
    }

    /// The index of the node that is running; the number of nodes for a
    /// read from outside any node.
    pub closed spec fn current(&self) -> int {
        self.current as int
    }

    /// The nodes read so far, each once.
    pub closed spec fn reads(&self) -> Seq<usize> {
        self.reads@
    }

    /// The value that each of them had.
    pub closed spec fn seen(&self) -> Seq<ValueView> {
        views(self.seen@)
    }

    spec fn read_ok(&self, k: int) -> bool {
        let src = self.reads@[k] as int;
        &&& src < self.current
        &&& self.core@.nodes[src].kind != Kind::Effect
        &&& self.core@.nodes[src].status == Status::Clean
        &&& self.core@.nodes[src].value == self.seen@[k]@
    }

    /// The context is in order: the graph is, nothing from the running node
    /// on has been touched since the run began, and every recorded read
    /// still holds.
    pub closed spec fn wf(&self) -> bool {
        &&& self.core@.wf()
        &&& self.origin@.graph.structured()
        &&& evolves(self.origin@.graph, self.core@)
        &&& untouched_from(self.origin@.graph, self.core@, self.current as int)
        &&& tracks_by(self.origin@.backs, self.origin@.graph, self.core@)
        &&& forall|j: int, m: Model| #[trigger] self.resolver.backs(j, m) == (self.origin@.backs)(j, m)
        &&& self.current <= self.core@.nodes.len()
        &&& self.reads@.len() == self.seen@.len()
        &&& self.reads@.no_duplicates()
        &&& forall|k: int| 0 <= k < self.reads@.len() ==> #[trigger] self.read_ok(k)
    }

    /// What a context in order says of the graph.
    pub proof fn lemma_wf(&self)
        requires
            self.wf(),
        ensures
            self@.wf(),
            evolves(self.origin().graph, self@),
            untouched_from(self.origin().graph, self@, self.current()),
            tracks_by(self.origin().backs, self.origin().graph, self@),
            0 <= self.current() <= self@.nodes.len(),
            self.reads().len() == self.seen().len(),
            self.reads().no_duplicates(),
            forall|k: int| 0 <= k < self.reads().len() ==> {
                &&& (#[trigger] self.reads()[k]) < self.current()
                &&& self@.nodes[self.reads()[k] as int].status == Status::Clean
                &&& self@.nodes[self.reads()[k] as int].value == self.seen()[k]
            },
    {
        assert forall|k: int| 0 <= k < self.reads().len() implies {
            &&& (#[trigger] self.reads()[k]) < self.current()
            &&& self@.nodes[self.reads()[k] as int].status == Status::Clean
            &&& self@.nodes[self.reads()[k] as int].value == self.seen()[k]
        } by {
            assert(self.read_ok(k));
        }
    }

    pub(crate) fn begin(core: Core, table: &'a Table, current: usize) -> (cx: Tracker<'a>)
        requires
            core@.wf(),
            current <= core@.nodes.len(),
        ensures
            cx.wf(),
            cx@ == core@,
            cx.origin().graph == core@,
            forall|j: int, m: Model| #[trigger] (cx.origin().backs)(j, m) == table.backs(j, m),
            cx.current() == current,
            cx.reads().len() == 0,
    {
        let ghost origin = Origin { graph: core@, backs: |j: int, m: Model| table.backs(j, m) };
        let cx = Tracker {
            core,
            resolver: table,
            current,
            reads: Vec::new(),
            seen: Vec::new(),
            origin: Ghost(origin),
        };
        proof {
            assert forall|i: int| 0 <= i < origin.graph.nodes.len() implies #[trigger] step(
                origin.graph,
                origin.graph,
                i,
            ) by {}
            lemma_tracks_self(origin.backs, origin.graph);
        }
        cx
    }

    /// The kind of node `k`, if there is such a node.
    pub fn kind(&self, k: usize) -> (r: Option<Kind>)
        requires
            self.wf(),
        ensures
            r == if k < self@.nodes.len() {
                Some(self@.nodes[k as int].kind)
            } else {
                None
            },
    {
        if k < self.core.node_count() {
            Some(self.core.kind(k))
        } else {
            None
        }
    }

    /// Reads node `k` for the running computation. An invalidated memo is
    /// brought up to date first, so the value returned is never stale. The
    /// read is recorded once, however often it is repeated.
    pub fn read(&mut self, k: usize) -> (r: Result<Value, ReactiveError>)
        requires
            old(self).wf(),
        ensures
            final(self).wf(),
            final(self).current() == old(self).current(),
            final(self).origin() == old(self).origin(),
            evolves(old(self)@, final(self)@),
            covers(final(self).reads(), old(self).reads()),
            r is Ok ==> final(self).reads().contains(k),
            match r {
                Ok(v) => {
                    &&& readable(old(self)@, k as int, old(self).current())
                    &&& old(self)@.nodes[k as int].status == Status::Clean ==> final(self)@ == old(self)@
                    &&& v@ == final(self)@.nodes[k as int].value
                    &&& final(self)@.nodes[k as int].status == Status::Clean
                    &&& if old(self).reads().contains(k) {
                        final(self).reads() == old(self).reads() && final(self).seen() == old(self).seen()
                    } else {
                        final(self).reads() == old(self).reads().push(k) && final(self).seen() == old(
                            self,
                        ).seen().push(v@)
                    }
                },
                Err(e) => {
                    &&& !readable(old(self)@, k as int, old(self).current())
                    &&& e == read_fault(old(self)@, k as int, old(self).current())
                    &&& final(self)@ == old(self)@
                    &&& final(self).reads() == old(self).reads()
                    &&& final(self).seen() == old(self).seen()
                },
            },
    {
        let ghost before = self.core@;
        proof {
            assert forall|i: int| 0 <= i < before.nodes.len() implies #[trigger] step(before, before, i) by {}
        }
        if k >= self.current {
            return Err(ReactiveError::Invalid);
        }
        if self.core.kind(k) == Kind::Effect {
            return Err(ReactiveError::Invalid);
        }
        if !self.core.alive(k) {
            return Err(ReactiveError::Disposed);
        }
        if self.core.status(k) != Status::Clean {
            self.resolver.resolve(&mut self.core, k);
            proof {
                let after = self.core@;
                lemma_evolves_transitive(self.origin@.graph, before, after);
                let backs = self.origin@.backs;
                assert forall|j: int| 0 <= j < before.nodes.len() implies #[trigger] tracked_by(
                    backs,
                    before,
                    after,
                    j,
                ) by {
                    assert(tracked_by(|j: int, m: Model| self.resolver.backs(j, m), before, after, j));
                    assert(self.resolver.backs(j, after) == backs(j, after));
                    assert(self.resolver.backs(j, before) == backs(j, before));
                }
                lemma_tracks_chain(backs, self.origin@.graph, before, after);
                assert forall|j: int| 0 <= j < self.reads@.len() implies #[trigger] self.read_ok(j) by {
                    assert(old(self).read_ok(j));
                    assert(step(before, after, self.reads@[j] as int));
                }
            }
        }
        let v = self.core.value(k).clone();
        match position(&self.reads, k) {
            Some(at) => {
                proof {
                    assert(self.reads@[at as int] == k);
                }
            },
            None => {
                let w = v.clone();
                self.reads.push(k);
                self.seen.push(w);
                proof {
                    assert(w@ == v@);
                    assert(views(self.seen@) =~= views(old(self).seen@).push(v@));
                    assert forall|j: int| 0 <= j < self.reads@.len() implies #[trigger] self.read_ok(j) by {
                        if j < old(self).reads@.len() {
                            assert(old(self).read_ok(j));
                            assert(step(before, self.core@, self.reads@[j] as int));
                            assert(self.reads@[j] == old(self).reads@[j]);
                            assert(self.seen@[j] == old(self).seen@[j]);
                        } else {
                            assert(self.reads@[j] == k);
                            assert(self.seen@[j] == w);
                            assert(step(before, self.core@, k as int));
                        }
                    }
                    assert(self.reads@[self.reads@.len() - 1] == k);
                    assert forall|x: usize| old(self).reads@.contains(x) implies #[trigger] self.reads@.contains(
                        x,
                    ) by {
                        let i = choose|i: int| 0 <= i < old(self).reads@.len() && old(self).reads@[i] == x;
                        assert(self.reads@[i] == x);
                    }
                    assert(self.reads@.no_duplicates()) by {
                        assert forall|i: int, j: int|
                            0 <= i < self.reads@.len() && 0 <= j < self.reads@.len() && i != j implies self.reads@[i]
                            != self.reads@[j] by {
                            if i < old(self).reads@.len() && j < old(self).reads@.len() {
                            } else if i < old(self).reads@.len() {
                                assert(old(self).reads@.contains(old(self).reads@[i]));
                            } else {
                                assert(old(self).reads@.contains(old(self).reads@[j]));
                            }
                        }
                    }
                }
            },
        }
        Ok(v)
    }

    pub(crate) fn finish(self) -> (r: (Core, Vec<usize>, Vec<Value>))
        requires
            self.wf(),
        ensures
            r.0@ == self@,
            r.1@ == self.reads(),
            views(r.2@) == self.seen(),
            r.1@.len() == r.2@.len(),
            r.1@.no_duplicates(),
            forall|k: int| 0 <= k < r.1@.len() ==> {
                &&& (#[trigger] r.1@[k]) < self.current()
                &&& self@.nodes[r.1@[k] as int].kind != Kind::Effect
                &&& self@.nodes[r.1@[k] as int].status == Status::Clean
                &&& self@.nodes[r.1@[k] as int].value == views(r.2@)[k]
            },
    {
        proof {
            assert forall|k: int| 0 <= k < self.reads@.len() implies {
                &&& (#[trigger] self.reads@[k]) < self.current()
                &&& self@.nodes[self.reads@[k] as int].kind != Kind::Effect
                &&& self@.nodes[self.reads@[k] as int].status == Status::Clean
                &&& self@.nodes[self.reads@[k] as int].value == views(self.seen@)[k]
            } by {
                assert(self.read_ok(k));
            }
        }
        let Tracker { core, resolver: _, current: _, reads, seen, origin: _ } = self;
        (core, reads, seen)
    }
}

} // verus!
