//! The table of computations, one slot per node, and the refreshing of an
//! invalidated node from it.

use vstd::prelude::*;
use crate::value::Value;
use crate::value::ValueView;
use crate::model::{
    Status, Model, evolves, untouched_from, step, stale, differs, same_run, outlives, remembered, recalled,
    kept_alive, tracks_by, tracked_by, lemma_evolves_transitive, lemma_tracks_chain, lemma_tracks_self,
    lemma_refreshed,
};
use crate::graph::Core;
use crate::tracking::{Computation, Resolver, Tracker};

verus! {

/// The computations of the graph. Slot `i` holds the body of node `i`; the
/// slot of a signal, and of a disposed node, is empty.
pub(crate) struct Table {
    list: Vec<Option<Box<dyn Computation>>>,
}

impl Table {
    pub(crate) closed spec fn len(&self) -> nat {
        self.list@.len()
    }

    pub(crate) fn new() -> (r: Table)
        ensures
            r.len() == 0,
    {
        Table { list: Vec::new() }
    }

    /// What slot `i` yields: what the body in it yields, and for an empty
    /// slot, or none, `Absent` without a read.
    pub(crate) open spec fn slot(c: Option<Box<dyn Computation>>, i: int, g: Model, reads: Seq<usize>, out: ValueView) -> bool {
        match c {
            Some(body) => body.yields(g, i, Seq::empty(), reads, out),
            None => out == ValueView::Absent && reads.len() == 0,
        }
    }

    pub(crate) fn push(&mut self, c: Option<Box<dyn Computation>>)
        ensures
            final(self).len() == old(self).len() + 1,
            forall|i: int, g: Model, reads: Seq<usize>, out: ValueView| #[trigger]
                final(self).supports(i, g, reads, out) == if i == old(self).len() {
                    Self::slot(c, i, g, reads, out)
                } else {
                    old(self).supports(i, g, reads, out)
                },
            c is None ==> forall|i: int, g: Model, reads: Seq<usize>, out: ValueView| #[trigger]
                final(self).supports(i, g, reads, out) == old(self).supports(i, g, reads, out),
    {
        self.list.push(c);
    }

    /// Drops the computation of node `i`: the slot is empty afterwards, and
    /// every other slot is as it was.
    pub(crate) fn clear(&mut self, i: usize)
        ensures
            final(self).len() == old(self).len(),
            forall|j: int, g: Model, reads: Seq<usize>, out: ValueView| #[trigger]
                final(self).supports(j, g, reads, out) == if j == i {
                    out == ValueView::Absent && reads.len() == 0
                } else {
                    old(self).supports(j, g, reads, out)
                },
    {
        if i < self.list.len() {
            self.list.set(i, None);
        }
    }

    /// A value that is backed stays backed in a later graph in which the
    /// node holds the result of the same run.
    pub(crate) proof fn lemma_stable(&self, j: int, a: Model, b: Model)
        requires
            0 <= j < a.nodes.len(),
            outlives(a, b),
            same_run(a.nodes[j], b.nodes[j]),
            self.backs(j, a),
        ensures
            self.backs(j, b),
    {
        let g = choose|g: Model| #[trigger] self.recalls(j, a, g);
        assert forall|k: int| 0 <= k < b.nodes[j].sources.len() implies #[trigger] recalled(b, j, g, k) by {
            assert(recalled(a, j, g, k));
        }
        assert forall|x: int| 0 <= x < g.nodes.len() implies #[trigger] kept_alive(b, g, x) by {
            assert(kept_alive(a, g, x));
            assert(kept_alive(b, a, x));
        }
        assert(self.recalls(j, b, g));
    }

    /// Between a graph and a later one that differs from it in one node,
    /// whose value is backed there if it ran, every node is tracked.
    pub(crate) proof fn lemma_tracks_one(&self, a: Model, b: Model, k: int)
        requires
            outlives(a, b),
            a.nodes.len() == b.nodes.len(),
            forall|j: int| 0 <= j < a.nodes.len() && j != k ==> #[trigger] b.nodes[j] == a.nodes[j],
            0 <= k < a.nodes.len(),
            b.nodes[k].runs != a.nodes[k].runs ==> self.backs(k, b),
        ensures
            tracks_by(|j: int, m: Model| self.backs(j, m), a, b),
    {
        let backs = |j: int, m: Model| self.backs(j, m);
        assert forall|j: int| 0 <= j < a.nodes.len() implies #[trigger] tracked_by(backs, a, b, j) by {
            if same_run(a.nodes[j], b.nodes[j]) && self.backs(j, a) {
                self.lemma_stable(j, a, b);
            }
        }
    }

    /// Runs the computation of node `k` once and stores what it read and returned.
    fn run(&self, core: &mut Core, k: usize)
        requires
            old(core)@.wf(),
            k < old(core)@.nodes.len(),
            old(core)@.nodes[k as int].status != Status::Clean,
        ensures
            final(core)@.wf(),
            final(core)@.scopes == old(core)@.scopes,
            final(core)@.nodes.len() == old(core)@.nodes.len(),
            untouched_from(old(core)@, final(core)@, k + 1),
            final(core)@.nodes[k as int].status == Status::Clean,
            final(core)@.nodes[k as int].runs == old(core)@.nodes[k as int].runs + 1,
            final(core)@.nodes[k as int].kind == old(core)@.nodes[k as int].kind,
            final(core)@.nodes[k as int].scope == old(core)@.nodes[k as int].scope,
            final(core)@.nodes[k as int].always == old(core)@.nodes[k as int].always,
            final(core)@.nodes[k as int].alive,
            forall|i: int| 0 <= i < k ==> #[trigger] step(old(core)@, final(core)@, i),
            tracks_by(|j: int, m: Model| self.backs(j, m), old(core)@, final(core)@),
    {
        let ghost start = core@;
        let mut cx = Tracker::begin(core.take(), self, k);
        let ghost origin = cx.origin();
        proof {
            assert(cx.reads() =~= Seq::<usize>::empty());
        }
        let out = if k < self.list.len() {
            match &self.list[k] {
                Some(c) => c.compute(&mut cx),
                None => Value::Absent,
            }
        } else {
            Value::Absent
        };
        let ghost now = cx@;
        proof {
            cx.lemma_wf();
            assert(self.supports(k as int, now, cx.reads(), out@));
        }
        let (inner, reads, seen) = cx.finish();
        *core = inner;
        core.commit(k, out, reads, seen);
        proof {
            let end = core@;
            let backs = |j: int, m: Model| self.backs(j, m);
            assert forall|j: int| 0 <= j < start.nodes.len() implies #[trigger] tracked_by(backs, start, now, j) by {
                assert(tracked_by(origin.backs, start, now, j));
                assert((origin.backs)(j, now) == self.backs(j, now));
                assert((origin.backs)(j, start) == self.backs(j, start));
            }
            assert(self.backs(k as int, end)) by {
                assert forall|x: int| 0 <= x < end.nodes[k as int].sources.len() implies #[trigger] recalled(
                    end,
                    k as int,
                    now,
                    x,
                ) by {
                    assert(reads@[x] < k);
                }
                assert forall|x: int| 0 <= x < now.nodes.len() implies #[trigger] kept_alive(end, now, x) by {}
                assert(remembered(end, k as int, now));
                assert(self.recalls(k as int, end, now));
            }
            assert(outlives(now, end)) by {
                assert forall|x: int| 0 <= x < now.nodes.len() implies #[trigger] kept_alive(end, now, x) by {}
            }
            self.lemma_tracks_one(now, end, k as int);
            assert forall|j: int| 0 <= j < start.nodes.len() implies #[trigger] tracked_by(backs, start, end, j) by {
                assert(tracked_by(backs, start, now, j));
                assert(tracked_by(backs, now, end, j));
                if j < k {
                    assert(step(start, now, j));
                }
            }
            assert(start.node_ok(k as int));
            assert(now.nodes[k as int] == start.nodes[k as int]);
            assert forall|x: int| 0 <= x < end.nodes[k as int].sources.len() implies {
                let src = #[trigger] end.nodes[k as int].sources[x];
                &&& src < k
                &&& now.nodes[src as int].kind != crate::model::Kind::Effect
                &&& now.nodes[src as int].status == Status::Clean
                &&& now.nodes[src as int].value == end.nodes[k as int].seen[x]
            } by {
                assert(reads@[x] < k);
            }
            lemma_refreshed(now, end, k as int);
            assert forall|i: int| 0 <= i < k implies #[trigger] step(start, end, i) by {
                assert(step(start, now, i));
                assert(start.node_ok(i));
                if now.nodes[i] != start.nodes[i] && now.nodes[i].runs != start.nodes[i].runs
                    && start.nodes[i].status != Status::Dirty {
                    let w = choose|w: int|
                        0 <= w < start.nodes[i].sources.len() && #[trigger] differs(start, now, i, w);
                    assert(start.edge_ok(i, start.nodes[i].sources[w]));
                    assert(differs(start, end, i, w));
                }
            }
        }
    }
}

impl Resolver for Table {
    closed spec fn supports(&self, i: int, g: Model, reads: Seq<usize>, out: ValueView) -> bool {
        if 0 <= i < self.list@.len() {
            Self::slot(self.list@[i], i, g, reads, out)
        } else {
            out == ValueView::Absent && reads.len() == 0
        }
    }

    fn resolve(&self, core: &mut Core, k: usize)
        decreases k,
    {
        let ghost start = core@;
        let ghost backs = |j: int, m: Model| self.backs(j, m);
        proof {
            lemma_tracks_self(backs, start);
            assert(start.node_ok(k as int));
            assert forall|i: int| 0 <= i < start.nodes.len() implies #[trigger] step(start, start, i) by {}
        }
        let n = core.source_count(k);
        let mut must = core.status(k) == Status::Dirty;
        let mut idx: usize = 0;
        while idx < n && !must
            invariant
                start.wf(),
                core@.wf(),
                evolves(start, core@),
                untouched_from(start, core@, k as int),
                k < core@.nodes.len(),
                n == start.nodes[k as int].sources.len(),
                n == start.nodes[k as int].seen.len(),
                idx <= n,
                start.nodes[k as int].status != Status::Clean,
                !must ==> start.nodes[k as int].status == Status::Check,
                backs == (|j: int, m: Model| self.backs(j, m)),
                tracks_by(backs, start, core@),
                !must ==> forall|j: int| 0 <= j < idx ==> #[trigger] core@.agrees(k as int, j),
                must ==> stale(start, core@, k as int),
            decreases n - idx,
        {
            let ghost before = core@;
            proof {
                assert(start.node_ok(k as int));
            }
            let src = core.source(k, idx);
            proof {
                assert(start.edge_ok(k as int, start.nodes[k as int].sources[idx as int]));
            }
            if core.status(src) != Status::Clean {
                self.resolve(core, src);
                proof {
                    lemma_tracks_chain(backs, start, before, core@);
                    lemma_evolves_transitive(start, before, core@);
                    assert forall|j: int| 0 <= j < idx implies #[trigger] core@.agrees(k as int, j) by {
                        assert(before.agrees(k as int, j));
                        assert(start.edge_ok(k as int, start.nodes[k as int].sources[j]));
                        assert(step(before, core@, start.nodes[k as int].sources[j] as int));
                    }
                }
            }
            let same = core.value(src).same(core.saw(k, idx));
            if !same {
                must = true;
                proof {
                    assert(differs(start, core@, k as int, idx as int));
                }
            }
            idx += 1;
        }
        if must {
            let ghost mid = core@;
            self.run(core, k);
            proof {
                let end = core@;
                assert(evolves(mid, end)) by {
                    assert forall|i: int| 0 <= i < mid.nodes.len() implies #[trigger] step(mid, end, i) by {
                        if i == k {
                            if mid.nodes[k as int].status != Status::Dirty {
                                let w = choose|w: int|
                                    0 <= w < start.nodes[k as int].sources.len() && #[trigger] differs(
                                        start,
                                        mid,
                                        k as int,
                                        w,
                                    );
                                assert(start.node_ok(k as int));
                                assert(start.edge_ok(k as int, start.nodes[k as int].sources[w]));
                                assert(step(mid, end, start.nodes[k as int].sources[w] as int));
                                assert(differs(mid, end, k as int, w));
                            }
                        }
                    }
                }
                lemma_tracks_chain(backs, start, mid, end);
                assert forall|i: int| 0 <= i < start.nodes.len() implies #[trigger] step(start, end, i) by {
                    if i < k {
                        assert(step(start, mid, i));
                        assert(step(mid, end, i));
                        assert(start.node_ok(i));
                        let x = start.nodes[i];
                        let y = mid.nodes[i];
                        let z = end.nodes[i];
                        if y == x {
                            if z != y && z.runs != y.runs && y.status != Status::Dirty {
                                let w = choose|w: int|
                                    0 <= w < y.sources.len() && #[trigger] differs(mid, end, i, w);
                                assert(differs(start, end, i, w));
                            }
                        } else {
                            assert(z == y);
                            if y.runs != x.runs && x.status != Status::Dirty {
                                let w = choose|w: int|
                                    0 <= w < x.sources.len() && #[trigger] differs(start, mid, i, w);
                                assert(start.edge_ok(i, x.sources[w]));
                                assert(step(mid, end, x.sources[w] as int));
                                assert(differs(start, end, i, w));
                            }
                        }
                    } else if i == k {
                        if start.nodes[k as int].status != Status::Dirty {
                            let w = choose|w: int|
                                0 <= w < start.nodes[k as int].sources.len() && #[trigger] differs(
                                    start,
                                    mid,
                                    k as int,
                                    w,
                                );
                            assert(start.edge_ok(k as int, start.nodes[k as int].sources[w]));
                            assert(step(mid, end, start.nodes[k as int].sources[w] as int));
                            assert(differs(start, end, k as int, w));
                        }
                    } else {
                    }
                }
            }
        } else {
            let ghost mid = core@;
            core.set_status(k, Status::Clean);
            proof {
                let end = core@;
                assert(outlives(mid, end)) by {
                    assert forall|x: int| 0 <= x < mid.nodes.len() implies #[trigger] kept_alive(end, mid, x) by {}
                }
                self.lemma_tracks_one(mid, end, k as int);
                assert forall|j: int| 0 <= j < start.nodes.len() implies #[trigger] tracked_by(backs, start, end, j) by {
                    assert(tracked_by(backs, start, mid, j));
                    assert(tracked_by(backs, mid, end, j));
                    assert(step(start, mid, j));
                }
                assert(mid.node_ok(k as int));
                assert forall|x: int| 0 <= x < end.nodes[k as int].sources.len() implies {
                    let src = #[trigger] end.nodes[k as int].sources[x];
                    &&& src < k
                    &&& mid.nodes[src as int].kind != crate::model::Kind::Effect
                    &&& mid.nodes[src as int].status == Status::Clean
                    &&& mid.nodes[src as int].value == end.nodes[k as int].seen[x]
                } by {
                    assert(mid.agrees(k as int, x));
                    assert(mid.edge_ok(k as int, mid.nodes[k as int].sources[x]));
                }
                lemma_refreshed(mid, end, k as int);
                assert forall|i: int| 0 <= i < start.nodes.len() implies #[trigger] step(start, end, i) by {
                    assert(step(start, mid, i));
                    assert(start.node_ok(i));
                    if i != k && mid.nodes[i] != start.nodes[i] && mid.nodes[i].runs != start.nodes[i].runs
                        && start.nodes[i].status != Status::Dirty {
                        let w = choose|w: int|
                            0 <= w < start.nodes[i].sources.len() && #[trigger] differs(start, mid, i, w);
                        assert(start.edge_ok(i, start.nodes[i].sources[w]));
                        assert(differs(start, end, i, w));
                    }
                }
            }
        }
    }
}

} // verus!
