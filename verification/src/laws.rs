//! What holds of the graph across several operations.
//!
//! Each law speaks of the graphs that the operations of the runtime relate:
//! a write to signal `s` that notifies takes a graph `a` at rest to a graph
//! `b` with `evolves(a.written(s, v), b)`; a read takes `b` to a graph `c`
//! with `evolves(b, c)`; the disposal of scope `root` takes `a` to
//! `a.disposed(root)`.

use vstd::prelude::*;
use crate::value::ValueView;
use crate::model::{
    Kind, Status, Model, evolves, step, stale, differs, lemma_evolves_transitive,
    lemma_depends_older, lemma_invalidated_same, lemma_written_wf,
};

verus! {

/// Evaluation runs no node more than once.
pub proof fn lemma_evolves_runs_once(a: Model, b: Model, i: int)
    requires
        evolves(a, b),
        0 <= i < a.nodes.len(),
    ensures
        b.nodes[i].runs == a.nodes[i].runs || b.nodes[i].runs == a.nodes[i].runs + 1,
        b.nodes[i].runs != a.nodes[i].runs ==> a.nodes[i].status != Status::Clean && b.nodes[i].status == Status::Clean,
{
    assert(step(a, b, i));
}

/// A write invalidates everything that depends on the signal, directly or
/// through other nodes: none of it is clean until it has been refreshed.
pub proof fn lemma_write_invalidates(a: Model, s: int, v: ValueView, m: int)
    requires
        a.structured(),
        a.depends_on(m, s),
    ensures
        0 <= m < a.nodes.len(),
        m != s,
        a.written(s, v).nodes[m].status != Status::Clean,
{
    lemma_depends_older(a, m, s);
}

/// A write touches nothing but the value of the signal and the status of
/// what depends on it.
pub proof fn lemma_write_spares(a: Model, s: int, v: ValueView, i: int)
    requires
        a.wf(),
        0 <= i < a.nodes.len(),
        0 <= s <= usize::MAX,
        i != s,
        !a.depends_on(i, s),
    ensures
        a.written(s, v).nodes[i] == a.nodes[i],
{
    if a.nodes[i].sources.contains(s as usize) {
        let k = choose|k: int| 0 <= k < a.nodes[i].sources.len() && a.nodes[i].sources[k] == s as usize;
        assert(a.reaches(i, k, s));
    }
}

/// A write updates only what depends on the signal: a clean node that does
/// not depend on it is, when the write returns, exactly as it was.
pub proof fn lemma_write_touches_only_dependents(a: Model, s: int, v: ValueView, b: Model, i: int)
    requires
        a.wf(),
        0 <= s <= usize::MAX,
        evolves(a.written(s, v), b),
        0 <= i < a.nodes.len(),
        i != s,
        a.nodes[i].status == Status::Clean,
        !a.depends_on(i, s),
    ensures
        b.nodes[i] == a.nodes[i],
{
    lemma_write_spares(a, s, v, i);
    assert(step(a.written(s, v), b, i));
}

/// Between two operations every live effect is up to date: it is clean,
/// and each node it read holds, clean, the value that the effect saw.
pub proof fn lemma_effects_are_current(m: Model, e: int, k: int)
    requires
        m.at_rest(),
        0 <= e < m.nodes.len(),
        m.nodes[e].kind == Kind::Effect,
        0 <= k < m.nodes[e].sources.len(),
    ensures
        m.nodes[e].status == Status::Clean,
        m.nodes[m.nodes[e].sources[k] as int].status == Status::Clean,
        m.nodes[m.nodes[e].sources[k] as int].value == m.nodes[e].seen[k],
{
    lemma_clean_is_current(m, e, k);
}

/// However many paths lead from the signal to a node, and however many
/// reads follow the write, the computation of the node runs at most once
/// for that write; and once it has run, the node is clean.
pub proof fn lemma_runs_once_per_write(a: Model, s: int, v: ValueView, b: Model, c: Model, i: int)
    requires
        a.at_rest(),
        a.node_live(s, Kind::Signal),
        s <= usize::MAX,
        evolves(a.written(s, v), b),
        evolves(b, c),
        0 <= i < a.nodes.len(),
    ensures
        c.nodes[i].runs == a.nodes[i].runs || c.nodes[i].runs == a.nodes[i].runs + 1,
        c.nodes[i].runs != a.nodes[i].runs ==> c.nodes[i].status == Status::Clean,
{
    let w = a.written(s, v);
    lemma_written_wf(a, s, v);
    lemma_evolves_transitive(w, b, c);
    assert(step(w, c, i));
}

/// A clean node agrees with the present: every node it read when it last
/// ran is clean too and holds the value that was seen. So what a memo
/// returns is never older than the last write to anything it depends on.
pub proof fn lemma_clean_is_current(m: Model, i: int, k: int)
    requires
        m.wf(),
        0 <= i < m.nodes.len(),
        m.nodes[i].status == Status::Clean,
        0 <= k < m.nodes[i].sources.len(),
    ensures
        m.nodes[m.nodes[i].sources[k] as int].status == Status::Clean,
        m.nodes[m.nodes[i].sources[k] as int].value == m.nodes[i].seen[k],
{
    assert(m.consistent(i));
    assert(m.agrees(i, k));
}

/// The change gate. A clean node that does not read the written signal
/// itself, and whose sources all hold after the write what they held before
/// it, does not run: a memo that is recomputed to an equal value stops the
/// propagation.
pub proof fn lemma_change_gate(a: Model, s: int, v: ValueView, b: Model, i: int)
    requires
        a.at_rest(),
        a.node_live(s, Kind::Signal),
        s <= usize::MAX,
        evolves(a.written(s, v), b),
        0 <= i < a.nodes.len(),
        i != s,
        a.nodes[i].status == Status::Clean,
        !a.nodes[i].sources.contains(s as usize),
        forall|k: int|
            0 <= k < a.nodes[i].sources.len() ==> b.nodes[(#[trigger] a.nodes[i].sources[k]) as int].value
                == a.nodes[a.nodes[i].sources[k] as int].value,
    ensures
        b.nodes[i].runs == a.nodes[i].runs,
        b.nodes[i].value == a.nodes[i].value,
        b.nodes[i].sources == a.nodes[i].sources,
{
    let w = a.written(s, v);
    assert(step(w, b, i));
    if b.nodes[i].runs != w.nodes[i].runs {
        assert(stale(w, b, i));
        let k = choose|k: int| 0 <= k < w.nodes[i].sources.len() && #[trigger] differs(w, b, i, k);
        assert(a.consistent(i));
        assert(a.agrees(i, k));
        assert(b.nodes[a.nodes[i].sources[k] as int].value == a.nodes[a.nodes[i].sources[k] as int].value);
    }
}

/// A direct reader of the written signal does run, by the time the write
/// returns if it is an effect.
pub proof fn lemma_direct_reader_runs(a: Model, s: int, v: ValueView, b: Model, i: int)
    requires
        a.at_rest(),
        a.node_live(s, Kind::Signal),
        s <= usize::MAX,
        evolves(a.written(s, v), b),
        b.settled(),
        0 <= i < a.nodes.len(),
        a.nodes[i].kind == Kind::Effect,
        a.nodes[i].sources.contains(s as usize),
    ensures
        b.nodes[i].runs == a.nodes[i].runs + 1,
{
    let w = a.written(s, v);
    assert(a.node_ok(s));
    assert(i != s);
    assert(step(w, b, i));
}

/// Disposal is complete: a node owned by the disposed scope, or by a scope
/// below it, is inert and has no edge left, so it is a reader of nothing.
pub proof fn lemma_dispose_unsubscribes(a: Model, root: int, i: int, k: int)
    requires
        a.structured(),
        0 <= i < a.nodes.len(),
        a.within(a.nodes[i].scope as int, root),
    ensures
        !a.disposed(root).nodes[i].alive,
        a.disposed(root).nodes[i].sources.len() == 0,
        !a.disposed(root).subscribers(k).contains(i),
{
    assert(a.node_ok(i));
}

/// Nothing runs after its disposal: a write that follows the disposal of a
/// scope leaves every node of that scope exactly as the disposal left it.
pub proof fn lemma_disposed_never_runs(a: Model, root: int, s: int, v: ValueView, b: Model, i: int)
    requires
        a.at_rest(),
        0 <= i < a.nodes.len(),
        a.within(a.nodes[i].scope as int, root),
        0 <= s <= usize::MAX,
        evolves(a.disposed(root).written(s, v), b),
        a.disposed(root).node_live(s, Kind::Signal),
    ensures
        b.nodes[i] == a.disposed(root).nodes[i],
        b.nodes[i].runs == a.nodes[i].runs,
{
    let d = a.disposed(root);
    crate::model::lemma_disposed_wf(a, root);
    assert(a.node_ok(i));
    assert(i != s);
    lemma_invalidated_same(d, i, s);
    assert(d.node_ok(i));
    assert(step(d.written(s, v), b, i));
}

/// Disposal does not change which scope lies below which.
pub proof fn lemma_dispose_keeps_tree(a: Model, root: int, c: int, r: int)
    ensures
        a.disposed(root).within(c, r) == a.within(c, r),
    decreases c,
{
    let d = a.disposed(root);
    if c != r && 0 <= c < a.scopes.len() {
        match a.scopes[c].parent {
            Some(p) => {
                if p < c {
                    lemma_dispose_keeps_tree(a, root, p as int, r);
                }
            },
            None => {},
        }
    }
}

/// Disposal is idempotent.
pub proof fn lemma_dispose_idempotent(a: Model, root: int)
    ensures
        a.disposed(root).disposed(root) == a.disposed(root),
{
    let d = a.disposed(root);
    let e = d.disposed(root);
    assert forall|c: int| 0 <= c < d.scopes.len() implies e.scopes[c] == d.scopes[c] by {
        lemma_dispose_keeps_tree(a, root, c, root);
    }
    assert forall|i: int| 0 <= i < d.nodes.len() implies e.nodes[i] == d.nodes[i] by {
        lemma_dispose_keeps_tree(a, root, d.nodes[i].scope as int, root);
    }
    assert(e.scopes =~= d.scopes);
    assert(e.nodes =~= d.nodes);
}

/// A child does not outlive its parent: in a graph in order, every scope
/// below a disposed scope is disposed, and so is every node that it owns.
pub proof fn lemma_disposed_below(m: Model, c: int, root: int)
    requires
        m.structured(),
        0 <= root < m.scopes.len(),
        m.scopes[root].disposed,
        m.within(c, root),
    ensures
        0 <= c < m.scopes.len(),
        m.scopes[c].disposed,
        forall|i: int| 0 <= i < m.nodes.len() && (#[trigger] m.nodes[i]).scope == c ==> !m.nodes[i].alive,
    decreases c,
{
    if c != root {
        assert(m.scope_ok(c));
        match m.scopes[c].parent {
            Some(p) => {
                lemma_disposed_below(m, p as int, root);
            },
            None => {},
        }
    }
    assert forall|i: int| 0 <= i < m.nodes.len() && (#[trigger] m.nodes[i]).scope == c implies !m.nodes[i].alive by {
        assert(m.node_ok(i));
    }
}

} // verus!
