//! The storage of the reactive graph: an arena of nodes and an arena of
//! scopes, each slot named by its index, with the primitive reads and
//! updates that the runtime is built from.

use vstd::prelude::*;
use crate::value::{Value, ValueView};
use crate::model::{Kind, Status, ScopeState, NodeState, Model};

verus! {

/// The views of a sequence of values.
pub open spec fn views(vs: Seq<Value>) -> Seq<ValueView> {
    vs.map_values(|v: Value| v@)
}

pub(crate) struct Node {
    kind: Kind,
    scope: usize,
    alive: bool,
    always: bool,
    value: Value,
    status: Status,
    sources: Vec<usize>,
    seen: Vec<Value>,
    runs: Ghost<nat>,
}

impl Node {
    pub(crate) closed spec fn state(self) -> NodeState {
        NodeState {
            kind: self.kind,
            scope: self.scope,
            alive: self.alive,
            always: self.always,
            value: self.value@,
            status: self.status,
            sources: self.sources@,
            seen: views(self.seen@),
            runs: self.runs@,
        }
    }
}

/// The arena. Slots are never reused: a disposed node stays in place, inert.
pub struct Core {
    scopes: Vec<ScopeState>,
    nodes: Vec<Node>,
}

impl View for Core {
    type V = Model;

    closed spec fn view(&self) -> Model {
        Model { scopes: self.scopes@, nodes: self.nodes@.map_values(|n: Node| n.state()) }
    }
}

impl Core {
    pub(crate) fn new() -> (r: Core)
        ensures
            r@.nodes.len() == 0,
            r@.scopes.len() == 0,
    {
        Core { scopes: Vec::new(), nodes: Vec::new() }
    }

    /// Moves the arena out and leaves an empty one behind.
    pub(crate) fn take(&mut self) -> (r: Core)
        ensures
            r@ == old(self)@,
    {
        let mut out = Core::new();
        std::mem::swap(self, &mut out);
        out
    }

    pub(crate) fn node_count(&self) -> (r: usize)
        ensures
            r == self@.nodes.len(),
    {
        self.nodes.len()
    }

    pub(crate) fn scope_count(&self) -> (r: usize)
        ensures
            r == self@.scopes.len(),
    {
        self.scopes.len()
    }

    pub(crate) fn scope_state(&self, c: usize) -> (r: ScopeState)
        requires
            c < self@.scopes.len(),
        ensures
            r == self@.scopes[c as int],
    {
        self.scopes[c]
    }

    pub(crate) fn kind(&self, i: usize) -> (r: Kind)
        requires
            i < self@.nodes.len(),
        ensures
            r == self@.nodes[i as int].kind,
    {
        self.nodes[i].kind
    }

    pub(crate) fn status(&self, i: usize) -> (r: Status)
        requires
            i < self@.nodes.len(),
        ensures
            r == self@.nodes[i as int].status,
    {
        self.nodes[i].status
    }

    pub(crate) fn alive(&self, i: usize) -> (r: bool)
        requires
            i < self@.nodes.len(),
        ensures
            r == self@.nodes[i as int].alive,
    {
        self.nodes[i].alive
    }

    pub(crate) fn always(&self, i: usize) -> (r: bool)
        requires
            i < self@.nodes.len(),
        ensures
            r == self@.nodes[i as int].always,
    {
        self.nodes[i].always
    }

    pub(crate) fn owner(&self, i: usize) -> (r: usize)
        requires
            i < self@.nodes.len(),
        ensures
            r == self@.nodes[i as int].scope,
    {
        self.nodes[i].scope
    }

    pub(crate) fn value(&self, i: usize) -> (r: &Value)
        requires
            i < self@.nodes.len(),
        ensures
            r@ == self@.nodes[i as int].value,
    {
        &self.nodes[i].value
    }

    pub(crate) fn source_count(&self, i: usize) -> (r: usize)
        requires
            i < self@.nodes.len(),
        ensures
            r == self@.nodes[i as int].sources.len(),
    {
        self.nodes[i].sources.len()
    }

    pub(crate) fn source(&self, i: usize, k: usize) -> (r: usize)
        requires
            i < self@.nodes.len(),
            k < self@.nodes[i as int].sources.len(),
        ensures
            r == self@.nodes[i as int].sources[k as int],
    {
        self.nodes[i].sources[k]
    }

    pub(crate) fn saw(&self, i: usize, k: usize) -> (r: &Value)
        requires
            i < self@.nodes.len(),
            k < self@.nodes[i as int].seen.len(),
        ensures
            r@ == self@.nodes[i as int].seen[k as int],
    {
        &self.nodes[i].seen[k]
    }

    pub(crate) fn set_status(&mut self, i: usize, status: Status)
        requires
            i < old(self)@.nodes.len(),
        ensures
            final(self)@ == old(self)@.with_node(i as int, old(self)@.nodes[i as int].with_status(status)),
    {
        self.nodes[i].status = status;
        proof {
            assert(self@.nodes =~= old(self)@.nodes.update(
                i as int,
                old(self)@.nodes[i as int].with_status(status),
            ));
        }
    }

    pub(crate) fn store(&mut self, i: usize, value: Value)
        requires
            i < old(self)@.nodes.len(),
        ensures
            final(self)@ == old(self)@.with_node(i as int, old(self)@.nodes[i as int].with_value(value@)),
    {
        self.nodes[i].value = value;
        proof {
            assert(self@.nodes =~= old(self)@.nodes.update(
                i as int,
                old(self)@.nodes[i as int].with_value(value@),
            ));
        }
    }

    pub(crate) fn commit(&mut self, i: usize, out: Value, reads: Vec<usize>, seen: Vec<Value>)
        requires
            i < old(self)@.nodes.len(),
        ensures
            final(self)@ == old(self)@.with_node(
                i as int,
                old(self)@.nodes[i as int].ran(out@, reads@, views(seen@)),
            ),
    {
        let ghost runs = self.nodes[i as int].runs@;
        self.nodes[i].value = out;
        self.nodes[i].sources = reads;
        self.nodes[i].seen = seen;
        self.nodes[i].status = Status::Clean;
        self.nodes[i].runs = Ghost(runs + 1);
        proof {
            assert(self@.nodes =~= old(self)@.nodes.update(
                i as int,
                old(self)@.nodes[i as int].ran(out@, reads@, views(seen@)),
            ));
        }
    }

    pub(crate) fn retire(&mut self, i: usize)
        requires
            i < old(self)@.nodes.len(),
        ensures
            final(self)@ == old(self)@.with_node(i as int, old(self)@.nodes[i as int].retired()),
    {
        self.nodes[i].alive = false;
        self.nodes[i].sources = Vec::new();
        self.nodes[i].seen = Vec::new();
        self.nodes[i].status = Status::Clean;
        proof {
            assert(views(Seq::<Value>::empty()) =~= Seq::<ValueView>::empty());
            assert(self@.nodes =~= old(self)@.nodes.update(
                i as int,
                old(self)@.nodes[i as int].retired(),
            ));
        }
    }

    pub(crate) fn push_node(&mut self, kind: Kind, scope: usize, always: bool, value: Value, status: Status) -> (i: usize)
        ensures
            i == old(self)@.nodes.len(),
            final(self)@ == old(self)@.add_node(NodeState::fresh(kind, scope, always, value@, status)),
    {
        let i = self.nodes.len();
        self.nodes.push(
            Node {
                kind,
                scope,
                alive: true,
                always,
                value,
                status,
                sources: Vec::new(),
                seen: Vec::new(),
                runs: Ghost(0),
            },
        );
        proof {
            assert(views(Seq::<Value>::empty()) =~= Seq::<ValueView>::empty());
            assert(self@.nodes =~= old(self)@.nodes.push(
                NodeState::fresh(kind, scope, always, value@, status),
            ));
        }
        i
    }

    pub(crate) fn push_scope(&mut self, parent: Option<usize>) -> (c: usize)
        ensures
            c == old(self)@.scopes.len(),
            final(self)@ == old(self)@.add_scope(ScopeState { parent, disposed: false }),
    {
        let c = self.scopes.len();
        self.scopes.push(ScopeState { parent, disposed: false });
        proof {
            assert(self@.nodes =~= old(self)@.nodes);
        }
        c
    }

    pub(crate) fn close_scope(&mut self, c: usize)
        requires
            c < old(self)@.scopes.len(),
        ensures
            final(self)@ == old(self)@.close_scope(c as int),
    {
        let parent = self.scopes[c].parent;
        self.scopes.set(c, ScopeState { parent, disposed: true });
        proof {
            assert(self@.nodes =~= old(self)@.nodes);
            assert(self@.scopes =~= old(self)@.scopes.update(
                c as int,
                ScopeState { disposed: true, ..old(self)@.scopes[c as int] },
            ));
        }
    }
}

} // verus!
