//! A single class of an element, present or not: fixed, or decided anew by
//! a computation whenever it is rendered.

use vstd::prelude::*;
use crate::value::{Value, ValueView};
use crate::model::{Kind, Model, kept_alive, recalled};
use crate::tracking::{Computation, Held, Tracker, covers};
use crate::runtime::{Effect, Runtime, Scope, Signal, in_reach};

verus! {

/// The values that a single class of an element can have.
pub enum Class {
    /// Whether the class is present.
    Value(bool),
    /// A computation that is run, inside an effect, to toggle the class:
    /// the class is present when it yields `Flag(true)`.
    Fn(Box<dyn Computation>),
}

/// Converts some type into a [`Class`].
pub trait IntoClass {
    /// Converts the object into a [`Class`].
    fn into_class(self, cx: Scope) -> Class;
}

impl IntoClass for bool {
    fn into_class(self, _cx: Scope) -> (class: Class)
        ensures
            class matches Class::Value(present) && present == self,
    {
        Class::Value(self)
    }
}

impl<T: Computation + 'static> IntoClass for T {
    /// The class that is toggled by this computation: its body yields
    /// exactly what the computation yields.
    fn into_class(self, _cx: Scope) -> (class: Class)
        ensures
            class matches Class::Fn(body) && forall|
                m: Model,
                current: int,
                before: Seq<usize>,
                reads: Seq<usize>,
                out: ValueView,
            | #[trigger]
                body.yields(m, current, before, reads, out) == self.yields(m, current, before, reads, out),
    {
        Class::Fn(Box::new(Held { body: self }))
    }
}

/// What a class contributes to the rendered attribute: its name if it is
/// present, nothing if it is not.
pub open spec fn class_text(present: bool, class_name: Seq<char>) -> Seq<char> {
    if present {
        class_name
    } else {
        Seq::empty()
    }
}

/// The text of a class whose presence is known.
pub fn class_value(present: bool, class_name: &'static str) -> (r: &'static str)
    ensures
        r@ == class_text(present, class_name@),
{
    if present {
        class_name
    } else {
        proof {
            reveal_strlit("");
        }
        ""
    }
}

impl Class {
    /// The text of the class at this moment. A computed class is evaluated
    /// once, through `cx`, so whatever it reads is read by the computation
    /// that renders.
    pub fn as_value_string(&self, cx: &mut Tracker<'_>, class_name: &'static str) -> (r: &'static str)
        requires
            old(cx).wf(),
        ensures
            final(cx).wf(),
            final(cx).current() == old(cx).current(),
            final(cx).origin() == old(cx).origin(),
            covers(final(cx).reads(), old(cx).reads()),
            match self {
                Class::Value(present) => {
                    &&& r@ == class_text(*present, class_name@)
                    &&& final(cx)@ == old(cx)@
                    &&& final(cx).reads() == old(cx).reads()
                    &&& final(cx).seen() == old(cx).seen()
                },
                Class::Fn(body) => exists|v: ValueView| #[trigger]
                    body.yields(final(cx)@, final(cx).current(), old(cx).reads(), final(cx).reads(), v) && r@
                        == class_text(
                        v == ValueView::Flag(true),
                        class_name@,
                    ),
            },
    {
        match self {
            Class::Value(value) => class_value(*value, class_name),
            Class::Fn(f) => {
                let value = f.compute(cx);
                class_value(value.is_true(), class_name)
            },
        }
    }
}

/// A class kept live: as the body of an effect it renders the class anew
/// whenever something that the class reads has changed. The output of the
/// effect is the text of the class.
pub struct ClassBinding {
    pub class: Class,
    pub class_name: &'static str,
}

impl Computation for ClassBinding {
    open spec fn yields(
        &self,
        m: Model,
        current: int,
        before: Seq<usize>,
        reads: Seq<usize>,
        out: ValueView,
    ) -> bool {
        match self.class {
            Class::Value(present) => out == ValueView::Text(class_text(present, self.class_name@)) && reads
                == before,
            Class::Fn(body) => exists|v: ValueView| #[trigger]
                body.yields(m, current, before, reads, v) && out == ValueView::Text(
                    class_text(v == ValueView::Flag(true), self.class_name@),
                ),
        }
    }

    fn compute(&self, cx: &mut Tracker<'_>) -> (out: Value)
    {
        Value::Text(String::from_str(self.class.as_value_string(cx, self.class_name)))
    }
}

/// A live class is current. Where a class that is toggled by signal
/// `flag` is kept live by effect `me`, the output of the effect is, between
/// any two operations, the text of the class for what the signal holds now:
/// after a write to the signal nothing has to be invoked for it.
pub proof fn lemma_class_shows(rt: &Runtime, me: Effect, binding: ClassBinding, flag: Signal)
    requires
        rt.wf(),
        forall|g: Model, reads: Seq<usize>, out: ValueView| #[trigger]
            rt.computes(me.id as int, g, reads, out) == binding.yields(g, me.id as int, Seq::empty(), reads, out),
        binding.class matches Class::Fn(body) && forall|
            m: Model,
            current: int,
            before: Seq<usize>,
            reads: Seq<usize>,
            out: ValueView,
        | #[trigger]
            body.yields(m, current, before, reads, out) == flag.yields(m, current, before, reads, out),
        rt@.node_live(me.id as int, Kind::Effect),
        in_reach(rt@, flag.id, Kind::Signal, me.id as int),
    ensures
        rt@.nodes[me.id as int].value == ValueView::Text(
            class_text(rt@.nodes[flag.id as int].value == ValueView::Flag(true), binding.class_name@),
        ),
{
    let m = rt@;
    let i = me.id as int;
    rt.lemma_wf();
    assert(m.node_ok(i));
    let g = rt.lemma_backs(i, m);
    let srcs = m.nodes[i].sources;
    assert(binding.yields(g, i, Seq::empty(), srcs, m.nodes[i].value));
    assert(m.consistent(i));
    assert(kept_alive(m, g, flag.id as int));
    assert(srcs == Seq::<usize>::empty().push(flag.id));
    assert(srcs[0] == flag.id);
    let k = 0int;
    assert(recalled(m, i, g, k));
    assert(m.agrees(i, k));
}

} // verus!
