//! A link that knows whether it points to the page that is shown: its
//! resolved target and its "is active" state are memos of the graph.

use vstd::prelude::*;
use crate::value::{Value, ValueView};
use crate::model::{Kind, Status, NodeState, Model, evolves, lemma_evolves_frame, recalled, kept_alive};
use crate::tracking::{Computation, ReactiveError, Tracker, noted};
use crate::runtime::{Runtime, Scope, Signal, Memo, Effect, scope_fault, in_reach};
use crate::text::{active, is_active};

verus! {

/// The diagnostic for a link that was not given exactly one child.
pub const CHILD_WARNING: &'static str =
    "[Link] Pass exactly one child to <A/>. If you want to pass more than one child, nest them within an element.";

/// A text that is either fixed or read from the graph whenever it is needed.
pub enum TextValue {
    /// Always the same text.
    Fixed(String),
    /// What the computation yields.
    Live(Box<dyn Computation>),
}

impl Computation for TextValue {
    open spec fn yields(
        &self,
        m: Model,
        current: int,
        before: Seq<usize>,
        reads: Seq<usize>,
        out: ValueView,
    ) -> bool {
        match self {
            TextValue::Fixed(text) => out == ValueView::Text(text@) && reads == before,
            TextValue::Live(body) => body.yields(m, current, before, reads, out),
        }
    }

    fn compute(&self, cx: &mut Tracker<'_>) -> (out: Value)
        ensures
            self matches TextValue::Fixed(text) ==> {
                &&& out@ == ValueView::Text(text@)
                &&& final(cx)@ == old(cx)@
                &&& final(cx).reads() == old(cx).reads()
                &&& final(cx).seen() == old(cx).seen()
            },
    {
        match self {
            TextValue::Fixed(text) => Value::Text(text.clone()),
            TextValue::Live(body) => body.compute(cx),
        }
    }
}

/// Describes a value that is either a static or a reactive URL: a
/// `String`, a `&str`, or a signal or a memo that holds a text.
pub trait TextProp {
    /// Whether the URL, evaluated as node `current` on graph `m` in a
    /// context that held the reads `before` and holds `reads` afterwards,
    /// can be `out`. A URL that does not say is taken to be anything.
    open spec fn text(
        &self,
        m: Model,
        current: int,
        before: Seq<usize>,
        reads: Seq<usize>,
        out: ValueView,
    ) -> bool {
        true
    }

    /// Converts the (static or reactive) URL into a value that can be
    /// evaluated to return the URL.
    fn to_value(&self) -> (value: TextValue)
        ensures
            forall|m: Model, current: int, before: Seq<usize>, reads: Seq<usize>, out: ValueView| #[trigger]
                value.yields(m, current, before, reads, out) == self.text(m, current, before, reads, out),
    ;
}

impl<'a> TextProp for &'a str {
    open spec fn text(
        &self,
        m: Model,
        current: int,
        before: Seq<usize>,
        reads: Seq<usize>,
        out: ValueView,
    ) -> bool {
        out == ValueView::Text(self@) && reads == before
    }

    fn to_value(&self) -> (text: TextValue)
        ensures
            text matches TextValue::Fixed(s) && s@ == self@,
    {
        TextValue::Fixed(String::from_str(*self))
    }
}

impl TextProp for String {
    open spec fn text(
        &self,
        m: Model,
        current: int,
        before: Seq<usize>,
        reads: Seq<usize>,
        out: ValueView,
    ) -> bool {
        out == ValueView::Text(self@) && reads == before
    }

    fn to_value(&self) -> (text: TextValue)
        ensures
            text matches TextValue::Fixed(s) && s@ == self@,
    {
        TextValue::Fixed(self.clone())
    }
}

impl TextProp for Signal {
    open spec fn text(
        &self,
        m: Model,
        current: int,
        before: Seq<usize>,
        reads: Seq<usize>,
        out: ValueView,
    ) -> bool {
        self.yields(m, current, before, reads, out)
    }

    fn to_value(&self) -> (text: TextValue)
        ensures
            text matches TextValue::Live(body) && forall|
                m: Model,
                current: int,
                before: Seq<usize>,
                reads: Seq<usize>,
                out: ValueView,
            | #[trigger]
                body.yields(m, current, before, reads, out) == self.yields(m, current, before, reads, out),
    {
        TextValue::Live(Box::new(*self))
    }
}

impl TextProp for Memo {
    open spec fn text(
        &self,
        m: Model,
        current: int,
        before: Seq<usize>,
        reads: Seq<usize>,
        out: ValueView,
    ) -> bool {
        self.yields(m, current, before, reads, out)
    }

    fn to_value(&self) -> (text: TextValue)
        ensures
            text matches TextValue::Live(body) && forall|
                m: Model,
                current: int,
                before: Seq<usize>,
                reads: Seq<usize>,
                out: ValueView,
            | #[trigger]
                body.yields(m, current, before, reads, out) == self.yields(m, current, before, reads, out),
    {
        TextValue::Live(Box::new(*self))
    }
}

/// What the router hands to a link: the signal that holds the pathname of
/// the current location, and, inside a route, the signal that holds the
/// path of that route. The router owns and writes both; a link only reads.
#[derive(Clone, Copy, Debug, PartialEq, Eq, Structural)]
pub struct Route {
    pub pathname: Signal,
    pub base: Option<Signal>,
}

/// The target `href` as seen from the route at `base`: a target that
/// begins with `/` stands for itself, any other is appended to the base,
/// with one `/` between them.
pub open spec fn resolved(base: Seq<char>, href: Seq<char>) -> Seq<char> {
    if href.len() > 0 && href[0] == '/' {
        href
    } else if base.len() > 0 && base.last() == '/' {
        base + href
    } else {
        base + seq!['/'] + href
    }
}

/// Resolves `href` relative to the route at `base`.
pub fn resolve_path(base: &str, href: &str) -> (r: String)
    ensures
        r@ == resolved(base@, href@),
{
    let n = href.unicode_len();
    if n > 0 && href.get_char(0) == '/' {
        return String::from_str(href);
    }
    let m = base.unicode_len();
    if m > 0 && base.get_char(m - 1) == '/' {
        String::from_str(base).concat(href)
    } else {
        proof {
            reveal_strlit("/");
            assert("/"@ =~= seq!['/']);
        }
        String::from_str(base).concat("/").concat(href)
    }
}

/// The resolved target as a value: a text where both the target and the
/// base of the route are texts, absent otherwise.
pub open spec fn resolved_value(base: Option<ValueView>, href: ValueView) -> ValueView {
    match (base, href) {
        (Some(ValueView::Text(b)), ValueView::Text(h)) => ValueView::Text(resolved(b, h)),
        _ => ValueView::Absent,
    }
}

/// Resolves a target that was read from the graph. Outside any route, or
/// where the target or the base is no text, there is no resolved target.
pub fn resolve_value(base: Option<&Value>, href: &Value) -> (r: Value)
    ensures
        r@ == resolved_value(
            match base {
                Some(b) => Some(b@),
                None => None,
            },
            href@,
        ),
{
    match base {
        Some(Value::Text(b)) => match href {
            Value::Text(h) => Value::Text(resolve_path(b.as_str(), h.as_str())),
            _ => Value::Absent,
        },
        _ => Value::Absent,
    }
}

/// The text of a value, if it is one.
pub open spec fn text_of(v: ValueView) -> Option<Seq<char>> {
    match v {
        ValueView::Text(s) => Some(s),
        _ => None,
    }
}

/// Whether a link is active, as a value: `Flag(true)` where the resolved
/// target and the location are texts and the link is active, `Flag(false)`
/// in every other case.
pub open spec fn active_value(to: ValueView, location: ValueView, exact: bool) -> ValueView {
    match location {
        ValueView::Text(l) => ValueView::Flag(active(text_of(to), l, exact)),
        _ => ValueView::Flag(false),
    }
}

/// Decides whether a link is active from what was read from the graph.
pub fn activity(to: &Value, location: &Value, exact: bool) -> (r: Value)
    ensures
        r@ == active_value(to@, location@, exact),
{
    match location {
        Value::Text(l) => match to {
            Value::Text(t) => Value::Flag(is_active(Some(t.as_str()), l.as_str(), exact)),
            _ => Value::Flag(false),
        },
        _ => Value::Flag(false),
    }
}

/// The body of the memo that holds the resolved target of a link.
pub struct ResolvedHref {
    pub href: TextValue,
    pub base: Option<Signal>,
}

/// What the memo of a fixed target holds: the target resolved against the
/// base of the route, absent outside any route.
pub open spec fn target_state(m: Model, current: int, href: Seq<char>, base: Option<Signal>) -> ValueView {
    match base {
        Some(b) => if in_reach(m, b.id, Kind::Signal, current) {
            resolved_value(Some(m.nodes[b.id as int].value), ValueView::Text(href))
        } else {
            ValueView::Absent
        },
        None => ValueView::Absent,
    }
}

impl Computation for ResolvedHref {
    open spec fn yields(
        &self,
        m: Model,
        current: int,
        before: Seq<usize>,
        reads: Seq<usize>,
        out: ValueView,
    ) -> bool {
        match self.base {
            Some(b) => exists|part: Seq<usize>, href: ValueView|
                {
                    &&& #[trigger] self.href.yields(m, current, before, part, href)
                    &&& reads == noted(part, b.id, in_reach(m, b.id, Kind::Signal, current))
                    &&& out == if in_reach(m, b.id, Kind::Signal, current) {
                        resolved_value(Some(m.nodes[b.id as int].value), href)
                    } else {
                        ValueView::Absent
                    }
                },
            None => out == ValueView::Absent && reads == before,
        }
    }

    fn compute(&self, cx: &mut Tracker<'_>) -> (out: Value)
        ensures
            self.base is None ==> final(cx)@ == old(cx)@ && final(cx).reads() == old(cx).reads(),
            self.href matches TextValue::Fixed(t) ==> out@ == target_state(
                final(cx)@,
                final(cx).current(),
                t@,
                self.base,
            ),
    {
        match self.base {
            None => Value::Absent,
            Some(base) => {
                let href = self.href.compute(cx);
                match base.read(cx) {
                    Ok(b) => resolve_value(Some(&b), &href),
                    Err(_) => Value::Absent,
                }
            },
        }
    }
}

/// The body of the memo that tells whether a link is active. It reads the
/// resolved target and, only where there is one, the location.
pub struct ActiveLink {
    pub href: Memo,
    pub pathname: Signal,
    pub exact: bool,
}

/// What the memo of a link's activity holds: the comparison of the resolved
/// target with the location, and `Flag(false)` where either cannot be read.
pub open spec fn link_state(m: Model, current: int, href: Memo, pathname: Signal, exact: bool) -> ValueView {
    if in_reach(m, href.id, Kind::Memo, current) && in_reach(m, pathname.id, Kind::Signal, current) {
        active_value(m.nodes[href.id as int].value, m.nodes[pathname.id as int].value, exact)
    } else {
        ValueView::Flag(false)
    }
}

/// What the body of a link's activity yields: the state of the link, read
/// from the resolved target and, where that is a text, from the location.
pub open spec fn link_yields(
    href: Memo,
    pathname: Signal,
    exact: bool,
    m: Model,
    current: int,
    before: Seq<usize>,
    reads: Seq<usize>,
    out: ValueView,
) -> bool {
    let first = noted(before, href.id, in_reach(m, href.id, Kind::Memo, current));
    &&& out == link_state(m, current, href, pathname, exact)
    &&& reads == if in_reach(m, href.id, Kind::Memo, current) && m.nodes[href.id as int].value is Text {
        noted(first, pathname.id, in_reach(m, pathname.id, Kind::Signal, current))
    } else {
        first
    }
}

/// What the body of a link's resolved target yields, for a target `href`:
/// the target resolved against the base of the route, read from the route;
/// absent outside any route.
pub open spec fn target_yields<H: TextProp>(
    href: H,
    base: Option<Signal>,
    m: Model,
    current: int,
    before: Seq<usize>,
    reads: Seq<usize>,
    out: ValueView,
) -> bool {
    match base {
        Some(b) => exists|part: Seq<usize>, text: ValueView|
            {
                &&& #[trigger] href.text(m, current, before, part, text)
                &&& reads == noted(part, b.id, in_reach(m, b.id, Kind::Signal, current))
                &&& out == if in_reach(m, b.id, Kind::Signal, current) {
                    resolved_value(Some(m.nodes[b.id as int].value), text)
                } else {
                    ValueView::Absent
                }
            },
        None => out == ValueView::Absent && reads == before,
    }
}

impl Computation for ActiveLink {
    open spec fn yields(
        &self,
        m: Model,
        current: int,
        before: Seq<usize>,
        reads: Seq<usize>,
        out: ValueView,
    ) -> bool {
        link_yields(self.href, self.pathname, self.exact, m, current, before, reads, out)
    }

    fn compute(&self, cx: &mut Tracker<'_>) -> (out: Value)
    {
        proof {
            cx.lemma_wf();
        }
        let ghost start = cx@;
        match self.href.read(cx) {
            Ok(Value::Text(to)) => {
                proof {
                    lemma_evolves_frame(start, cx@);
                }
                match self.pathname.read(cx) {
                    Ok(location) => activity(&Value::Text(to), &location, self.exact),
                    Err(_) => Value::Flag(false),
                }
            },
            _ => {
                proof {
                    lemma_evolves_frame(start, cx@);
                }
                Value::Flag(false)
            },
        }
    }
}

/// The activity of a link is current. Where the memo of a link's activity
/// is clean, and the resolved target and the location can be read, its value
/// is the comparison of what the two hold now, and the resolved target is
/// clean too: never a comparison with an older location.
pub proof fn lemma_link_active(rt: &Runtime, me: Memo, href: Memo, pathname: Signal, exact: bool)
    requires
        rt.wf(),
        forall|g: Model, reads: Seq<usize>, out: ValueView| #[trigger]
            rt.computes(me.id as int, g, reads, out) == link_yields(
                href,
                pathname,
                exact,
                g,
                me.id as int,
                Seq::empty(),
                reads,
                out,
            ),
        rt@.node_live(me.id as int, Kind::Memo),
        rt@.nodes[me.id as int].status == Status::Clean,
        in_reach(rt@, href.id, Kind::Memo, me.id as int),
        in_reach(rt@, pathname.id, Kind::Signal, me.id as int),
    ensures
        rt@.nodes[me.id as int].value == active_value(
            rt@.nodes[href.id as int].value,
            rt@.nodes[pathname.id as int].value,
            exact,
        ),
        rt@.nodes[href.id as int].status == Status::Clean,
{
    let m = rt@;
    let i = me.id as int;
    rt.lemma_wf();
    assert(m.node_ok(i));
    let g = rt.lemma_backs(i, m);
    let srcs = m.nodes[i].sources;
    assert(link_yields(href, pathname, exact, g, i, Seq::empty(), srcs, m.nodes[i].value));
    assert(m.consistent(i));
    assert(kept_alive(m, g, href.id as int));
    assert(kept_alive(m, g, pathname.id as int));
    let first = Seq::<usize>::empty().push(href.id);
    assert(first[0] == href.id);
    assert(srcs[0] == href.id);
    assert(recalled(m, i, g, 0));
    assert(m.agrees(i, 0));
    if g.nodes[href.id as int].value is Text {
        assert(srcs == first.push(pathname.id));
        assert(srcs[1] == pathname.id);
        assert(recalled(m, i, g, 1));
        assert(m.agrees(i, 1));
    }
}

/// The resolved target of a link is current. Where the memo of the target
/// is clean and the target is the fixed text `fixed`, its value is that text
/// resolved against what the base of the route holds now; outside any route
/// it is absent.
pub proof fn lemma_link_target<H: TextProp>(rt: &Runtime, me: Memo, href: H, base: Option<Signal>, fixed: Seq<char>)
    requires
        rt.wf(),
        forall|g: Model, reads: Seq<usize>, out: ValueView| #[trigger]
            rt.computes(me.id as int, g, reads, out) == target_yields(href, base, g, me.id as int, Seq::empty(), reads, out),
        forall|m: Model, current: int, before: Seq<usize>, reads: Seq<usize>, out: ValueView| #[trigger]
            href.text(m, current, before, reads, out) == (out == ValueView::Text(fixed) && reads == before),
        rt@.node_live(me.id as int, Kind::Memo),
        rt@.nodes[me.id as int].status == Status::Clean,
        base matches Some(b) ==> in_reach(rt@, b.id, Kind::Signal, me.id as int),
    ensures
        rt@.nodes[me.id as int].value == match base {
            Some(b) => resolved_value(Some(rt@.nodes[b.id as int].value), ValueView::Text(fixed)),
            None => ValueView::Absent,
        },
{
    let m = rt@;
    let i = me.id as int;
    rt.lemma_wf();
    assert(m.node_ok(i));
    let g = rt.lemma_backs(i, m);
    let srcs = m.nodes[i].sources;
    assert(target_yields(href, base, g, i, Seq::empty(), srcs, m.nodes[i].value));
    assert(m.consistent(i));
    if let Some(b) = base {
        assert(kept_alive(m, g, b.id as int));
        assert(srcs == Seq::<usize>::empty().push(b.id));
        assert(srcs[0] == b.id);
        assert(recalled(m, i, g, 0));
        assert(m.agrees(i, 0));
    }
}

/// The rule of a link. For a link with the fixed target `fixed` inside a
/// route, whose activity memo is clean: it is active exactly when the
/// location that is shown now matches the target, resolved against the base
/// that the route has now.
pub proof fn lemma_link_rule<H: TextProp>(
    rt: &Runtime,
    href: Memo,
    is_active: Memo,
    target: H,
    fixed: Seq<char>,
    base: Signal,
    pathname: Signal,
    exact: bool,
)
    requires
        rt.wf(),
        forall|g: Model, reads: Seq<usize>, out: ValueView| #[trigger]
            rt.computes(href.id as int, g, reads, out) == target_yields(
                target,
                Some(base),
                g,
                href.id as int,
                Seq::empty(),
                reads,
                out,
            ),
        forall|g: Model, reads: Seq<usize>, out: ValueView| #[trigger]
            rt.computes(is_active.id as int, g, reads, out) == link_yields(
                href,
                pathname,
                exact,
                g,
                is_active.id as int,
                Seq::empty(),
                reads,
                out,
            ),
        forall|m: Model, current: int, before: Seq<usize>, reads: Seq<usize>, out: ValueView| #[trigger]
            target.text(m, current, before, reads, out) == (out == ValueView::Text(fixed) && reads == before),
        rt@.node_live(is_active.id as int, Kind::Memo),
        rt@.nodes[is_active.id as int].status == Status::Clean,
        in_reach(rt@, href.id, Kind::Memo, is_active.id as int),
        in_reach(rt@, pathname.id, Kind::Signal, is_active.id as int),
        in_reach(rt@, base.id, Kind::Signal, href.id as int),
        rt@.nodes[base.id as int].value is Text,
        rt@.nodes[pathname.id as int].value is Text,
    ensures
        rt@.nodes[is_active.id as int].value == ValueView::Flag(
            active(
                Some(resolved(rt@.nodes[base.id as int].value->Text_0, fixed)),
                rt@.nodes[pathname.id as int].value->Text_0,
                exact,
            ),
        ),
        rt@.nodes[href.id as int].value == ValueView::Text(
            resolved(rt@.nodes[base.id as int].value->Text_0, fixed),
        ),
{
    lemma_link_active(rt, is_active, href, pathname, exact);
    lemma_link_target(rt, href, target, Some(base), fixed);
}

/// A link outside any route. Where the memo of the activity is clean, the
/// link has no resolved target, whatever the target, and is not active,
/// whatever the location: its `href` attribute is empty.
pub proof fn lemma_link_unresolved<H: TextProp>(
    rt: &Runtime,
    href: Memo,
    is_active: Memo,
    target: H,
    pathname: Signal,
    exact: bool,
)
    requires
        rt.wf(),
        forall|g: Model, reads: Seq<usize>, out: ValueView| #[trigger]
            rt.computes(href.id as int, g, reads, out) == target_yields(
                target,
                None,
                g,
                href.id as int,
                Seq::empty(),
                reads,
                out,
            ),
        forall|g: Model, reads: Seq<usize>, out: ValueView| #[trigger]
            rt.computes(is_active.id as int, g, reads, out) == link_yields(
                href,
                pathname,
                exact,
                g,
                is_active.id as int,
                Seq::empty(),
                reads,
                out,
            ),
        rt@.node_live(is_active.id as int, Kind::Memo),
        rt@.nodes[is_active.id as int].status == Status::Clean,
        in_reach(rt@, href.id, Kind::Memo, is_active.id as int),
        in_reach(rt@, pathname.id, Kind::Signal, is_active.id as int),
    ensures
        rt@.nodes[href.id as int].value == ValueView::Absent,
        rt@.nodes[is_active.id as int].value == ValueView::Flag(false),
        href_text(rt@.nodes[href.id as int].value) == Seq::<char>::empty(),
{
    lemma_link_active(rt, is_active, href, pathname, exact);
    let m = rt@;
    let i = href.id as int;
    rt.lemma_wf();
    assert(m.node_ok(i));
    let g = rt.lemma_backs(i, m);
    assert(target_yields(target, None, g, i, Seq::empty(), m.nodes[i].sources, m.nodes[i].value));
}

/// The change gate at a link. An effect whose body is the activity memo
/// of a link reads that memo and nothing else. So where a write to the
/// location leaves the activity as it was, the effect does not run again:
/// what is rendered from the activity is not rendered anew.
pub proof fn lemma_link_gate(rt: &Runtime, watcher: Effect, is_active: Memo, pathname: Signal, v: ValueView, b: Model)
    requires
        rt.wf(),
        forall|g: Model, reads: Seq<usize>, out: ValueView| #[trigger]
            rt.computes(watcher.id as int, g, reads, out) == is_active.yields(
                g,
                watcher.id as int,
                Seq::empty(),
                reads,
                out,
            ),
        rt@.node_live(watcher.id as int, Kind::Effect),
        rt@.node_live(pathname.id as int, Kind::Signal),
        evolves(rt@.written(pathname.id as int, v), b),
        b.nodes[is_active.id as int].value == rt@.nodes[is_active.id as int].value,
    ensures
        b.nodes[watcher.id as int].runs == rt@.nodes[watcher.id as int].runs,
        b.nodes[watcher.id as int].value == rt@.nodes[watcher.id as int].value,
{
    let m = rt@;
    let i = watcher.id as int;
    rt.lemma_wf();
    assert(m.node_ok(i));
    let g = rt.lemma_backs(i, m);
    let srcs = m.nodes[i].sources;
    assert(is_active.yields(g, i, Seq::empty(), srcs, m.nodes[i].value));
    if srcs.len() > 0 {
        assert(srcs == Seq::<usize>::empty().push(is_active.id));
        assert(srcs[0] == is_active.id);
        assert(kept_alive(m, g, is_active.id as int));
    }
    assert(!srcs.contains(pathname.id));
    crate::laws::lemma_change_gate(m, pathname.id as int, v, b, i);
}

/// Properties that can be passed to the [`A`] component, an HTML `a`
/// progressively enhanced to use client-side routing.
pub struct AProps<C, H: TextProp> {
    /// Used to calculate the link's `href` attribute. Will be resolved
    /// relative to the current route.
    pub href: H,
    /// If `true`, the link is marked active when the location matches
    /// exactly; if false, link is marked active if the current route starts
    /// with it.
    pub exact: bool,
    /// A value that will be pushed to router state.
    pub state: Option<Value>,
    /// If `true`, the link will not add to the browser's history (so,
    /// pressing `Back` will skip this page.)
    pub replace: bool,
    /// Sets the `class` attribute on the underlying `<a>` tag, making it
    /// easier to style.
    pub class: Option<TextValue>,
    /// The nodes or elements to be shown inside the link.
    pub children: Vec<C>,
}

/// What a link is made of, for the layer that renders it.
pub struct Anchor<C> {
    /// The memo of the resolved target: a text, or absent.
    pub href: Memo,
    /// The memo that tells whether the link is active: a flag.
    pub is_active: Memo,
    pub state: Option<Value>,
    pub replace: bool,
    pub class: Option<TextValue>,
    /// The one child that is rendered: the first that was given.
    pub child: Option<C>,
    /// Whether [`CHILD_WARNING`] is due: the link was not given exactly one child.
    pub warning: bool,
}

impl<C> Anchor<C> {
    /// The resolved target at this moment: none where the target cannot be
    /// resolved, or where the link has been disposed.
    pub fn resolved_href(&self, rt: &mut Runtime) -> (r: Option<String>)
        requires
            old(rt).wf(),
        ensures
            final(rt).wf(),
            evolves(old(rt)@, final(rt)@),
            match r {
                Some(s) => {
                    &&& old(rt)@.node_live(self.href.id as int, Kind::Memo)
                    &&& final(rt)@.nodes[self.href.id as int].value == ValueView::Text(s@)
                },
                None => old(rt)@.node_live(self.href.id as int, Kind::Memo) ==> !(final(rt)@.nodes[self.href.id as int].value is Text),
            },
    {
        match self.href.get(rt) {
            Ok(Value::Text(s)) => Some(s),
            _ => None,
        }
    }

    /// Whether the link is active at this moment. A disposed link is not.
    pub fn active(&self, rt: &mut Runtime) -> (r: bool)
        requires
            old(rt).wf(),
        ensures
            final(rt).wf(),
            evolves(old(rt)@, final(rt)@),
            r == (old(rt)@.node_live(self.is_active.id as int, Kind::Memo) && final(rt)@.nodes[self.is_active.id as int].value
                == ValueView::Flag(true)),
    {
        match self.is_active.get(rt) {
            Ok(v) => v.is_true(),
            Err(_) => false,
        }
    }
}

/// The first of `children`, if there is any.
pub open spec fn first_child<C>(children: Seq<C>) -> Option<C> {
    if children.len() > 0 {
        Some(children[0])
    } else {
        None
    }
}

/// Picks the child that a link renders, and tells whether the diagnostic
/// is due: a link is to be given exactly one child. Given several it falls
/// back to the first; given none it renders none.
pub fn pick_child<C>(children: Vec<C>) -> (r: (Option<C>, bool))
    ensures
        r.0 == first_child(children@),
        r.1 == (children@.len() != 1),
{
    let mut children = children;
    let warning = children.len() != 1;
    if children.len() > 0 {
        let child = children.remove(0);
        (Some(child), warning)
    } else {
        (None, warning)
    }
}

/// The `href` attribute of a link: the resolved target, or the empty text
/// where there is none.
pub open spec fn href_text(v: ValueView) -> Seq<char> {
    match v {
        ValueView::Text(s) => s,
        _ => Seq::empty(),
    }
}

/// The `href` attribute for the value of the memo of a resolved target.
pub fn href_attribute(v: &Value) -> (r: String)
    ensures
        r@ == href_text(v@),
{
    match v {
        Value::Text(s) => s.clone(),
        _ => String::new(),
    }
}

/// The `aria-current` attribute of a link: `page` for the active link,
/// none for any other.
pub fn aria_current(is_active: &Value) -> (r: Option<&'static str>)
    ensures
        match r {
            Some(s) => is_active@ == ValueView::Flag(true) && s@ == "page"@,
            None => is_active@ != ValueView::Flag(true),
        },
{
    if is_active.is_true() {
        Some("page")
    } else {
        None
    }
}

/// An HTML `a` progressively enhanced to use client-side routing.
///
/// It resolves its target relative to the current route, and it knows
/// whether it is the active link, the link to the page that is shown, so
/// that the `aria-current` attribute can be set on it. Both are memos,
/// created in scope `cx`: the first of the target and the route, the second
/// of the first and of the location.
#[allow(non_snake_case)]
pub fn A<C, H: TextProp>(rt: &mut Runtime, cx: Scope, props: AProps<C, H>, route: Route) -> (r: Result<
    Anchor<C>,
    ReactiveError,
>)
    requires
        old(rt).wf(),
    ensures
        final(rt).wf(),
        match r {
            Ok(a) => {
                &&& old(rt)@.scope_live(cx.id as int)
                &&& a.href.id == old(rt)@.nodes.len()
                &&& a.is_active.id == old(rt)@.nodes.len() + 1
                &&& final(rt)@ == old(rt)@.add_node(
                    NodeState::fresh(Kind::Memo, cx.id, false, ValueView::Absent, Status::Dirty),
                ).add_node(NodeState::fresh(Kind::Memo, cx.id, false, ValueView::Absent, Status::Dirty))
                &&& forall|i: int, g: Model, reads: Seq<usize>, out: ValueView|
                    i != a.href.id && i != a.is_active.id ==> #[trigger] final(rt).computes(i, g, reads, out) == old(
                        rt,
                    ).computes(i, g, reads, out)
                &&& forall|g: Model, reads: Seq<usize>, out: ValueView| #[trigger]
                    final(rt).computes(a.href.id as int, g, reads, out) == target_yields(
                        props.href,
                        route.base,
                        g,
                        a.href.id as int,
                        Seq::empty(),
                        reads,
                        out,
                    )
                &&& forall|g: Model, reads: Seq<usize>, out: ValueView| #[trigger]
                    final(rt).computes(a.is_active.id as int, g, reads, out) == link_yields(
                        a.href,
                        route.pathname,
                        props.exact,
                        g,
                        a.is_active.id as int,
                        Seq::empty(),
                        reads,
                        out,
                    )
                &&& a.child == first_child(props.children@)
                &&& a.warning == (props.children@.len() != 1)
                &&& a.state == props.state
                &&& a.replace == props.replace
                &&& a.class == props.class
            },
            Err(e) => {
                &&& !old(rt)@.scope_live(cx.id as int)
                &&& e == scope_fault(old(rt)@, cx.id as int)
                &&& final(rt)@ == old(rt)@
            },
        },
{
    let AProps { href, exact, state, replace, class, children } = props;
    let target = ResolvedHref { href: href.to_value(), base: route.base };
    let ghost target_spec = target;
    let href = match rt.create_memo(cx, target) {
        Ok(m) => m,
        Err(e) => {
            return Err(e);
        },
    };
    proof {
        let at = href.id as int;
        let none = Seq::<usize>::empty();
        assert forall|g: Model, reads: Seq<usize>, out: ValueView| #[trigger]
            target_spec.yields(g, at, none, reads, out) == target_yields(
                props.href,
                route.base,
                g,
                at,
                none,
                reads,
                out,
            ) by {
            if let Some(b) = route.base {
                if target_spec.yields(g, at, none, reads, out) {
                    let (part, text) = choose|part: Seq<usize>, text: ValueView|
                        {
                            &&& #[trigger] target_spec.href.yields(g, at, none, part, text)
                            &&& reads == noted(part, b.id, in_reach(g, b.id, Kind::Signal, at))
                            &&& out == if in_reach(g, b.id, Kind::Signal, at) {
                                resolved_value(Some(g.nodes[b.id as int].value), text)
                            } else {
                                ValueView::Absent
                            }
                        };
                    assert(props.href.text(g, at, none, part, text));
                }
                if target_yields(props.href, route.base, g, at, none, reads, out) {
                    let (part, text) = choose|part: Seq<usize>, text: ValueView|
                        {
                            &&& #[trigger] props.href.text(g, at, none, part, text)
                            &&& reads == noted(part, b.id, in_reach(g, b.id, Kind::Signal, at))
                            &&& out == if in_reach(g, b.id, Kind::Signal, at) {
                                resolved_value(Some(g.nodes[b.id as int].value), text)
                            } else {
                                ValueView::Absent
                            }
                        };
                    assert(target_spec.href.yields(g, at, none, part, text));
                }
            }
        }
    }
    let link = ActiveLink { href, pathname: route.pathname, exact };
    let is_active = match rt.create_memo(cx, link) {
        Ok(m) => m,
        Err(e) => {
            return Err(e);
        },
    };
    let (child, warning) = pick_child(children);
    Ok(Anchor { href, is_active, state, replace, class, child, warning })
}

} // verus!
