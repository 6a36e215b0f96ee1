use std::cell::Cell;
use std::rc::Rc;

use reactive_link::runtime::{Effect, Memo, Notify, Runtime, Scope, Signal};
use reactive_link::tracking::{Computation, ReactiveError, Tracker};
use reactive_link::value::Value;

/// Counts its runs and yields the sum of the counters it reads.
struct Sum {
    runs: Rc<Cell<u32>>,
    signals: Vec<Signal>,
    memos: Vec<Memo>,
}

fn count_of(v: Result<Value, ReactiveError>) -> u64 {
    match v {
        Ok(Value::Count(n)) => n,
        _ => 0,
    }
}

impl Computation for Sum {
    fn compute(&self, cx: &mut Tracker<'_>) -> Value {
        self.runs.set(self.runs.get() + 1);
        let mut total = 0;
        for s in &self.signals {
            total += count_of(s.read(cx));
        }
        for m in &self.memos {
            total += count_of(m.read(cx));
        }
        Value::Count(total)
    }
}

/// Counts its runs and yields the smaller of a limit and the counter it reads.
struct AtMost {
    runs: Rc<Cell<u32>>,
    source: Signal,
    limit: u64,
}

impl Computation for AtMost {
    fn compute(&self, cx: &mut Tracker<'_>) -> Value {
        self.runs.set(self.runs.get() + 1);
        Value::Count(count_of(self.source.read(cx)).min(self.limit))
    }
}

/// Reads `second` only while `first` holds a true flag.
struct Guarded {
    runs: Rc<Cell<u32>>,
    first: Signal,
    second: Signal,
}

impl Computation for Guarded {
    fn compute(&self, cx: &mut Tracker<'_>) -> Value {
        self.runs.set(self.runs.get() + 1);
        match self.first.read(cx) {
            Ok(Value::Flag(true)) => self.second.read(cx).unwrap_or(Value::Absent),
            _ => Value::Absent,
        }
    }
}

fn counter() -> Rc<Cell<u32>> {
    Rc::new(Cell::new(0))
}

fn sum(runs: &Rc<Cell<u32>>, signals: &[Signal], memos: &[Memo]) -> Sum {
    Sum { runs: runs.clone(), signals: signals.to_vec(), memos: memos.to_vec() }
}

fn setup() -> (Runtime, Scope) {
    let mut rt = Runtime::new();
    let scope = rt.create_scope();
    (rt, scope)
}

#[test]
fn signal_holds_what_was_set() {
    let (mut rt, scope) = setup();
    let s = rt.create_signal(scope, Value::Count(1), Notify::Always).unwrap();
    assert_eq!(s.get(&rt), Ok(Value::Count(1)));
    assert_eq!(s.set(&mut rt, Value::Text("x".to_string())), Ok(()));
    assert_eq!(s.get(&rt), Ok(Value::Text("x".to_string())));
}

#[test]
fn memo_is_lazy_and_cached() {
    let (mut rt, scope) = setup();
    let s = rt.create_signal(scope, Value::Count(2), Notify::Always).unwrap();
    let runs = counter();
    let m = rt.create_memo(scope, sum(&runs, &[s], &[])).unwrap();
    assert_eq!(runs.get(), 0);
    assert_eq!(m.get(&mut rt), Ok(Value::Count(2)));
    assert_eq!(m.get(&mut rt), Ok(Value::Count(2)));
    assert_eq!(runs.get(), 1);
    s.set(&mut rt, Value::Count(5)).unwrap();
    assert_eq!(runs.get(), 1);
    assert_eq!(m.get(&mut rt), Ok(Value::Count(5)));
    assert_eq!(m.get(&mut rt), Ok(Value::Count(5)));
    assert_eq!(runs.get(), 2);
}

#[test]
fn diamond_recomputes_once_per_set() {
    let (mut rt, scope) = setup();
    let s = rt.create_signal(scope, Value::Count(1), Notify::Always).unwrap();
    let (left_runs, right_runs, join_runs) = (counter(), counter(), counter());
    let left = rt.create_memo(scope, sum(&left_runs, &[s], &[])).unwrap();
    let right = rt.create_memo(scope, sum(&right_runs, &[s, s], &[])).unwrap();
    let join = rt.create_memo(scope, sum(&join_runs, &[], &[left, right])).unwrap();
    assert_eq!(join.get(&mut rt), Ok(Value::Count(3)));
    assert_eq!((left_runs.get(), right_runs.get(), join_runs.get()), (1, 1, 1));
    s.set(&mut rt, Value::Count(10)).unwrap();
    assert_eq!(join.get(&mut rt), Ok(Value::Count(30)));
    assert_eq!(join.get(&mut rt), Ok(Value::Count(30)));
    assert_eq!((left_runs.get(), right_runs.get(), join_runs.get()), (2, 2, 2));
}

#[test]
fn diamond_effect_runs_once_per_set() {
    let (mut rt, scope) = setup();
    let s = rt.create_signal(scope, Value::Count(1), Notify::Always).unwrap();
    let (left_runs, right_runs, effect_runs) = (counter(), counter(), counter());
    let left = rt.create_memo(scope, sum(&left_runs, &[s], &[])).unwrap();
    let right = rt.create_memo(scope, sum(&right_runs, &[s], &[])).unwrap();
    let e = rt.create_effect(scope, sum(&effect_runs, &[], &[left, right])).unwrap();
    assert_eq!(effect_runs.get(), 1);
    assert_eq!(e.output(&rt), Ok(Value::Count(2)));
    s.set(&mut rt, Value::Count(4)).unwrap();
    assert_eq!(e.output(&rt), Ok(Value::Count(8)));
    assert_eq!((left_runs.get(), right_runs.get(), effect_runs.get()), (2, 2, 2));
}

#[test]
fn unchanged_memo_stops_the_propagation() {
    let (mut rt, scope) = setup();
    let a = rt.create_signal(scope, Value::Count(20), Notify::Always).unwrap();
    let (b_runs, c_runs, d_runs) = (counter(), counter(), counter());
    let b = rt
        .create_memo(scope, AtMost { runs: b_runs.clone(), source: a, limit: 10 })
        .unwrap();
    let d = rt.create_memo(scope, sum(&d_runs, &[], &[b])).unwrap();
    let c = rt.create_effect(scope, sum(&c_runs, &[], &[b])).unwrap();
    assert_eq!(d.get(&mut rt), Ok(Value::Count(10)));
    assert_eq!((b_runs.get(), c_runs.get(), d_runs.get()), (1, 1, 1));
    a.set(&mut rt, Value::Count(30)).unwrap();
    assert_eq!(b_runs.get(), 2);
    assert_eq!(c_runs.get(), 1);
    assert_eq!(d.get(&mut rt), Ok(Value::Count(10)));
    assert_eq!(d_runs.get(), 1);
    assert_eq!(c.output(&rt), Ok(Value::Count(10)));
    a.set(&mut rt, Value::Count(3)).unwrap();
    assert_eq!((b_runs.get(), c_runs.get()), (3, 2));
    assert_eq!(c.output(&rt), Ok(Value::Count(3)));
    assert_eq!(d.get(&mut rt), Ok(Value::Count(3)));
    assert_eq!(d_runs.get(), 2);
}

#[test]
fn effect_runs_at_creation_and_on_every_write() {
    let (mut rt, scope) = setup();
    let s = rt.create_signal(scope, Value::Count(7), Notify::Always).unwrap();
    let runs = counter();
    let e = rt.create_effect(scope, sum(&runs, &[s], &[])).unwrap();
    assert_eq!(runs.get(), 1);
    assert_eq!(e.output(&rt), Ok(Value::Count(7)));
    s.set(&mut rt, Value::Count(7)).unwrap();
    assert_eq!(runs.get(), 2);
    s.set(&mut rt, Value::Count(8)).unwrap();
    assert_eq!(runs.get(), 3);
    assert_eq!(e.output(&rt), Ok(Value::Count(8)));
}

#[test]
fn signal_that_notifies_on_change_suppresses_equal_writes() {
    let (mut rt, scope) = setup();
    let s = rt.create_signal(scope, Value::Count(7), Notify::OnChange).unwrap();
    let runs = counter();
    rt.create_effect(scope, sum(&runs, &[s], &[])).unwrap();
    s.set(&mut rt, Value::Count(7)).unwrap();
    assert_eq!(runs.get(), 1);
    s.set(&mut rt, Value::Count(8)).unwrap();
    assert_eq!(runs.get(), 2);
    assert_eq!(s.get(&rt), Ok(Value::Count(8)));
}

#[test]
fn dependencies_follow_the_last_run() {
    let (mut rt, scope) = setup();
    let first = rt.create_signal(scope, Value::Flag(false), Notify::Always).unwrap();
    let second = rt.create_signal(scope, Value::Count(1), Notify::Always).unwrap();
    let runs = counter();
    let e = rt
        .create_effect(scope, Guarded { runs: runs.clone(), first, second })
        .unwrap();
    assert_eq!(runs.get(), 1);
    second.set(&mut rt, Value::Count(2)).unwrap();
    assert_eq!(runs.get(), 1);
    first.set(&mut rt, Value::Flag(true)).unwrap();
    assert_eq!(runs.get(), 2);
    assert_eq!(e.output(&rt), Ok(Value::Count(2)));
    second.set(&mut rt, Value::Count(3)).unwrap();
    assert_eq!(runs.get(), 3);
    assert_eq!(e.output(&rt), Ok(Value::Count(3)));
    first.set(&mut rt, Value::Flag(false)).unwrap();
    assert_eq!(runs.get(), 4);
    second.set(&mut rt, Value::Count(4)).unwrap();
    assert_eq!(runs.get(), 4);
    assert_eq!(e.output(&rt), Ok(Value::Absent));
}

#[test]
fn disposed_subscriber_is_not_invoked() {
    let (mut rt, root) = setup();
    let s = rt.create_signal(root, Value::Count(1), Notify::Always).unwrap();
    let child = root.create_child(&mut rt).unwrap();
    let grandchild = child.create_child(&mut rt).unwrap();
    let (inner, outer) = (counter(), counter());
    let dead = rt.create_effect(grandchild, sum(&inner, &[s], &[])).unwrap();
    let live = rt.create_effect(root, sum(&outer, &[s], &[])).unwrap();
    s.set(&mut rt, Value::Count(2)).unwrap();
    assert_eq!((inner.get(), outer.get()), (2, 2));
    child.dispose(&mut rt);
    s.set(&mut rt, Value::Count(3)).unwrap();
    assert_eq!((inner.get(), outer.get()), (2, 3));
    assert_eq!(dead.output(&rt), Err(ReactiveError::Disposed));
    assert_eq!(live.output(&rt), Ok(Value::Count(3)));
}

#[test]
fn disposal_is_idempotent_and_recursive() {
    let (mut rt, root) = setup();
    let child = root.create_child(&mut rt).unwrap();
    let s = rt.create_signal(child, Value::Flag(true), Notify::Always).unwrap();
    let other = rt.create_signal(root, Value::Flag(true), Notify::Always).unwrap();
    child.dispose(&mut rt);
    child.dispose(&mut rt);
    assert_eq!(s.get(&rt), Err(ReactiveError::Disposed));
    assert_eq!(s.set(&mut rt, Value::Flag(false)), Err(ReactiveError::Disposed));
    assert_eq!(other.get(&rt), Ok(Value::Flag(true)));
    root.dispose(&mut rt);
    assert_eq!(other.get(&rt), Err(ReactiveError::Disposed));
    Scope { id: 99 }.dispose(&mut rt);
}

#[test]
fn creation_in_a_disposed_scope_is_refused() {
    let (mut rt, root) = setup();
    let child = root.create_child(&mut rt).unwrap();
    root.dispose(&mut rt);
    let runs = counter();
    assert_eq!(rt.create_signal(child, Value::Absent, Notify::Always), Err(ReactiveError::Disposed));
    assert_eq!(rt.create_memo(root, sum(&runs, &[], &[])), Err(ReactiveError::Disposed));
    assert_eq!(rt.create_effect(root, sum(&runs, &[], &[])), Err(ReactiveError::Disposed));
    assert_eq!(child.create_child(&mut rt), Err(ReactiveError::Disposed));
    assert_eq!(runs.get(), 0);
}

#[test]
fn unknown_handles_are_invalid() {
    let (mut rt, root) = setup();
    let s = rt.create_signal(root, Value::Count(1), Notify::Always).unwrap();
    let runs = counter();
    let m = rt.create_memo(root, sum(&runs, &[s], &[])).unwrap();
    assert_eq!(Signal { id: m.id }.get(&rt), Err(ReactiveError::Invalid));
    assert_eq!(Signal { id: 17 }.set(&mut rt, Value::Absent), Err(ReactiveError::Invalid));
    assert_eq!(Memo { id: s.id }.get(&mut rt), Err(ReactiveError::Invalid));
    assert_eq!(Effect { id: m.id }.output(&rt), Err(ReactiveError::Invalid));
    assert_eq!(Scope { id: 5 }.create_child(&mut rt), Err(ReactiveError::Invalid));
    assert_eq!(rt.create_signal(Scope { id: 5 }, Value::Absent, Notify::Always), Err(ReactiveError::Invalid));
}

#[test]
fn a_node_reads_only_older_nodes() {
    let (mut rt, root) = setup();
    let runs = counter();
    let early = rt.create_memo(root, sum(&runs, &[Signal { id: 1 }], &[])).unwrap();
    let late = rt.create_signal(root, Value::Count(9), Notify::Always).unwrap();
    assert_eq!(late.id, 1);
    assert_eq!(early.get(&mut rt), Ok(Value::Count(0)));
    late.set(&mut rt, Value::Count(10)).unwrap();
    assert_eq!(early.get(&mut rt), Ok(Value::Count(0)));
    assert_eq!(runs.get(), 1);
}

#[test]
fn observe_reads_without_subscribing() {
    let (mut rt, root) = setup();
    let s = rt.create_signal(root, Value::Count(4), Notify::Always).unwrap();
    let (memo_runs, runs) = (counter(), counter());
    let m = rt.create_memo(root, sum(&memo_runs, &[s], &[])).unwrap();
    let once = Sum { runs: runs.clone(), signals: vec![s], memos: vec![m] };
    assert_eq!(rt.observe(&once), Value::Count(8));
    assert_eq!((memo_runs.get(), runs.get()), (1, 1));
    s.set(&mut rt, Value::Count(5)).unwrap();
    assert_eq!((memo_runs.get(), runs.get()), (1, 1));
    assert_eq!(rt.observe(&once), Value::Count(10));
    assert_eq!((memo_runs.get(), runs.get()), (2, 2));
}

#[test]
fn handles_are_computations() {
    let (mut rt, root) = setup();
    let s = rt.create_signal(root, Value::Text("a".to_string()), Notify::Always).unwrap();
    let m = rt.create_memo(root, s).unwrap();
    let e = rt.create_effect(root, m).unwrap();
    assert_eq!(e.output(&rt), Ok(Value::Text("a".to_string())));
    s.set(&mut rt, Value::Text("b".to_string())).unwrap();
    assert_eq!(e.output(&rt), Ok(Value::Text("b".to_string())));
    assert_eq!(rt.observe(&Signal { id: 40 }), Value::Absent);
}

#[test]
fn values_compare_by_content() {
    assert!(Value::Text("a".to_string()).same(&Value::Text("a".to_string())));
    assert!(!Value::Text("a".to_string()).same(&Value::Text("b".to_string())));
    assert!(!Value::Flag(false).same(&Value::Absent));
    assert!(!Value::Count(1).same(&Value::Count(2)));
    assert!(Value::Absent.same(&Value::Absent));
    assert!(Value::Flag(true).is_true());
    assert!(!Value::Count(1).is_true());
    assert_eq!(Value::Text("a".to_string()).clone(), Value::Text("a".to_string()));
}

#[test]
fn disposal_drops_the_computations() {
    let (mut rt, root) = setup();
    let child = root.create_child(&mut rt).unwrap();
    let s = rt.create_signal(root, Value::Count(1), Notify::Always).unwrap();
    let (inner, outer) = (counter(), counter());
    rt.create_memo(child, sum(&inner, &[s], &[])).unwrap();
    rt.create_effect(child, sum(&inner, &[s], &[])).unwrap();
    rt.create_effect(root, sum(&outer, &[s], &[])).unwrap();
    assert_eq!((Rc::strong_count(&inner), Rc::strong_count(&outer)), (3, 2));
    child.dispose(&mut rt);
    assert_eq!((Rc::strong_count(&inner), Rc::strong_count(&outer)), (1, 2));
    root.dispose(&mut rt);
    assert_eq!(Rc::strong_count(&outer), 1);
}
