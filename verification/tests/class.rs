use reactive_link::class::{class_value, Class, ClassBinding, IntoClass};
use reactive_link::tracking::Held;
use reactive_link::runtime::{Notify, Runtime};
use reactive_link::value::Value;

fn text(s: &str) -> Value {
    Value::Text(s.to_string())
}

#[test]
fn class_value_is_the_name_or_nothing() {
    assert_eq!(class_value(true, "my-class"), "my-class");
    assert_eq!(class_value(false, "my-class"), "");
}

#[test]
fn false_class_renders_nothing() {
    let mut rt = Runtime::new();
    let scope = rt.create_scope();
    let class = false.into_class(scope);
    assert!(matches!(class, Class::Value(false)));
    let rendered = rt.observe(&ClassBinding { class, class_name: "my-class" });
    assert_eq!(rendered, text(""));
}

#[test]
fn true_class_renders_its_name() {
    let mut rt = Runtime::new();
    let scope = rt.create_scope();
    let rendered = rt.observe(&ClassBinding { class: true.into_class(scope), class_name: "my-class" });
    assert_eq!(rendered, text("my-class"));
}

#[test]
fn computed_class_follows_its_source() {
    let mut rt = Runtime::new();
    let scope = rt.create_scope();
    let flag = rt.create_signal(scope, Value::Flag(false), Notify::Always).unwrap();
    let class = flag.into_class(scope);
    assert!(matches!(class, Class::Fn(_)));
    let live = rt
        .create_effect(scope, ClassBinding { class, class_name: "my-class" })
        .unwrap();
    assert_eq!(live.output(&rt), Ok(text("")));
    flag.set(&mut rt, Value::Flag(true)).unwrap();
    assert_eq!(live.output(&rt), Ok(text("my-class")));
    flag.set(&mut rt, Value::Count(1)).unwrap();
    assert_eq!(live.output(&rt), Ok(text("")));
}

#[test]
fn computed_class_is_read_once_when_observed() {
    let mut rt = Runtime::new();
    let scope = rt.create_scope();
    let flag = rt.create_signal(scope, Value::Flag(true), Notify::Always).unwrap();
    let binding = ClassBinding { class: flag.into_class(scope), class_name: "on" };
    assert_eq!(rt.observe(&binding), text("on"));
    flag.set(&mut rt, Value::Flag(false)).unwrap();
    assert_eq!(rt.observe(&binding), text(""));
}

#[test]
fn held_body_is_the_body() {
    let mut rt = Runtime::new();
    let scope = rt.create_scope();
    let s = rt.create_signal(scope, Value::Count(5), Notify::Always).unwrap();
    assert_eq!(rt.observe(&Held { body: s }), Value::Count(5));
    assert_eq!(rt.observe(&s), Value::Count(5));
}
