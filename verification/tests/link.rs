use reactive_link::link::{
    activity, aria_current, href_attribute, pick_child, resolve_path, resolve_value, AProps, Route,
    TextProp, TextValue, A, CHILD_WARNING,
};
use reactive_link::runtime::{Notify, Runtime, Scope, Signal};
use reactive_link::text::{compare_paths, is_active, path_end, strip_target};
use reactive_link::tracking::ReactiveError;
use reactive_link::value::Value;

fn text(s: &str) -> Value {
    Value::Text(s.to_string())
}

fn props<H: TextProp>(href: H, exact: bool, children: Vec<&'static str>) -> AProps<&'static str, H> {
    AProps { href, exact, state: None, replace: false, class: None, children }
}

fn routed(location: &str, base: Option<&str>) -> (Runtime, Scope, Route) {
    let mut rt = Runtime::new();
    let scope = rt.create_scope();
    let pathname = rt.create_signal(scope, text(location), Notify::OnChange).unwrap();
    let base = base.map(|b| rt.create_signal(scope, text(b), Notify::OnChange).unwrap());
    (rt, scope, Route { pathname, base })
}

#[test]
fn exact_link_is_active_on_its_own_location_only() {
    assert!(is_active(Some("/new"), "/new", true));
    assert!(!is_active(Some("/new"), "/new/1", true));
}

#[test]
fn inexact_link_is_active_below_its_location() {
    assert!(is_active(Some("/new"), "/new/1", false));
    assert!(is_active(Some("/new"), "/new", false));
    assert!(!is_active(Some("/new/1"), "/new", false));
    assert!(!is_active(Some("/ask"), "/new", false));
}

#[test]
fn link_without_target_is_not_active() {
    assert!(!is_active(None, "/new", true));
    assert!(!is_active(None, "", false));
}

#[test]
fn case_does_not_count() {
    assert!(is_active(Some("/NEW"), "/new", true));
    assert!(is_active(Some("/new"), "/New/1", false));
    assert!(is_active(Some("/ÄB"), "/äb", true));
}

#[test]
fn query_and_fragment_of_the_target_do_not_count() {
    assert!(is_active(Some("/new?page=2"), "/new", true));
    assert!(is_active(Some("/new#top"), "/new", true));
    assert!(is_active(Some("/new#top?x"), "/new", true));
    assert!(!is_active(Some("/new"), "/new?page=2", true));
    assert!(is_active(Some("?q"), "/anything", false));
}

#[test]
fn path_ends_at_the_first_cut() {
    assert_eq!(path_end("/new?a#b"), 4);
    assert_eq!(path_end("/new"), 4);
    assert_eq!(path_end("#"), 0);
    assert_eq!(path_end(""), 0);
    assert_eq!(path_end("/é?x"), 2);
    assert_eq!(strip_target("/a/b#c?d"), "/a/b");
    assert_eq!(strip_target("/é/ö?x"), "/é/ö");
    assert_eq!(strip_target(""), "");
}

#[test]
fn paths_compare_exactly_or_by_prefix() {
    let (new, sub) = ("/new".to_string(), "/new/1".to_string());
    assert!(compare_paths(&new, &new, true));
    assert!(!compare_paths(&sub, &new, true));
    assert!(compare_paths(&sub, &new, false));
    assert!(!compare_paths(&new, &sub, false));
    assert!(compare_paths(&new, &String::new(), false));
}

#[test]
fn targets_resolve_against_the_route() {
    assert_eq!(resolve_path("/post", "1"), "/post/1");
    assert_eq!(resolve_path("/post/", "1"), "/post/1");
    assert_eq!(resolve_path("/post", "/new"), "/new");
    assert_eq!(resolve_path("", "new"), "/new");
    assert_eq!(resolve_path("/", ""), "/");
    assert_eq!(resolve_value(Some(&text("/a")), &text("b")), text("/a/b"));
    assert_eq!(resolve_value(None, &text("/b")), Value::Absent);
    assert_eq!(resolve_value(Some(&Value::Absent), &text("/b")), Value::Absent);
    assert_eq!(resolve_value(Some(&text("/a")), &Value::Flag(true)), Value::Absent);
}

#[test]
fn activity_is_a_flag() {
    assert_eq!(activity(&text("/new"), &text("/new"), true), Value::Flag(true));
    assert_eq!(activity(&text("/new"), &text("/old"), false), Value::Flag(false));
    assert_eq!(activity(&Value::Absent, &text("/new"), false), Value::Flag(false));
    assert_eq!(activity(&text("/new"), &Value::Absent, false), Value::Flag(false));
}

#[test]
fn attributes_of_a_link() {
    assert_eq!(href_attribute(&text("/new")), "/new");
    assert_eq!(href_attribute(&Value::Absent), "");
    assert_eq!(aria_current(&Value::Flag(true)), Some("page"));
    assert_eq!(aria_current(&Value::Flag(false)), None);
    assert_eq!(aria_current(&Value::Absent), None);
}

#[test]
fn link_follows_the_location() {
    let (mut rt, scope, route) = routed("/new", Some(""));
    let a = A(&mut rt, scope, props("/new", true, vec!["New"]), route).unwrap();
    assert_eq!(a.href.get(&mut rt), Ok(text("/new")));
    assert_eq!(a.is_active.get(&mut rt), Ok(Value::Flag(true)));
    route.pathname.set(&mut rt, text("/new/1")).unwrap();
    assert_eq!(a.is_active.get(&mut rt), Ok(Value::Flag(false)));
    assert_eq!(a.child, Some("New"));
    assert!(!a.warning);
}

#[test]
fn inexact_link_stays_active_below() {
    let (mut rt, scope, route) = routed("/new/1", Some(""));
    let a = A(&mut rt, scope, props("/new".to_string(), false, vec!["New"]), route).unwrap();
    assert_eq!(a.is_active.get(&mut rt), Ok(Value::Flag(true)));
    route.pathname.set(&mut rt, text("/ask")).unwrap();
    assert_eq!(a.is_active.get(&mut rt), Ok(Value::Flag(false)));
}

#[test]
fn reactive_target_is_followed() {
    let (mut rt, scope, route) = routed("/post/2", Some("/post"));
    let target = rt.create_signal(scope, text("1"), Notify::Always).unwrap();
    let a = A(&mut rt, scope, props(target, true, vec!["Post"]), route).unwrap();
    assert_eq!(a.href.get(&mut rt), Ok(text("/post/1")));
    assert_eq!(a.is_active.get(&mut rt), Ok(Value::Flag(false)));
    target.set(&mut rt, text("2")).unwrap();
    assert_eq!(a.href.get(&mut rt), Ok(text("/post/2")));
    assert_eq!(a.is_active.get(&mut rt), Ok(Value::Flag(true)));
}

#[test]
fn link_outside_a_route_has_no_target() {
    let (mut rt, scope, route) = routed("/new", None);
    let a = A(&mut rt, scope, props("/new", false, vec!["New"]), route).unwrap();
    assert_eq!(a.href.get(&mut rt), Ok(Value::Absent));
    assert_eq!(a.is_active.get(&mut rt), Ok(Value::Flag(false)));
    let shown = a.href.get(&mut rt).unwrap();
    assert_eq!(href_attribute(&shown), "");
}

#[test]
fn link_without_children_warns_and_renders_none() {
    let (mut rt, scope, route) = routed("/", Some(""));
    let a = A(&mut rt, scope, props("/", true, vec![]), route).unwrap();
    assert!(a.warning);
    assert_eq!(a.child, None);
    assert!(CHILD_WARNING.starts_with("[Link] Pass exactly one child"));
}

#[test]
fn link_with_several_children_warns_and_renders_the_first() {
    let (mut rt, scope, route) = routed("/", Some(""));
    let a = A(&mut rt, scope, props("/", true, vec!["HN", "New"]), route).unwrap();
    assert!(a.warning);
    assert_eq!(a.child, Some("HN"));
    assert_eq!(pick_child(vec![1, 2, 3]), (Some(1), true));
    assert_eq!(pick_child(vec![1]), (Some(1), false));
    assert_eq!(pick_child(Vec::<u8>::new()), (None, true));
}

#[test]
fn link_in_a_disposed_scope_is_refused() {
    let (mut rt, scope, route) = routed("/", Some(""));
    scope.dispose(&mut rt);
    assert!(matches!(A(&mut rt, scope, props("/", true, vec!["x"]), route), Err(ReactiveError::Disposed)));
    let gone = Scope { id: 9 };
    assert!(matches!(A(&mut rt, gone, props("/", true, vec!["x"]), route), Err(ReactiveError::Invalid)));
}

#[test]
fn link_passes_its_properties_on() {
    let (mut rt, scope, route) = routed("/", Some(""));
    let given = AProps {
        href: "/",
        exact: false,
        state: Some(Value::Count(3)),
        replace: true,
        class: Some(TextValue::Fixed("github".to_string())),
        children: vec!["x"],
    };
    let a = A(&mut rt, scope, given, route).unwrap();
    assert_eq!(a.state, Some(Value::Count(3)));
    assert!(a.replace);
    assert_eq!(rt.observe(a.class.as_ref().unwrap()), text("github"));
}

#[test]
fn text_props_convert() {
    let mut rt = Runtime::new();
    let scope = rt.create_scope();
    let s = rt.create_signal(scope, text("/live"), Notify::Always).unwrap();
    assert_eq!(rt.observe(&"/a".to_value()), text("/a"));
    assert_eq!(rt.observe(&"/b".to_string().to_value()), text("/b"));
    assert_eq!(rt.observe(&s.to_value()), text("/live"));
    let m = rt.create_memo(scope, s.to_value()).unwrap();
    assert_eq!(rt.observe(&m.to_value()), text("/live"));
    assert_eq!(rt.observe(&Signal { id: 77 }.to_value()), Value::Absent);
}

#[test]
fn anchor_reports_its_state() {
    let (mut rt, scope, route) = routed("/New", Some("/"));
    let a = A(&mut rt, scope, props("new", true, vec!["New"]), route).unwrap();
    assert_eq!(a.resolved_href(&mut rt), Some("/new".to_string()));
    assert!(a.active(&mut rt));
    route.pathname.set(&mut rt, text("/ask")).unwrap();
    assert!(!a.active(&mut rt));
    scope.dispose(&mut rt);
    assert_eq!(a.resolved_href(&mut rt), None);
    assert!(!a.active(&mut rt));
}

#[test]
fn unchanged_activity_wakes_no_one() {
    let (mut rt, scope, route) = routed("/new/1", Some(""));
    let a = A(&mut rt, scope, props("/new", false, vec!["New"]), route).unwrap();
    let shown = rt.create_effect(scope, a.is_active).unwrap();
    assert_eq!(shown.output(&rt), Ok(Value::Flag(true)));
    route.pathname.set(&mut rt, text("/new/2")).unwrap();
    assert_eq!(shown.output(&rt), Ok(Value::Flag(true)));
    route.pathname.set(&mut rt, text("/ask")).unwrap();
    assert_eq!(shown.output(&rt), Ok(Value::Flag(false)));
}
