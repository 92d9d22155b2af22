use route_registry::assemble::{assemble, build};
use route_registry::compose::{compose, Event, Handler};
use route_registry::descriptor::{parse_method, validate, ConfigError, DeclArg, Method, RouteDescriptor};
use route_registry::registry::{BuildError, Registry};

fn word(s: &str) -> DeclArg {
    DeclArg::Word(s.to_string())
}

fn text(s: &str) -> DeclArg {
    DeclArg::Text(s.to_string())
}

fn declare(handler: &str, args: Vec<DeclArg>, requires_state: bool) -> RouteDescriptor {
    validate(handler.to_string(), args, requires_state).expect("valid declaration")
}

fn enter(m: &str) -> Event {
    Event::Enter(m.to_string())
}

fn leave(m: &str) -> Event {
    Event::Leave(m.to_string())
}

fn call(h: &str, state: Option<u64>) -> Event {
    Event::Call { handler: h.to_string(), state }
}

#[test]
fn method_words_are_recognized_in_both_cases() {
    assert_eq!(parse_method("get"), Some(Method::Get));
    assert_eq!(parse_method("GET"), Some(Method::Get));
    assert_eq!(parse_method("post"), Some(Method::Post));
    assert_eq!(parse_method("PUT"), Some(Method::Put));
    assert_eq!(parse_method("delete"), Some(Method::Delete));
    assert_eq!(parse_method("patch"), None);
    assert_eq!(parse_method("Get"), None);
    assert_eq!(parse_method(""), None);
}

#[test]
fn method_and_path_form() {
    let d = declare("list_users", vec![word("post"), text("/users")], false);
    assert_eq!(d.method(), Method::Post);
    assert_eq!(d.path(), "/users");
    assert_eq!(d.handler(), "list_users");
    assert!(d.middleware().is_empty());
    assert!(!d.requires_state());
    assert_eq!(d.qualifier(), &None);
}

#[test]
fn bare_path_defaults_to_get() {
    let d = declare("index", vec![text("/")], false);
    assert_eq!(d.method(), Method::Get);
    assert_eq!(d.path(), "/");
}

#[test]
fn qualifier_form() {
    let d = declare("show", vec![word("get"), text("/show"), text("admin")], false);
    assert_eq!(d.qualifier(), &Some("admin".to_string()));
    assert!(d.middleware().is_empty());
}

#[test]
fn middleware_form_keeps_declared_order() {
    let d = declare(
        "create_order",
        vec![word("post"), text("/orders"), word("auth_check"), word("request_logger")],
        false,
    );
    assert_eq!(d.middleware(), &vec!["auth_check".to_string(), "request_logger".to_string()]);
    assert_eq!(d.qualifier(), &None);
}

#[test]
fn unsupported_method_is_rejected() {
    let r = validate("h".to_string(), vec![word("patch"), text("/x")], false);
    assert_eq!(r.unwrap_err(), ConfigError::UnsupportedMethod);
}

#[test]
fn missing_path_is_rejected() {
    let none = validate("h".to_string(), vec![], false);
    assert_eq!(none.unwrap_err(), ConfigError::MissingPath);
    let only_method = validate("h".to_string(), vec![word("get")], false);
    assert_eq!(only_method.unwrap_err(), ConfigError::MissingPath);
    let not_a_literal = validate("h".to_string(), vec![word("get"), word("users")], false);
    assert_eq!(not_a_literal.unwrap_err(), ConfigError::MissingPath);
    let empty = validate("h".to_string(), vec![word("get"), text("")], false);
    assert_eq!(empty.unwrap_err(), ConfigError::MissingPath);
    let empty_bare = validate("h".to_string(), vec![text("")], false);
    assert_eq!(empty_bare.unwrap_err(), ConfigError::MissingPath);
}

#[test]
fn path_without_leading_slash_is_rejected() {
    let r = validate("h".to_string(), vec![word("get"), text("users")], false);
    assert_eq!(r.unwrap_err(), ConfigError::MalformedArgument);
    let bare = validate("h".to_string(), vec![text("users")], false);
    assert_eq!(bare.unwrap_err(), ConfigError::MalformedArgument);
}

#[test]
fn malformed_shapes_are_rejected() {
    let extra_after_bare = validate("h".to_string(), vec![text("/a"), word("m")], false);
    assert_eq!(extra_after_bare.unwrap_err(), ConfigError::MalformedArgument);
    let mixed = validate(
        "h".to_string(),
        vec![word("get"), text("/a"), word("m"), text("q")],
        false,
    );
    assert_eq!(mixed.unwrap_err(), ConfigError::MalformedArgument);
    let two_qualifiers = validate(
        "h".to_string(),
        vec![word("get"), text("/a"), text("q"), text("r")],
        false,
    );
    assert_eq!(two_qualifiers.unwrap_err(), ConfigError::MalformedArgument);
}

#[test]
fn unsupported_method_reported_before_bad_path() {
    let r = validate("h".to_string(), vec![word("trace"), text("nope")], false);
    assert_eq!(r.unwrap_err(), ConfigError::UnsupportedMethod);
}

#[test]
fn compose_with_no_middleware_is_the_base_handler() {
    let base = Handler::Base { name: "h".to_string(), state: None };
    let h = compose(base, &vec![]);
    assert_eq!(h.invoke(), vec![call("h", None)]);
}

#[test]
fn compose_first_listed_is_outermost() {
    let base = Handler::Base { name: "h".to_string(), state: Some(3) };
    let h = compose(base, &vec!["a".to_string(), "b".to_string(), "c".to_string()]);
    assert_eq!(
        h.invoke(),
        vec![enter("a"), enter("b"), enter("c"), call("h", Some(3)), leave("c"), leave("b"), leave("a")]
    );
}

#[test]
fn two_routes_assemble_into_two_entries() {
    let mut reg = Registry::new();
    reg.insert(declare("index", vec![word("get"), text("/")], false)).unwrap();
    reg.insert(declare("create_user", vec![word("post"), text("/users")], false)).unwrap();
    let table = build(&mut reg, None).expect("table");
    assert_eq!(table.len(), 2);
    assert!(table.get(Method::Get, "/").is_some());
    assert!(table.get(Method::Post, "/users").is_some());
    assert!(table.get(Method::Get, "/users").is_none());
    assert_eq!(table.get(Method::Get, "/").unwrap().invoke(), vec![call("index", None)]);
}

#[test]
fn same_route_twice_is_a_duplicate() {
    let mut reg = Registry::new();
    reg.insert(declare("first", vec![word("get"), text("/a")], false)).unwrap();
    reg.insert(declare("second", vec![word("get"), text("/a")], false)).unwrap();
    let err = build(&mut reg, None).unwrap_err();
    assert_eq!(err, BuildError::DuplicateRoute { method: Method::Get, path: "/a".to_string() });
}

#[test]
fn same_path_other_method_is_no_duplicate() {
    let mut reg = Registry::new();
    reg.insert(declare("read", vec![word("get"), text("/a")], false)).unwrap();
    reg.insert(declare("write", vec![word("put"), text("/a")], false)).unwrap();
    let table = build(&mut reg, None).expect("table");
    assert_eq!(table.len(), 2);
}

#[test]
fn middleware_runs_in_declared_order() {
    let mut reg = Registry::new();
    reg.insert(declare(
        "create_order",
        vec![word("post"), text("/orders"), word("auth_check"), word("request_logger")],
        false,
    ))
    .unwrap();
    let table = build(&mut reg, None).expect("table");
    let steps = table.get(Method::Post, "/orders").unwrap().invoke();
    assert_eq!(
        steps,
        vec![
            enter("auth_check"),
            enter("request_logger"),
            call("create_order", None),
            leave("request_logger"),
            leave("auth_check"),
        ]
    );
}

#[test]
fn middleware_order_unaffected_by_other_registrations() {
    let orders = || {
        declare("create_order", vec![word("post"), text("/orders"), word("a"), word("b")], false)
    };
    let expected = vec![enter("a"), enter("b"), call("create_order", None), leave("b"), leave("a")];
    for before in 0..3 {
        let mut reg = Registry::new();
        for k in 0..before {
            reg.insert(declare("other", vec![word("get"), text(&format!("/x{}", k)), word("z")], false))
                .unwrap();
        }
        reg.insert(orders()).unwrap();
        reg.insert(declare("last", vec![word("delete"), text("/y"), word("b"), word("a")], false)).unwrap();
        let table = build(&mut reg, None).expect("table");
        assert_eq!(table.get(Method::Post, "/orders").unwrap().invoke(), expected);
    }
}

#[test]
fn state_required_but_missing() {
    let mut reg = Registry::new();
    reg.insert(declare("profile", vec![word("get"), text("/profile")], true)).unwrap();
    let err = build(&mut reg, None).unwrap_err();
    assert_eq!(err, BuildError::MissingState { method: Method::Get, path: "/profile".to_string() });
}

#[test]
fn state_required_and_supplied() {
    let mut reg = Registry::new();
    reg.insert(declare("profile", vec![word("get"), text("/profile")], true)).unwrap();
    reg.insert(declare("index", vec![text("/")], false)).unwrap();
    let table = build(&mut reg, Some(42)).expect("table");
    let steps = table.get(Method::Get, "/profile").unwrap().invoke();
    assert_eq!(steps, vec![call("profile", Some(42))]);
    // a handler that does not ask for the state is not bound to it
    assert_eq!(table.get(Method::Get, "/").unwrap().invoke(), vec![call("index", None)]);
}

#[test]
fn build_twice_fails() {
    let mut reg = Registry::new();
    reg.insert(declare("index", vec![text("/")], false)).unwrap();
    assert!(build(&mut reg, None).is_ok());
    assert_eq!(build(&mut reg, None).unwrap_err(), BuildError::AlreadyDrained);
}

#[test]
fn drain_twice_fails_and_insert_after_drain_is_refused() {
    let mut reg = Registry::new();
    assert!(!reg.is_drained());
    reg.insert(declare("index", vec![text("/")], false)).unwrap();
    reg.insert(declare("index", vec![text("/")], false)).unwrap();
    assert_eq!(reg.len(), 2);
    let first = reg.drain().expect("first drain");
    assert_eq!(first.len(), 2);
    assert!(reg.is_drained());
    assert_eq!(reg.len(), 0);
    assert_eq!(reg.drain().unwrap_err(), BuildError::AlreadyDrained);
    let late = reg.insert(declare("late", vec![text("/late")], false));
    assert_eq!(late.unwrap_err(), BuildError::AlreadyDrained);
}

#[test]
fn empty_registry_builds_empty_table() {
    let mut reg = Registry::new();
    let table = build(&mut reg, None).expect("table");
    assert_eq!(table.len(), 0);
}

#[test]
fn duplicate_found_in_every_order() {
    let make = |order: &[usize]| {
        let all = [("/a", "one"), ("/b", "two"), ("/a", "three")];
        let mut ds = Vec::new();
        for &i in order {
            ds.push(declare(all[i].1, vec![word("get"), text(all[i].0)], false));
        }
        ds
    };
    let orders: [[usize; 3]; 6] = [[0, 1, 2], [0, 2, 1], [1, 0, 2], [1, 2, 0], [2, 0, 1], [2, 1, 0]];
    for order in orders.iter() {
        let err = assemble(make(order), None).unwrap_err();
        assert_eq!(err, BuildError::DuplicateRoute { method: Method::Get, path: "/a".to_string() });
    }
}

#[test]
fn same_table_in_every_order() {
    let make = |order: &[usize]| {
        let all = [("/a", "one", Method::Get), ("/b", "two", Method::Get), ("/a", "three", Method::Post)];
        let mut ds = Vec::new();
        for &i in order {
            let m = match all[i].2 {
                Method::Get => "get",
                _ => "post",
            };
            ds.push(declare(all[i].1, vec![word(m), text(all[i].0), word("log")], false));
        }
        ds
    };
    let orders: [[usize; 3]; 3] = [[0, 1, 2], [2, 1, 0], [1, 2, 0]];
    for order in orders.iter() {
        let table = assemble(make(order), None).expect("table");
        assert_eq!(table.len(), 3);
        assert_eq!(
            table.get(Method::Get, "/a").unwrap().invoke(),
            vec![enter("log"), call("one", None), leave("log")]
        );
        assert_eq!(
            table.get(Method::Post, "/a").unwrap().invoke(),
            vec![enter("log"), call("three", None), leave("log")]
        );
        assert_eq!(
            table.get(Method::Get, "/b").unwrap().invoke(),
            vec![enter("log"), call("two", None), leave("log")]
        );
    }
}

#[test]
fn missing_state_reported_with_state_absent_even_among_others() {
    let ds = vec![
        declare("index", vec![text("/")], false),
        declare("profile", vec![word("get"), text("/profile")], true),
    ];
    let err = assemble(ds, None).unwrap_err();
    assert_eq!(err, BuildError::MissingState { method: Method::Get, path: "/profile".to_string() });
}
