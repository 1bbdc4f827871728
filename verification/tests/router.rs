//! End-to-end routing scenarios through the `Router` policy layer.

use plaid::{Method, Router, RouterResult};

fn get(router: &Router, path: &str) -> RouterResult {
    router.route(path, Method::Get)
}

fn expect_handler(router: &Router, path: &str, expected: u64) {
    match get(router, path) {
        RouterResult::Found(h, _) => assert_eq!(h, expected),
        RouterResult::PathNotFound => panic!("path not found"),
        RouterResult::MethodNotFound => panic!("method not found"),
        RouterResult::Options(_) => panic!("got unexpected options"),
    }
}

#[test]
fn router_works() {
    let mut router = Router::new();
    router.add(&vec![Method::Get], "/", 200).unwrap();
    router.add(&vec![Method::Get], "/abc", 201).unwrap();
    router.add(&vec![Method::Get], "/abc/def", 202).unwrap();
    router.add(&vec![Method::Get], "/abc/ghi", 203).unwrap();
    router.add(&vec![Method::Get], "/abc/:id{i32}", 204).unwrap();
    router.add(&vec![Method::Get], "/abc/:somestring", 205).unwrap();

    expect_handler(&router, "/", 200);
    expect_handler(&router, "/abc", 201);
    expect_handler(&router, "/abc/def", 202);
    expect_handler(&router, "/abc/ghi", 203);
    expect_handler(&router, "/abc/123", 204);
    expect_handler(&router, "/abc/striiiiing", 205);
}

#[test]
fn router_handles_options() {
    let mut router = Router::new().handle_options(true);
    router.add(&vec![Method::Get], "/abc", 1).unwrap();
    router.add(&vec![Method::Put], "/abc", 2).unwrap();

    if let RouterResult::Options(opts) = router.route("/abc", Method::Options) {
        assert_eq!(3, opts.len());
        for method in &[Method::Get, Method::Put, Method::Options] {
            assert!(opts.contains(method));
        }
    } else {
        panic!("Didn't get options result");
    }
}

#[test]
fn options_disabled_falls_through() {
    let mut router = Router::new().handle_options(false);
    router.add(&vec![Method::Get], "/abc", 1).unwrap();
    assert!(matches!(
        router.route("/abc", Method::Options),
        RouterResult::MethodNotFound
    ));
}

#[test]
fn method_map_independence() {
    let mut router = Router::new();
    router.add(&vec![Method::Get], "/thing", 10).unwrap();
    router.add(&vec![Method::Put], "/thing", 11).unwrap();

    match router.route("/thing", Method::Get) {
        RouterResult::Found(h, _) => assert_eq!(h, 10),
        _ => panic!("expected GET handler"),
    }
    match router.route("/thing", Method::Put) {
        RouterResult::Found(h, _) => assert_eq!(h, 11),
        _ => panic!("expected PUT handler"),
    }
    assert!(matches!(
        router.route("/thing", Method::Delete),
        RouterResult::MethodNotFound
    ));
}

#[test]
fn static_precedes_parameter() {
    let mut router = Router::new();
    router.add(&vec![Method::Get], "/abc/def", 1).unwrap();
    router.add(&vec![Method::Get], "/abc/:id{i32}", 2).unwrap();
    expect_handler(&router, "/abc/def", 1);
    expect_handler(&router, "/abc/7", 2);
}

#[test]
fn no_backtracking_after_static_match() {
    let mut router = Router::new();
    router.add(&vec![Method::Get], "/x/y/z", 1).unwrap();
    router.add(&vec![Method::Get], "/x/:p", 2).unwrap();
    // "y" matches the static child, the walk commits to it, and the missing
    // deeper segment fails the whole lookup instead of falling back to :p.
    assert!(matches!(
        router.route("/x/y/nomatch", Method::Get),
        RouterResult::PathNotFound
    ));
    expect_handler(&router, "/x/other", 2);
}

#[test]
fn numeric_precedence() {
    let mut router = Router::new();
    router.add(&vec![Method::Get], "/n/:a{u32}", 1).unwrap();
    router.add(&vec![Method::Get], "/n/:b", 2).unwrap();
    expect_handler(&router, "/n/42", 1);
    expect_handler(&router, "/n/abc", 2);
}

#[test]
fn numeric_precedence_registration_order_reversed() {
    let mut router = Router::new();
    router.add(&vec![Method::Get], "/n/:b", 2).unwrap();
    router.add(&vec![Method::Get], "/n/:a{u32}", 1).unwrap();
    expect_handler(&router, "/n/42", 1);
    expect_handler(&router, "/n/abc", 2);
}

#[test]
fn typed_parameter_extraction() {
    let mut router = Router::new();
    router.add(&vec![Method::Get], "/abc/:id{i32}", 1).unwrap();

    match router.route("/abc/123", Method::Get) {
        RouterResult::Found(h, params) => {
            assert_eq!(h, 1);
            assert_eq!(params.first_i32(), Some(123));
            assert_eq!(params.get_i32("id"), Some(123));
        }
        _ => panic!("expected parameter match"),
    }
    match router.route("/abc/-5", Method::Get) {
        RouterResult::Found(h, params) => {
            assert_eq!(h, 1);
            assert_eq!(params.get_i32("id"), Some(-5));
        }
        _ => panic!("expected signed match"),
    }
    assert!(matches!(
        router.route("/abc/abc", Method::Get),
        RouterResult::PathNotFound
    ));
}

#[test]
fn string_parameter_extraction() {
    let mut router = Router::new();
    router.add(&vec![Method::Get], "/user/:name", 1).unwrap();
    match router.route("/user/ada", Method::Get) {
        RouterResult::Found(_, params) => {
            assert_eq!(params.get_string("name"), Some(String::from("ada")));
            assert_eq!(params.get_i32("name"), None);
        }
        _ => panic!("expected string match"),
    }
}

#[test]
fn sibling_registration_order_is_immaterial() {
    let literals: [&str; 3] = ["/alpha", "/beta", "/gamma"];
    let orders: [[usize; 3]; 6] = [
        [0, 1, 2],
        [0, 2, 1],
        [1, 0, 2],
        [1, 2, 0],
        [2, 0, 1],
        [2, 1, 0],
    ];
    for order in orders.iter() {
        let mut router = Router::new();
        for &ix in order.iter() {
            router.add(&vec![Method::Get], literals[ix], ix as u64).unwrap();
        }
        for (ix, lit) in literals.iter().enumerate() {
            expect_handler(&router, lit, ix as u64);
        }
    }
}

#[test]
fn trailing_slash_policy() {
    let mut strict = Router::new();
    strict.add(&vec![Method::Get], "/abc", 1).unwrap();
    assert!(matches!(
        strict.route("/abc/", Method::Get),
        RouterResult::PathNotFound
    ));

    let mut redirecting = Router::new().redirect_trailing_slash(true);
    redirecting.add(&vec![Method::Get], "/abc", 1).unwrap();
    expect_handler(&redirecting, "/abc/", 1);
}

#[test]
fn intermediate_node_has_no_methods() {
    let mut router = Router::new();
    router.add(&vec![Method::Get], "/abc/def", 1).unwrap();
    // "/abc" exists as an interior trie node created by the registration,
    // so the path matches and only the method lookup fails.
    assert!(matches!(
        router.route("/abc", Method::Get),
        RouterResult::MethodNotFound
    ));
}

#[test]
fn ambiguous_parameter_name_is_rejected() {
    let mut router = Router::new();
    router.add(&vec![Method::Get], "/a/:id{i32}", 1).unwrap();
    let err = router.add(&vec![Method::Put], "/a/:other{i32}", 2);
    assert_eq!(err, Err(plaid::RouteError::AmbiguousParameterName));
    // The tree is unchanged: the earlier registration still resolves.
    expect_handler(&router, "/a/5", 1);
}

#[test]
fn same_parameter_name_is_accepted() {
    let mut router = Router::new();
    router.add(&vec![Method::Get], "/a/:id{i32}", 1).unwrap();
    router.add(&vec![Method::Put], "/a/:id{i32}", 2).unwrap();
    match router.route("/a/5", Method::Put) {
        RouterResult::Found(h, _) => assert_eq!(h, 2),
        _ => panic!("expected PUT handler"),
    }
}

#[test]
fn unrecognized_annotation_defaults_to_string() {
    let mut router = Router::new();
    router.add(&vec![Method::Get], "/v/:x{i64}", 1).unwrap();
    // "i64" is not a recognized annotation, so the parameter is a string
    // match and captures any segment.
    match router.route("/v/anything", Method::Get) {
        RouterResult::Found(h, params) => {
            assert_eq!(h, 1);
            assert_eq!(params.get_string("x"), Some(String::from("anything")));
        }
        _ => panic!("expected string fallback"),
    }
}
