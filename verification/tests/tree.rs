//! Scenarios against the route trie directly.

use plaid::{Method, RouteTree};

#[test]
fn exact_literal_match() {
    let mut tree = RouteTree::new();
    tree.add_route(&vec![Method::Get], "/abc/def", 7).unwrap();

    let (mm, params) = tree.route_to("abc/def").expect("registered route must resolve");
    assert_eq!(mm.get(Method::Get), Some(7));
    assert_eq!(params.first_i32(), None);
    assert!(tree.route_to("abc/xyz").is_none());
}

#[test]
fn root_route() {
    let mut tree = RouteTree::new();
    tree.add_route(&vec![Method::Get, Method::Put], "/", 3).unwrap();
    let (mm, _) = tree.route_to("").expect("root must resolve");
    assert_eq!(mm.get(Method::Get), Some(3));
    assert_eq!(mm.get(Method::Put), Some(3));
    assert_eq!(mm.get(Method::Delete), None);
}

#[test]
fn later_registration_replaces_handler() {
    let mut tree = RouteTree::new();
    tree.add_route(&vec![Method::Get], "/a", 1).unwrap();
    tree.add_route(&vec![Method::Get], "/a", 2).unwrap();
    let (mm, _) = tree.route_to("a").expect("route must resolve");
    assert_eq!(mm.get(Method::Get), Some(2));
}

#[test]
fn method_map_lists_methods() {
    let mut tree = RouteTree::new();
    tree.add_route(&vec![Method::Get, Method::Put], "/a", 1).unwrap();
    let (mm, _) = tree.route_to("a").expect("route must resolve");
    let methods = mm.methods();
    assert_eq!(methods.len(), 2);
    assert!(methods.contains(&Method::Get));
    assert!(methods.contains(&Method::Put));
}

#[test]
fn empty_segments_are_literal() {
    let mut tree = RouteTree::new();
    tree.add_route(&vec![Method::Get], "/a//b", 4).unwrap();
    assert!(tree.route_to("a/b").is_none());
    let (mm, _) = tree.route_to("a//b").expect("doubled slash must resolve");
    assert_eq!(mm.get(Method::Get), Some(4));
}

#[test]
fn deep_parameter_chain() {
    let mut tree = RouteTree::new();
    tree.add_route(&vec![Method::Get], "/u/:uid{u32}/p/:pid{i32}", 9).unwrap();
    let (mm, params) = tree.route_to("u/7/p/-3").expect("chain must resolve");
    assert_eq!(mm.get(Method::Get), Some(9));
    assert_eq!(params.get_i32("pid"), Some(-3));
    assert_eq!(params.get_i32("uid"), None);
    assert_eq!(params.first_i32(), None);
}
