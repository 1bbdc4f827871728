//! The route-parameters container on its own.

use plaid::{Parameter, RequestIdConfiguration, RouteParameters};

#[test]
fn empty_parameters() {
    let params = RouteParameters::new();
    assert_eq!(params.first_i32(), None);
    assert_eq!(params.get_i32("x"), None);
    assert_eq!(params.get_string("x"), None);
}

#[test]
fn ordered_and_named_views() {
    let mut params = RouteParameters::new();
    params.push_named("id", Parameter::I32(12));
    params.push_unnamed(Parameter::U32(9));
    params.push_named("who", Parameter::String(String::from("ada")));

    assert_eq!(params.first_i32(), Some(12));
    assert_eq!(params.get_i32("id"), Some(12));
    assert_eq!(params.get_string("who"), Some(String::from("ada")));
    assert_eq!(params.get_string("id"), None);
    assert_eq!(params.get_i32("who"), None);
}

#[test]
fn later_binding_overwrites_name() {
    let mut params = RouteParameters::new();
    params.push_named("id", Parameter::I32(1));
    params.push_named("id", Parameter::I32(2));
    assert_eq!(params.get_i32("id"), Some(2));
    assert_eq!(params.first_i32(), Some(1));
}

#[test]
fn wrong_typed_lookups_return_none() {
    let mut params = RouteParameters::new();
    params.push_named("n", Parameter::U32(7));
    assert_eq!(params.get_i32("n"), None);
    assert_eq!(params.get_string("n"), None);
}

#[test]
fn request_id_configuration_builds() {
    let config = RequestIdConfiguration::default();
    let config = config.uuid_v4();
    let _ = config;
}
