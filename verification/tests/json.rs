//! Reading members of JSON values and the asset names of a release.

use haygeobr::json::{get_member, Json};
use haygeobr::metadata::asset_names;

fn object(members: Vec<(&str, Json)>) -> Json {
    Json::Object(members.into_iter().map(|(k, v)| (k.to_string(), v)).collect())
}

fn string(s: &str) -> Json {
    Json::Str(s.to_string())
}

#[test]
fn get_member_finds_each_kind() {
    let j = object(vec![
        ("a", Json::Null),
        ("b", Json::Bool(true)),
        ("c", Json::Number("12".to_string())),
        ("d", string("x")),
        ("e", Json::Array(vec![Json::Null, Json::Null])),
    ]);
    assert!(matches!(get_member(&j, "a"), Some(Json::Null)));
    assert!(matches!(get_member(&j, "b"), Some(Json::Bool(true))));
    match get_member(&j, "c") {
        Some(Json::Number(n)) => assert_eq!(n, "12"),
        _ => panic!("expected a number"),
    }
    match get_member(&j, "d") {
        Some(Json::Str(s)) => assert_eq!(s, "x"),
        _ => panic!("expected a string"),
    }
    match get_member(&j, "e") {
        Some(Json::Array(items)) => assert_eq!(items.len(), 2),
        _ => panic!("expected an array"),
    }
    assert!(get_member(&j, "z").is_none());
}

#[test]
fn get_member_takes_the_first_of_equal_keys() {
    let j = object(vec![("k", string("first")), ("k", string("second"))]);
    match get_member(&j, "k") {
        Some(Json::Str(s)) => assert_eq!(s, "first"),
        _ => panic!("expected a string"),
    }
}

#[test]
fn get_member_of_non_object_is_none() {
    assert!(get_member(&Json::Array(vec![]), "assets").is_none());
    assert!(get_member(&string("assets"), "assets").is_none());
}

#[test]
fn asset_names_in_order() {
    let release = object(vec![(
        "assets",
        Json::Array(vec![
            object(vec![("name", string("states_2020.parquet"))]),
            object(vec![("size", Json::Number("3".to_string()))]),
            object(vec![("name", Json::Number("7".to_string()))]),
            string("x"),
            object(vec![("name", string("b"))]),
        ]),
    )]);
    assert_eq!(
        asset_names(&release).unwrap(),
        vec![Some("states_2020.parquet".to_string()), None, None, None, Some("b".to_string())]
    );
}

#[test]
fn asset_names_without_assets_array() {
    assert!(asset_names(&object(vec![])).is_none());
    assert!(asset_names(&object(vec![("assets", Json::Number("1".to_string()))])).is_none());
    assert!(asset_names(&Json::Array(vec![])).is_none());
    assert_eq!(asset_names(&object(vec![("assets", Json::Array(vec![]))])), Some(vec![]));
}
