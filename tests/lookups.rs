use check_path::paths::{Path, Paths};
use check_path::queries::QueryError;
use check_path::value::RawValue;
use check_path::CheckPathPlugin;

fn text(s: &str) -> RawValue {
    RawValue::Str(s.to_string())
}

fn obj(props: Vec<(&str, RawValue)>) -> RawValue {
    RawValue::Object(props.into_iter().map(|(k, v)| (k.to_string(), v)).collect())
}

fn arr(items: Vec<RawValue>) -> RawValue {
    RawValue::Array(items)
}

fn key(s: &str) -> Path {
    Path::Text(s.to_string())
}

/// `{id:"root", type:"t", a:{id:"mid", type:"t", b:{id:"leaf", type:"t"}}}`
fn nested() -> RawValue {
    obj(vec![
        ("id", text("root")),
        ("type", text("t")),
        (
            "a",
            obj(vec![
                ("id", text("mid")),
                ("type", text("t")),
                ("b", obj(vec![("id", text("leaf")), ("type", text("t"))])),
            ]),
        ),
    ])
}

fn plugin_with(doc: RawValue) -> CheckPathPlugin {
    let mut p = CheckPathPlugin::new();
    p.update(doc);
    p
}

fn id_query(id: &str) -> RawValue {
    obj(vec![("id", text(id))])
}

#[test]
fn full_path_without_query() {
    let p = plugin_with(nested());
    assert_eq!(p.get_path("leaf", RawValue::Undefined), Ok(Some(vec![key("a"), key("b")])));
    assert_eq!(p.get_path("mid", RawValue::Undefined), Ok(Some(vec![key("a")])));
    assert_eq!(p.get_path("root", RawValue::Undefined), Ok(Some(vec![])));
}

#[test]
fn round_trip_reaches_node_value() {
    let p = plugin_with(nested());
    let path = p.get_path("leaf", RawValue::Undefined).unwrap().unwrap();
    let mut doc = nested();
    for seg in path {
        let name = match seg {
            Path::Text(s) => s,
            Path::Numeric(_) => panic!("unexpected index"),
        };
        doc = match doc {
            RawValue::Object(props) => props.into_iter().find(|(k, _)| *k == name).unwrap().1,
            _ => panic!("not an object"),
        };
    }
    assert_eq!(Some(&doc), p.get_asset("leaf"));
    assert_eq!(doc, obj(vec![("id", text("leaf")), ("type", text("t"))]));
}

#[test]
fn query_matching_start_node_gives_empty_path() {
    let p = plugin_with(nested());
    let q = obj(vec![("type", text("t"))]);
    assert_eq!(p.get_path("leaf", q), Ok(Some(vec![])));
}

#[test]
fn query_matching_ancestor_gives_relative_path() {
    let p = plugin_with(nested());
    assert_eq!(p.get_path("leaf", id_query("mid")), Ok(Some(vec![key("b")])));
}

#[test]
fn list_query_chains_ancestors() {
    let p = plugin_with(nested());
    let q = arr(vec![id_query("mid"), id_query("root")]);
    assert_eq!(p.get_path("leaf", q), Ok(Some(vec![key("a"), key("b")])));
    let q = arr(vec![id_query("mid"), id_query("root")]);
    assert_eq!(p.has_parent_context("leaf", q), Ok(true));
}

#[test]
fn list_query_resumes_above_previous_match() {
    let p = plugin_with(nested());
    // "mid" matches first; the next query is looked for from its parent on.
    let q = arr(vec![id_query("mid"), id_query("mid")]);
    assert_eq!(p.get_path("leaf", q), Ok(None));
    // The root has no parent, so a query after it cannot be satisfied.
    let q = arr(vec![id_query("root"), obj(vec![])]);
    assert_eq!(p.get_path("leaf", q), Ok(None));
}

#[test]
fn nonexistent_id_query_fails() {
    let p = plugin_with(nested());
    for start in ["root", "mid", "leaf"] {
        assert_eq!(p.get_path(start, id_query("nonexistent")), Ok(None));
        assert_eq!(p.has_parent_context(start, id_query("nonexistent")), Ok(false));
    }
}

#[test]
fn duplicate_ids_keep_last_found() {
    let doc = obj(vec![
        ("x", obj(vec![("id", text("dup")), ("type", text("first"))])),
        ("y", obj(vec![("id", text("dup")), ("type", text("second"))])),
    ]);
    let p = plugin_with(doc);
    assert_eq!(p.get_path("dup", RawValue::Undefined), Ok(Some(vec![key("y")])));
    let asset = p.get_asset("dup").unwrap();
    assert_eq!(*asset, obj(vec![("id", text("dup")), ("type", text("second"))]));
}

#[test]
fn unknown_id_is_absent_everywhere() {
    let p = plugin_with(nested());
    assert_eq!(p.get_path("nope", RawValue::Undefined), Ok(None));
    assert_eq!(p.get_path("nope", id_query("root")), Ok(None));
    assert_eq!(p.get_path("nope", RawValue::Function), Ok(None));
    assert_eq!(p.get_parent("nope", RawValue::Undefined), None);
    assert_eq!(p.get_parent_prop("nope"), None);
    assert_eq!(p.has_parent_context("nope", id_query("root")), Ok(false));
    assert_eq!(p.get_asset("nope"), None);
}

#[test]
fn rebuild_twice_gives_same_paths() {
    let mut p = plugin_with(nested());
    let first: Vec<_> = ["root", "mid", "leaf"]
        .iter()
        .map(|id| p.get_path(id, RawValue::Undefined))
        .collect();
    p.update(nested());
    let second: Vec<_> = ["root", "mid", "leaf"]
        .iter()
        .map(|id| p.get_path(id, RawValue::Undefined))
        .collect();
    assert_eq!(first, second);
}

#[test]
fn update_replaces_previous_index() {
    let mut p = plugin_with(nested());
    p.update(obj(vec![("id", text("other")), ("type", text("t"))]));
    assert_eq!(p.get_path("leaf", RawValue::Undefined), Ok(None));
    assert_eq!(p.get_path("other", RawValue::Undefined), Ok(Some(vec![])));
}

#[test]
fn parent_prop_and_parent_value() {
    let p = plugin_with(nested());
    assert_eq!(p.get_parent_prop("leaf"), Some(key("b")));
    assert_eq!(p.get_parent_prop("mid"), Some(key("a")));
    assert_eq!(p.get_parent_prop("root"), None);
    let parent = p.get_parent("leaf", RawValue::Undefined).unwrap();
    match parent {
        RawValue::Object(props) => assert_eq!(props[0], ("id".to_string(), text("mid"))),
        _ => panic!("parent is not an object"),
    }
    assert_eq!(p.get_parent("root", RawValue::Undefined), None);
}

#[test]
fn wrappers_are_transparent_for_parents() {
    let doc = obj(vec![(
        "a",
        obj(vec![
            ("id", text("p")),
            ("type", text("t")),
            ("w", obj(vec![("x", obj(vec![("id", text("c")), ("type", text("t"))]))])),
        ]),
    )]);
    let p = plugin_with(doc);
    assert_eq!(p.get_path("c", RawValue::Undefined), Ok(Some(vec![key("a"), key("w"), key("x")])));
    assert_eq!(p.get_parent_prop("c"), Some(key("w")));
    assert_eq!(p.get_path("c", id_query("p")), Ok(Some(vec![key("w"), key("x")])));
    assert_eq!(p.get_parent_prop("p"), None);
}

#[test]
fn array_elements_are_indexed() {
    let doc = obj(vec![
        ("id", text("root")),
        ("type", text("t")),
        (
            "items",
            arr(vec![
                obj(vec![("id", text("i0")), ("type", text("t"))]),
                RawValue::Number(5),
                obj(vec![("id", text("i1")), ("type", text("t"))]),
            ]),
        ),
    ]);
    let p = plugin_with(doc);
    assert_eq!(p.get_path("i1", RawValue::Undefined), Ok(Some(vec![key("items"), Path::Numeric(2)])));
    assert_eq!(p.get_parent_prop("i1"), Some(key("items")));
    assert_eq!(p.get_path("i0", id_query("root")), Ok(Some(vec![key("items"), Path::Numeric(0)])));
}

#[test]
fn nodes_need_string_id_and_type() {
    let doc = obj(vec![
        ("a", obj(vec![("id", text("no-type"))])),
        ("b", obj(vec![("id", RawValue::Number(3)), ("type", text("t"))])),
        ("c", obj(vec![("id", text("ok")), ("type", text("t"))])),
    ]);
    let p = plugin_with(doc);
    assert_eq!(p.get_path("no-type", RawValue::Undefined), Ok(None));
    assert_eq!(p.get_path("ok", RawValue::Undefined), Ok(Some(vec![key("c")])));
}

#[test]
fn scalar_and_empty_roots_have_no_nodes() {
    let p = plugin_with(RawValue::Number(1));
    assert_eq!(p.get_asset("x"), None);
    let p = plugin_with(obj(vec![]));
    assert_eq!(p.get_path("x", RawValue::Undefined), Ok(None));
    let p = CheckPathPlugin::new();
    assert_eq!(p.get_path("x", RawValue::Undefined), Ok(None));
}

#[test]
fn text_query_matches_any_string_property() {
    let p = plugin_with(nested());
    assert_eq!(p.get_path("leaf", text("mid")), Ok(Some(vec![key("b")])));
    assert_eq!(p.get_path("leaf", text("leaf")), Ok(Some(vec![])));
    assert_eq!(p.get_path("leaf", text("absent")), Ok(None));
}

#[test]
fn empty_chain_gives_full_path_and_no_context() {
    let p = plugin_with(nested());
    assert_eq!(p.get_path("leaf", arr(vec![])), Ok(Some(vec![key("a"), key("b")])));
    assert_eq!(p.get_path("leaf", RawValue::Null), Ok(Some(vec![key("a"), key("b")])));
    assert_eq!(p.has_parent_context("leaf", RawValue::Undefined), Ok(false));
}

#[test]
fn function_query_is_refused() {
    let p = plugin_with(nested());
    assert_eq!(p.get_path("leaf", RawValue::Function), Err(QueryError::UnsupportedPredicate));
    assert_eq!(
        p.has_parent_context("leaf", RawValue::Function),
        Err(QueryError::UnsupportedPredicate)
    );
    let nested_list = arr(vec![arr(vec![id_query("mid")])]);
    assert_eq!(p.get_path("leaf", nested_list), Err(QueryError::UnsupportedPredicate));
}

#[test]
fn failed_search_before_function_query_is_no_error() {
    let p = plugin_with(nested());
    let q = arr(vec![id_query("nonexistent"), RawValue::Function]);
    assert_eq!(p.get_path("leaf", q), Ok(None));
}

#[test]
fn has_child_context_is_false() {
    let p = plugin_with(nested());
    assert!(!p.has_child_context());
}

#[test]
fn plugin_name() {
    let p = CheckPathPlugin::new();
    assert_eq!(p.name(), "check-path-plugin");
}

#[test]
fn index_nodes_in_walk_order() {
    let mut paths = Paths::new();
    paths.parse(nested());
    assert_eq!(paths.len(), 3);
    let k = paths.get_node("mid").unwrap();
    assert_eq!(k, 1);
    let node = paths.node(k);
    assert_eq!(node.get_id(), "mid");
    assert_eq!(node.get_type(), "t");
    assert_eq!(node.get_parent(), Some(0));
    assert_eq!(node.get_path(), &vec![key("a")]);
    assert_eq!(node.get_route(), &vec![2]);
    assert_eq!(paths.get_node("missing"), None);
    match paths.get_raw_node(2) {
        RawValue::Object(props) => assert_eq!(props[0].1, text("leaf")),
        _ => panic!("not an object"),
    }
}
