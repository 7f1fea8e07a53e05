use check_path::queries::{Queries, Query, QueryError};
use check_path::value::{same_value, within_props, RawValue};

fn text(s: &str) -> RawValue {
    RawValue::Str(s.to_string())
}

fn obj(props: Vec<(&str, RawValue)>) -> RawValue {
    RawValue::Object(props.into_iter().map(|(k, v)| (k.to_string(), v)).collect())
}

#[test]
fn parse_classifies_values() {
    assert_eq!(Query::parse(RawValue::Undefined), Query::Any);
    assert_eq!(Query::parse(RawValue::Null), Query::Any);
    assert_eq!(Query::parse(RawValue::Number(7)), Query::Any);
    assert_eq!(Query::parse(RawValue::Bool(true)), Query::Any);
    assert_eq!(Query::parse(RawValue::Function), Query::Function);
    assert_eq!(Query::parse(text("x")), Query::Text("x".to_string()));
    assert_eq!(
        Query::parse(obj(vec![("id", text("a"))])),
        Query::Object(vec![("id".to_string(), text("a"))])
    );
    assert_eq!(
        Query::parse(RawValue::Array(vec![text("x"), RawValue::Undefined, obj(vec![])])),
        Query::List(vec![Query::Text("x".to_string()), Query::Any, Query::Object(vec![])])
    );
}

#[test]
fn queries_expand_lists_and_drop_any() {
    assert_eq!(Queries::from(RawValue::Undefined).len(), 0);
    let single = Queries::from(text("x"));
    assert_eq!(single.values, vec![Query::Text("x".to_string())]);
    let list = Queries::from(RawValue::Array(vec![text("x"), text("y")]));
    assert_eq!(list.values, vec![Query::Text("x".to_string()), Query::Text("y".to_string())]);
}

#[test]
fn any_matches_everything() {
    assert_eq!(Query::Any.equals(&RawValue::Null), Ok(true));
    assert_eq!(Query::Any.equals(&obj(vec![])), Ok(true));
}

#[test]
fn text_query_scans_values_not_keys() {
    let v = obj(vec![("name", text("hello")), ("hello", RawValue::Number(1))]);
    assert_eq!(Query::Text("hello".to_string()).equals(&v), Ok(true));
    assert_eq!(Query::Text("name".to_string()).equals(&v), Ok(false));
    assert_eq!(Query::Text("x".to_string()).equals(&RawValue::Array(vec![text("x")])), Ok(true));
    assert_eq!(Query::Text("x".to_string()).equals(&text("x")), Ok(false));
}

#[test]
fn object_query_is_a_subset_match() {
    let v = obj(vec![("id", text("a")), ("type", text("t")), ("n", RawValue::Number(3))]);
    let q = Query::parse(obj(vec![("type", text("t")), ("n", RawValue::Number(3))]));
    assert_eq!(q.equals(&v), Ok(true));
    let q = Query::parse(obj(vec![("type", text("u"))]));
    assert_eq!(q.equals(&v), Ok(false));
    let q = Query::parse(obj(vec![("missing", RawValue::Undefined)]));
    assert_eq!(q.equals(&v), Ok(false));
    assert_eq!(Query::Object(vec![]).equals(&v), Ok(true));
    assert_eq!(Query::Object(vec![]).equals(&RawValue::Null), Ok(true));
}

#[test]
fn object_query_compares_nested_values_deeply() {
    let v = obj(vec![("meta", obj(vec![("a", RawValue::Number(1)), ("b", text("x"))]))]);
    let q = Query::parse(obj(vec![("meta", obj(vec![("b", text("x")), ("a", RawValue::Number(1))]))]));
    assert_eq!(q.equals(&v), Ok(true));
    let q = Query::parse(obj(vec![("meta", obj(vec![("a", RawValue::Number(1))]))]));
    assert_eq!(q.equals(&v), Ok(false));
}

#[test]
fn list_and_function_cannot_be_evaluated() {
    assert_eq!(Query::List(vec![]).equals(&obj(vec![])), Err(QueryError::UnsupportedPredicate));
    assert_eq!(Query::Function.equals(&obj(vec![])), Err(QueryError::UnsupportedPredicate));
}

#[test]
fn deep_equality_of_values() {
    assert!(same_value(&RawValue::Undefined, &RawValue::Undefined));
    assert!(same_value(&RawValue::Null, &RawValue::Null));
    assert!(!same_value(&RawValue::Null, &RawValue::Undefined));
    assert!(same_value(&RawValue::Bool(true), &RawValue::Bool(true)));
    assert!(!same_value(&RawValue::Bool(true), &RawValue::Bool(false)));
    assert!(same_value(&RawValue::Number(4), &RawValue::Number(4)));
    assert!(!same_value(&RawValue::Number(4), &RawValue::Number(5)));
    assert!(!same_value(&RawValue::Function, &RawValue::Function));
    assert!(same_value(
        &RawValue::Array(vec![text("a"), RawValue::Number(1)]),
        &RawValue::Array(vec![text("a"), RawValue::Number(1)])
    ));
    assert!(!same_value(
        &RawValue::Array(vec![RawValue::Number(1), text("a")]),
        &RawValue::Array(vec![text("a"), RawValue::Number(1)])
    ));
    assert!(!same_value(&RawValue::Array(vec![]), &RawValue::Array(vec![RawValue::Null])));
    assert!(same_value(
        &obj(vec![("a", RawValue::Number(1)), ("b", RawValue::Null)]),
        &obj(vec![("b", RawValue::Null), ("a", RawValue::Number(1))])
    ));
    assert!(!same_value(
        &obj(vec![("a", RawValue::Number(1))]),
        &obj(vec![("a", RawValue::Number(1)), ("b", RawValue::Null)])
    ));
}

#[test]
fn within_is_one_sided() {
    let small = vec![("a".to_string(), RawValue::Number(1))];
    let big = obj(vec![("a", RawValue::Number(1)), ("b", RawValue::Null)]);
    assert!(within_props(&small, &big));
    let wrong = vec![("a".to_string(), RawValue::Number(2))];
    assert!(!within_props(&wrong, &big));
}

#[test]
fn property_lookup_takes_first_name() {
    let v = obj(vec![("k", RawValue::Number(1)), ("k", RawValue::Number(2))]);
    assert_eq!(v.get(&"k".to_string()), Some(&RawValue::Number(1)));
    assert_eq!(v.get(&"z".to_string()), None);
    assert_eq!(RawValue::Array(vec![]).get(&"k".to_string()), None);
}
