use query_engine::engine::{apply_projection, execute, get_field, Projection, QueryPlan};
use query_engine::filter::{FilterCondition, FilterNode};
use query_engine::number::Number;
use query_engine::sort::SortClause;
use query_engine::value::{Object, Value};

fn whole(n: u64) -> Value {
    Value::Number(Number::PosInt(n))
}

fn text(s: &str) -> Value {
    Value::String(s.to_string())
}

fn object(entries: Vec<(&str, Value)>) -> Value {
    let mut o = Object::new();
    for (k, v) in entries {
        o.insert(k.to_string(), v);
    }
    Value::Object(o)
}

fn names(list: &[&str]) -> Option<Vec<String>> {
    Some(list.iter().map(|s| s.to_string()).collect())
}

fn plan() -> QueryPlan {
    QueryPlan { filter: None, sort: None, skip: None, limit: None, projection: None }
}

fn numbered(n: u64) -> Vec<Value> {
    (0..n).map(|i| object(vec![("x", whole(i)), ("even", Value::Bool(i % 2 == 0))])).collect()
}

fn is_even() -> Option<FilterNode> {
    Some(FilterNode::Condition(FilterCondition {
        field: "even".to_string(),
        operator: "eq".to_string(),
        value: Value::Bool(true),
    }))
}

#[test]
fn test_get_field() {
    let doc = object(vec![("a", object(vec![("b", whole(42))]))]);
    assert_eq!(get_field(&doc, "a.b"), Some(&whole(42)));
}

#[test]
fn test_execute_no_filter() {
    let docs = vec![object(vec![("x", whole(1))]), object(vec![("x", whole(2))])];
    let plan = QueryPlan {
        filter: None,
        sort: None,
        skip: None,
        limit: Some(1),
        projection: None,
    };
    let result = execute(&docs, &plan);
    assert_eq!(result.total_matched, 2);
    assert_eq!(result.documents.len(), 1);
}

#[test]
fn a_limit_keeps_the_first_documents() {
    let docs = vec![object(vec![("x", whole(1))]), object(vec![("x", whole(2))])];
    let result = execute(&docs, &QueryPlan { limit: Some(1), ..plan() });
    assert_eq!(result.total_matched, 2);
    assert_eq!(result.documents, vec![object(vec![("x", whole(1))])]);
    let none = execute(&docs, &QueryPlan { limit: Some(0), ..plan() });
    assert_eq!(none.total_matched, 2);
    assert!(none.documents.is_empty());
    let all = execute(&docs, &QueryPlan { limit: Some(5), ..plan() });
    assert_eq!(all.documents, docs);
}

#[test]
fn paths_resolve_segment_by_segment() {
    let doc = object(vec![
        ("a", object(vec![("b", object(vec![("c", Value::Null)])), ("", whole(7))])),
        ("list", Value::Array(vec![whole(1)])),
        ("", text("empty")),
        ("a.b", whole(9)),
    ]);
    assert_eq!(get_field(&doc, "a.b.c"), Some(&Value::Null));
    assert_eq!(get_field(&doc, "a.b"), Some(&object(vec![("c", Value::Null)])));
    assert_eq!(get_field(&doc, "a.x"), None);
    assert_eq!(get_field(&doc, "a.b.c.d"), None);
    assert_eq!(get_field(&doc, "list.0"), None);
    assert_eq!(get_field(&doc, "x.y"), None);
    assert_eq!(get_field(&doc, ""), Some(&text("empty")));
    assert_eq!(get_field(&doc, "a."), Some(&whole(7)));
    assert_eq!(get_field(&doc, ".a"), None);
    assert_eq!(get_field(&whole(1), "a"), None);
    assert_eq!(get_field(&Value::Array(vec![]), ""), None);
}

#[test]
fn the_total_counts_what_the_filter_passes() {
    let docs = numbered(9);
    let plans = vec![
        QueryPlan { filter: is_even(), ..plan() },
        QueryPlan { filter: is_even(), skip: Some(2), ..plan() },
        QueryPlan { filter: is_even(), skip: Some(100), ..plan() },
        QueryPlan { filter: is_even(), limit: Some(1), ..plan() },
        QueryPlan { filter: is_even(), skip: Some(1), limit: Some(0), ..plan() },
        QueryPlan {
            filter: is_even(),
            projection: Some(Projection { include_fields: names(&["x"]), exclude: None }),
            ..plan()
        },
        QueryPlan {
            filter: is_even(),
            sort: Some(vec![SortClause { field: "x".to_string(), direction: "desc".to_string() }]),
            skip: Some(3),
            limit: Some(3),
            projection: Some(Projection { include_fields: None, exclude: names(&["x"]) }),
        },
    ];
    for p in &plans {
        assert_eq!(execute(&docs, p).total_matched, 5);
    }
    assert_eq!(execute(&docs, &plan()).total_matched, 9);
}

#[test]
fn skip_then_limit() {
    let docs = numbered(6);
    let xs = |p: &QueryPlan| -> Vec<Value> {
        execute(&docs, p).documents.iter().map(|d| get_field(d, "x").unwrap().clone()).collect()
    };
    assert_eq!(xs(&QueryPlan { skip: Some(2), ..plan() }), vec![whole(2), whole(3), whole(4), whole(5)]);
    assert_eq!(xs(&QueryPlan { skip: Some(2), limit: Some(3), ..plan() }), vec![whole(2), whole(3), whole(4)]);
    assert_eq!(xs(&QueryPlan { skip: Some(5), limit: Some(3), ..plan() }), vec![whole(5)]);
    assert_eq!(xs(&QueryPlan { skip: Some(6), ..plan() }), Vec::<Value>::new());
    assert_eq!(xs(&QueryPlan { skip: Some(7), limit: Some(1), ..plan() }), Vec::<Value>::new());
    assert_eq!(xs(&QueryPlan { skip: Some(0), ..plan() }).len(), 6);
}

#[test]
fn the_pipeline_runs_in_order() {
    let docs = numbered(10);
    let result = execute(
        &docs,
        &QueryPlan {
            filter: is_even(),
            sort: Some(vec![SortClause { field: "x".to_string(), direction: "desc".to_string() }]),
            skip: Some(1),
            limit: Some(2),
            projection: Some(Projection { include_fields: names(&["x", "nothing"]), exclude: None }),
        },
    );
    assert_eq!(result.total_matched, 5);
    assert_eq!(result.documents, vec![object(vec![("x", whole(6))]), object(vec![("x", whole(4))])]);
}

#[test]
fn projection_keeps_or_drops_top_level_keys() {
    let doc = || {
        object(vec![
            ("a", whole(1)),
            ("b", object(vec![("c", whole(2))])),
            ("b.c", whole(3)),
            ("d", Value::Null),
        ])
    };
    let keep = |list: &[&str]| {
        apply_projection(doc(), &Projection { include_fields: names(list), exclude: None })
    };
    let drop = |list: &[&str]| {
        apply_projection(doc(), &Projection { include_fields: None, exclude: names(list) })
    };
    assert_eq!(keep(&["a", "d", "zzz"]), object(vec![("a", whole(1)), ("d", Value::Null)]));
    assert_eq!(keep(&["b.c"]), object(vec![("b.c", whole(3))]));
    assert_eq!(keep(&[]), object(vec![]));
    assert_eq!(keep(&["d", "a", "a"]), object(vec![("a", whole(1)), ("d", Value::Null)]));
    assert_eq!(drop(&["b", "a"]), object(vec![("b.c", whole(3)), ("d", Value::Null)]));
    assert_eq!(drop(&["c"]), doc());
    assert_eq!(
        apply_projection(doc(), &Projection { include_fields: names(&["a"]), exclude: names(&["a"]) }),
        object(vec![("a", whole(1))])
    );
    assert_eq!(apply_projection(doc(), &Projection { include_fields: None, exclude: None }), doc());
    assert_eq!(
        apply_projection(whole(5), &Projection { include_fields: names(&["a"]), exclude: None }),
        whole(5)
    );
    assert_eq!(
        apply_projection(
            Value::Array(vec![doc()]),
            &Projection { include_fields: None, exclude: names(&["a"]) }
        ),
        Value::Array(vec![doc()])
    );
}

#[test]
fn projecting_on_every_key_gives_the_document_back() {
    let doc = object(vec![
        ("name", text("Ann")),
        ("age", whole(30)),
        ("tags", Value::Array(vec![text("x")])),
        ("nested", object(vec![("k", whole(1))])),
    ]);
    let all = Projection {
        include_fields: names(&["tags", "nested", "age", "name"]),
        exclude: None,
    };
    assert_eq!(apply_projection(doc.clone(), &all), doc);
    let nothing_dropped = Projection { include_fields: None, exclude: names(&[]) };
    assert_eq!(apply_projection(doc.clone(), &nothing_dropped), doc);
}
