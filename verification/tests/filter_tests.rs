use query_engine::engine::get_field;
use query_engine::filter::{
    compare_values, evaluate_condition, evaluate_filter, parse_operator, FilterCondition,
    FilterGroup, FilterNode, Operator,
};
use query_engine::number::Number;
use query_engine::order::Order;
use query_engine::value::{Object, Value};

fn whole(n: u64) -> Value {
    Value::Number(Number::PosInt(n))
}

fn neg(n: i64) -> Value {
    Value::Number(Number::NegInt(n))
}

fn float(x: f64) -> Value {
    Value::Number(Number::Float(x.to_bits()))
}

fn text(s: &str) -> Value {
    Value::String(s.to_string())
}

fn object(entries: Vec<(&str, Value)>) -> Value {
    let mut o = Object::new();
    for (k, v) in entries {
        o.insert(k.to_string(), v);
    }
    Value::Object(o)
}

fn cond(field: &str, operator: &str, value: Value) -> FilterCondition {
    FilterCondition { field: field.to_string(), operator: operator.to_string(), value }
}

fn holds(doc: &Value, field: &str, operator: &str, value: Value) -> bool {
    evaluate_condition(doc, &cond(field, operator, value))
}

fn group(logic: &str, conditions: Vec<FilterNode>) -> FilterNode {
    FilterNode::Group(FilterGroup { logic: logic.to_string(), conditions })
}

#[test]
fn test_eq() {
    let doc = object(vec![("name", text("Alice"))]);
    let cond = FilterCondition {
        field: "name".to_string(),
        operator: "eq".to_string(),
        value: text("Alice"),
    };
    assert!(evaluate_condition(&doc, &cond));
}

#[test]
fn test_gt() {
    let doc = object(vec![("age", whole(30))]);
    let cond = FilterCondition {
        field: "age".to_string(),
        operator: "gt".to_string(),
        value: whole(25),
    };
    assert!(evaluate_condition(&doc, &cond));
}

#[test]
fn test_contains() {
    let doc = object(vec![("name", text("Charlie"))]);
    let cond = FilterCondition {
        field: "name".to_string(),
        operator: "contains".to_string(),
        value: text("harl"),
    };
    assert!(evaluate_condition(&doc, &cond));
}

#[test]
fn test_and_group() {
    let doc = object(vec![("age", whole(30)), ("role", text("admin"))]);
    let filter = FilterNode::Group(FilterGroup {
        logic: "and".to_string(),
        conditions: vec![
            FilterNode::Condition(FilterCondition {
                field: "age".to_string(),
                operator: "gte".to_string(),
                value: whole(25),
            }),
            FilterNode::Condition(FilterCondition {
                field: "role".to_string(),
                operator: "eq".to_string(),
                value: text("admin"),
            }),
        ],
    });
    assert!(evaluate_filter(&doc, &filter));
}

#[test]
fn empty_groups_follow_the_convention() {
    let docs = vec![Value::Null, whole(1), object(vec![("a", whole(1))]), Value::Array(vec![])];
    for doc in &docs {
        assert!(evaluate_filter(doc, &group("and", vec![])));
        assert!(!evaluate_filter(doc, &group("or", vec![])));
    }
}

#[test]
fn a_group_with_another_logic_is_a_disjunction() {
    let doc = object(vec![("a", whole(1))]);
    let yes = || FilterNode::Condition(cond("a", "eq", whole(1)));
    let no = || FilterNode::Condition(cond("a", "eq", whole(2)));
    assert!(evaluate_filter(&doc, &group("or", vec![no(), yes()])));
    assert!(!evaluate_filter(&doc, &group("or", vec![no(), no()])));
    assert!(evaluate_filter(&doc, &group("AND", vec![no(), yes()])));
    assert!(!evaluate_filter(&doc, &group("and", vec![yes(), no()])));
    assert!(evaluate_filter(&doc, &group("and", vec![yes(), yes()])));
}

#[test]
fn groups_nest() {
    let doc = object(vec![("age", whole(30)), ("role", text("admin"))]);
    let inner = group(
        "or",
        vec![
            FilterNode::Condition(cond("role", "eq", text("user"))),
            FilterNode::Condition(cond("age", "lt", whole(40))),
        ],
    );
    let outer = group("and", vec![inner, FilterNode::Condition(cond("age", "gte", whole(30)))]);
    assert!(evaluate_filter(&doc, &outer));
}

#[test]
fn exists_holds_exactly_where_the_path_resolves() {
    let doc = object(vec![
        ("a", object(vec![("b", Value::Null)])),
        ("n", whole(0)),
    ]);
    for path in ["a", "a.b", "n", "a.c", "x", "n.m", "", "a."] {
        let present = get_field(&doc, path).is_some();
        assert_eq!(holds(&doc, path, "exists", Value::Bool(true)), present);
        assert_eq!(holds(&doc, path, "exists", Value::Bool(false)), !present);
    }
    assert!(holds(&doc, "a.b", "exists", Value::Bool(true)));
    assert!(!holds(&doc, "a.c", "exists", Value::Bool(true)));
}

#[test]
fn exists_with_another_literal_asks_for_absence() {
    let doc = object(vec![("a", whole(1))]);
    assert!(!holds(&doc, "a", "exists", text("true")));
    assert!(holds(&doc, "b", "exists", whole(1)));
}

#[test]
fn relational_operators_on_numbers() {
    let doc = object(vec![("age", whole(30))]);
    assert!(holds(&doc, "age", "gt", whole(25)));
    assert!(!holds(&doc, "age", "gt", whole(30)));
    assert!(holds(&doc, "age", "gte", whole(30)));
    assert!(!holds(&doc, "age", "gte", whole(31)));
    assert!(holds(&doc, "age", "lt", whole(31)));
    assert!(!holds(&doc, "age", "lt", whole(30)));
    assert!(holds(&doc, "age", "lte", whole(30)));
    assert!(!holds(&doc, "age", "lte", whole(29)));
}

#[test]
fn a_type_mismatch_fails_every_relational_operator() {
    let doc = object(vec![("age", text("old")), ("flag", Value::Bool(true))]);
    for op in ["gt", "gte", "lt", "lte"] {
        assert!(!holds(&doc, "age", op, whole(25)));
        assert!(!holds(&doc, "missing", op, whole(25)));
        assert!(!holds(&doc, "flag", op, Value::Bool(false)));
        assert!(!holds(&doc, "flag", op, Value::Bool(true)));
    }
}

#[test]
fn whole_numbers_are_compared_as_doubles() {
    let doc = object(vec![("x", whole(1)), ("y", neg(-1)), ("z", float(2.5))]);
    assert!(holds(&doc, "x", "gt", float(0.5)));
    assert!(!holds(&doc, "x", "lt", float(0.5)));
    assert!(holds(&doc, "x", "gte", float(1.0)));
    assert!(holds(&doc, "x", "lte", float(1.0)));
    assert!(holds(&doc, "y", "lt", float(-0.5)));
    assert!(holds(&doc, "y", "lt", whole(0)));
    assert!(holds(&doc, "y", "gt", neg(-2)));
    assert!(holds(&doc, "z", "gt", whole(2)));
    assert!(holds(&doc, "z", "lt", whole(3)));
    assert_eq!(
        compare_values(Some(&whole(u64::MAX)), &float(18446744073709551615.0)),
        Some(Order::Equal)
    );
    assert_eq!(compare_values(Some(&float(-0.0)), &float(0.0)), Some(Order::Equal));
    assert_eq!(compare_values(Some(&float(-1.5)), &float(-1.25)), Some(Order::Less));
    assert_eq!(compare_values(Some(&float(1e300)), &float(-1e300)), Some(Order::Greater));
    assert_eq!(compare_values(Some(&float(f64::NAN)), &float(1.0)), None);
    assert_eq!(compare_values(None, &whole(1)), None);
}

#[test]
fn relational_operators_on_text() {
    let doc = object(vec![("name", text("bob"))]);
    assert!(holds(&doc, "name", "gt", text("alice")));
    assert!(holds(&doc, "name", "lt", text("bobby")));
    assert!(holds(&doc, "name", "gte", text("bob")));
    assert!(holds(&doc, "name", "lte", text("bob")));
    assert!(!holds(&doc, "name", "lt", text("Bob")));
    assert_eq!(compare_values(Some(&text("")), &text("a")), Some(Order::Less));
    assert_eq!(compare_values(Some(&text("é")), &text("z")), Some(Order::Greater));
}

#[test]
fn equality_is_structural() {
    let doc = object(vec![
        ("a", Value::Array(vec![whole(1), text("x")])),
        ("o", object(vec![("k", Value::Null)])),
        ("n", Value::Null),
        ("one", whole(1)),
        ("zero", float(0.0)),
    ]);
    assert!(holds(&doc, "a", "eq", Value::Array(vec![whole(1), text("x")])));
    assert!(!holds(&doc, "a", "eq", Value::Array(vec![text("x"), whole(1)])));
    assert!(holds(&doc, "o", "eq", object(vec![("k", Value::Null)])));
    assert!(holds(&doc, "n", "eq", Value::Null));
    assert!(!holds(&doc, "missing", "eq", Value::Null));
    assert!(holds(&doc, "missing", "ne", Value::Null));
    assert!(!holds(&doc, "one", "eq", float(1.0)));
    assert!(holds(&doc, "one", "ne", float(1.0)));
    assert!(holds(&doc, "zero", "eq", float(-0.0)));
    assert!(!holds(&doc, "one", "ne", whole(1)));
}

#[test]
fn membership_operators() {
    let doc = object(vec![("role", text("admin"))]);
    let roles = || Value::Array(vec![text("user"), text("admin")]);
    assert!(holds(&doc, "role", "in", roles()));
    assert!(!holds(&doc, "role", "nin", roles()));
    assert!(!holds(&doc, "role", "in", Value::Array(vec![text("user")])));
    assert!(holds(&doc, "role", "nin", Value::Array(vec![text("user")])));
    assert!(!holds(&doc, "role", "in", Value::Array(vec![])));
    assert!(!holds(&doc, "missing", "in", roles()));
    assert!(holds(&doc, "missing", "nin", roles()));
    assert!(!holds(&doc, "role", "in", text("admin")));
    assert!(holds(&doc, "role", "nin", text("admin")));
}

#[test]
fn text_operators() {
    let doc = object(vec![("name", text("Charlie")), ("n", whole(5))]);
    assert!(holds(&doc, "name", "contains", text("")));
    assert!(holds(&doc, "name", "contains", text("Charlie")));
    assert!(!holds(&doc, "name", "contains", text("charlie")));
    assert!(!holds(&doc, "name", "contains", text("Charlie!")));
    assert!(holds(&doc, "name", "startsWith", text("Char")));
    assert!(!holds(&doc, "name", "startsWith", text("har")));
    assert!(holds(&doc, "name", "endsWith", text("lie")));
    assert!(!holds(&doc, "name", "endsWith", text("li")));
    assert!(holds(&doc, "name", "endsWith", text("")));
    assert!(!holds(&doc, "n", "contains", text("5")));
    assert!(!holds(&doc, "name", "contains", whole(5)));
    assert!(!holds(&doc, "missing", "startsWith", text("")));
}

#[test]
fn an_unknown_operator_never_holds() {
    let doc = object(vec![("a", whole(1))]);
    assert!(!holds(&doc, "a", "equals", whole(1)));
    assert!(!holds(&doc, "a", "", whole(1)));
    assert!(!holds(&doc, "a", "EQ", whole(1)));
    assert_eq!(parse_operator("startswith"), Operator::Unknown);
    assert_eq!(parse_operator("startsWith"), Operator::StartsWith);
    assert_eq!(parse_operator("nin"), Operator::Nin);
}
