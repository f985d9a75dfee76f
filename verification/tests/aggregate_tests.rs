use query_engine::aggregate::{
    aggregate_operands, aggregate_value, execute_aggregate, folds_have_shape,
    try_execute_aggregate, AggregateClause, FloatFold, GroupByClause,
};
use query_engine::engine::get_field;
use query_engine::filter::{FilterCondition, FilterNode};
use query_engine::number::Number;
use query_engine::value::{Object, Value};

fn whole(n: u64) -> Value {
    Value::Number(Number::PosInt(n))
}

fn float(x: f64) -> Value {
    Value::Number(Number::Float(x.to_bits()))
}

fn text(s: &str) -> Value {
    Value::String(s.to_string())
}

fn object(entries: Vec<(&str, Value)>) -> Value {
    let mut o = Object::new();
    for (k, v) in entries {
        o.insert(k.to_string(), v);
    }
    Value::Object(o)
}

fn clause(function: &str, field: Option<&str>, alias: &str) -> AggregateClause {
    AggregateClause {
        function: function.to_string(),
        field: field.map(|f| f.to_string()),
        alias: alias.to_string(),
    }
}

fn fold(numbers: &Vec<u64>) -> FloatFold {
    let mut total = 0.0f64;
    for bits in numbers {
        total += f64::from_bits(*bits);
    }
    FloatFold { total: total.to_bits(), mean: (total / numbers.len() as f64).to_bits() }
}

fn aggregate(docs: &[Value], group_by: &GroupByClause, filter: Option<&FilterNode>) -> Vec<Value> {
    let operands = aggregate_operands(docs, group_by, filter);
    let folds: Vec<Vec<FloatFold>> =
        operands.iter().map(|group| group.iter().map(fold).collect()).collect();
    execute_aggregate(docs, group_by, filter, &folds)
}

fn at<'a>(doc: &'a Value, path: &str) -> &'a Value {
    get_field(doc, path).unwrap()
}

#[test]
fn test_group_count() {
    let docs = vec![
        object(vec![("role", text("admin")), ("score", whole(90))]),
        object(vec![("role", text("user")), ("score", whole(80))]),
        object(vec![("role", text("admin")), ("score", whole(95))]),
    ];
    let group_by = GroupByClause {
        fields: vec!["role".to_string()],
        aggregates: vec![AggregateClause {
            function: "count".to_string(),
            field: None,
            alias: "total".to_string(),
        }],
    };

    let result = aggregate(&docs, &group_by, None);
    assert_eq!(result.len(), 2);

    let admin = result.iter().find(|r| at(r, "role") == &text("admin")).unwrap();
    assert_eq!(at(admin, "total"), &whole(2));
}

#[test]
fn test_sum_avg() {
    let docs = vec![
        object(vec![("g", text("a")), ("v", float(10.0))]),
        object(vec![("g", text("a")), ("v", float(20.0))]),
    ];
    let group_by = GroupByClause {
        fields: vec!["g".to_string()],
        aggregates: vec![
            AggregateClause {
                function: "sum".to_string(),
                field: Some("v".to_string()),
                alias: "s".to_string(),
            },
            AggregateClause {
                function: "avg".to_string(),
                field: Some("v".to_string()),
                alias: "a".to_string(),
            },
        ],
    };

    let result = aggregate(&docs, &group_by, None);
    assert_eq!(at(&result[0], "s"), &float(30.0));
    assert_eq!(at(&result[0], "a"), &float(15.0));
}

#[test]
fn groups_come_in_the_order_of_their_first_document() {
    let docs = vec![
        object(vec![("role", text("admin")), ("score", whole(90))]),
        object(vec![("role", text("user")), ("score", whole(80))]),
        object(vec![("role", text("admin")), ("score", whole(95))]),
    ];
    let group_by = GroupByClause {
        fields: vec!["role".to_string()],
        aggregates: vec![clause("count", None, "total")],
    };
    assert_eq!(
        aggregate(&docs, &group_by, None),
        vec![
            object(vec![("role", text("admin")), ("total", whole(2))]),
            object(vec![("role", text("user")), ("total", whole(1))]),
        ]
    );
}

#[test]
fn whole_numbers_are_summed_as_doubles() {
    let docs = vec![
        object(vec![("g", text("a")), ("v", whole(10))]),
        object(vec![("g", text("a")), ("v", whole(20))]),
    ];
    let group_by = GroupByClause {
        fields: vec!["g".to_string()],
        aggregates: vec![clause("sum", Some("v"), "s"), clause("avg", Some("v"), "a")],
    };
    assert_eq!(
        aggregate_operands(&docs, &group_by, None),
        vec![vec![
            vec![10.0f64.to_bits(), 20.0f64.to_bits()],
            vec![10.0f64.to_bits(), 20.0f64.to_bits()],
        ]]
    );
    assert_eq!(
        aggregate(&docs, &group_by, None),
        vec![object(vec![("g", text("a")), ("s", float(30.0)), ("a", float(15.0))])]
    );
}

#[test]
fn count_is_the_size_of_the_group_whatever_the_field() {
    let docs = vec![
        object(vec![("g", whole(1)), ("v", whole(5))]),
        object(vec![("g", whole(1)), ("v", text("five"))]),
        object(vec![("g", whole(1))]),
        object(vec![("g", whole(2)), ("v", Value::Null)]),
    ];
    let group_by = GroupByClause {
        fields: vec!["g".to_string()],
        aggregates: vec![
            clause("count", None, "n"),
            clause("count", Some("v"), "nv"),
            clause("count", Some("missing"), "nm"),
        ],
    };
    let rows = aggregate(&docs, &group_by, None);
    assert_eq!(rows.len(), 2);
    for (row, size) in rows.iter().zip([3u64, 1u64]) {
        assert_eq!(at(row, "n"), &whole(size));
        assert_eq!(at(row, "nv"), &whole(size));
        assert_eq!(at(row, "nm"), &whole(size));
    }
    let any = FloatFold { total: 1.5f64.to_bits(), mean: f64::NAN.to_bits() };
    assert_eq!(aggregate_value("count", 7, &vec![1, 2], &any), whole(7));
    assert_eq!(aggregate_value("count", 0, &vec![], &any), whole(0));
}

#[test]
fn aggregates_of_no_numbers() {
    let docs = vec![
        object(vec![("g", text("a")), ("v", text("x"))]),
        object(vec![("g", text("a"))]),
    ];
    let group_by = GroupByClause {
        fields: vec!["g".to_string()],
        aggregates: vec![
            clause("avg", Some("v"), "avg"),
            clause("min", Some("v"), "min"),
            clause("max", Some("v"), "max"),
            clause("sum", Some("v"), "sum"),
            clause("avg", None, "avg_none"),
            clause("min", None, "min_none"),
            clause("max", None, "max_none"),
        ],
    };
    let rows = aggregate(&docs, &group_by, None);
    assert_eq!(rows.len(), 1);
    assert_eq!(at(&rows[0], "avg"), &whole(0));
    assert_eq!(at(&rows[0], "min"), &Value::Null);
    assert_eq!(at(&rows[0], "max"), &Value::Null);
    assert_eq!(at(&rows[0], "sum"), &float(0.0));
    assert_eq!(at(&rows[0], "avg_none"), &whole(0));
    assert_eq!(at(&rows[0], "min_none"), &Value::Null);
    assert_eq!(at(&rows[0], "max_none"), &Value::Null);
}

#[test]
fn least_and_greatest() {
    let docs = vec![
        object(vec![("v", float(2.5))]),
        object(vec![("v", whole(7))]),
        object(vec![("v", Value::Number(Number::NegInt(-3)))]),
        object(vec![("v", text("9"))]),
        object(vec![("v", float(-0.5))]),
        object(vec![]),
    ];
    let group_by = GroupByClause {
        fields: vec![],
        aggregates: vec![
            clause("min", Some("v"), "lo"),
            clause("max", Some("v"), "hi"),
            clause("sum", Some("v"), "sum"),
            clause("avg", Some("v"), "avg"),
            clause("count", Some("v"), "n"),
        ],
    };
    assert_eq!(
        aggregate(&docs, &group_by, None),
        vec![object(vec![
            ("lo", float(-3.0)),
            ("hi", float(7.0)),
            ("sum", float(6.0)),
            ("avg", float(1.5)),
            ("n", whole(6)),
        ])]
    );
}

#[test]
fn an_unknown_function_gives_null() {
    let docs = vec![object(vec![("v", whole(1))])];
    let group_by = GroupByClause {
        fields: vec![],
        aggregates: vec![clause("median", Some("v"), "m"), clause("COUNT", None, "c")],
    };
    assert_eq!(
        aggregate(&docs, &group_by, None),
        vec![object(vec![("m", Value::Null), ("c", Value::Null)])]
    );
}

#[test]
fn results_that_are_not_finite_become_null() {
    let numbers = vec![1e308f64.to_bits(), 1e308f64.to_bits()];
    let overflow = FloatFold { total: f64::INFINITY.to_bits(), mean: f64::INFINITY.to_bits() };
    assert_eq!(aggregate_value("sum", 2, &numbers, &overflow), Value::Null);
    assert_eq!(aggregate_value("avg", 2, &numbers, &overflow), Value::Null);
    assert_eq!(aggregate_value("max", 2, &numbers, &overflow), float(1e308));
    let odd = vec![f64::NAN.to_bits(), 2.0f64.to_bits(), f64::NAN.to_bits(), 1.0f64.to_bits()];
    assert_eq!(aggregate_value("min", 4, &odd, &overflow), float(1.0));
    assert_eq!(aggregate_value("max", 4, &odd, &overflow), float(2.0));
    let lost = vec![f64::NAN.to_bits()];
    assert_eq!(aggregate_value("min", 1, &lost, &overflow), Value::Null);
}

#[test]
fn the_filter_comes_before_the_grouping() {
    let docs = vec![
        object(vec![("g", text("a")), ("v", whole(1))]),
        object(vec![("g", text("b")), ("v", whole(2))]),
        object(vec![("g", text("a")), ("v", whole(3))]),
        object(vec![("g", text("c")), ("v", whole(0))]),
    ];
    let filter = FilterNode::Condition(FilterCondition {
        field: "v".to_string(),
        operator: "gte".to_string(),
        value: whole(2),
    });
    let group_by = GroupByClause {
        fields: vec!["g".to_string()],
        aggregates: vec![clause("count", None, "n"), clause("sum", Some("v"), "s")],
    };
    assert_eq!(
        aggregate(&docs, &group_by, Some(&filter)),
        vec![
            object(vec![("g", text("b")), ("n", whole(1)), ("s", float(2.0))]),
            object(vec![("g", text("a")), ("n", whole(1)), ("s", float(3.0))]),
        ]
    );
    let none = FilterNode::Condition(FilterCondition {
        field: "v".to_string(),
        operator: "gt".to_string(),
        value: whole(100),
    });
    assert!(aggregate(&docs, &group_by, Some(&none)).is_empty());
    assert!(aggregate(&[], &group_by, None).is_empty());
}

#[test]
fn group_keys_take_every_field() {
    let docs = vec![
        object(vec![("a", whole(1)), ("b", object(vec![("c", text("x"))]))]),
        object(vec![("a", whole(1)), ("b", object(vec![("c", text("y"))]))]),
        object(vec![("a", whole(1)), ("b", object(vec![("c", text("x"))]))]),
        object(vec![("a", float(1.0)), ("b", object(vec![("c", text("x"))]))]),
        object(vec![("b", object(vec![("c", text("x"))]))]),
        object(vec![("a", Value::Null), ("b", object(vec![("c", text("x"))]))]),
    ];
    let group_by = GroupByClause {
        fields: vec!["a".to_string(), "b.c".to_string()],
        aggregates: vec![clause("count", None, "n")],
    };
    assert_eq!(
        aggregate(&docs, &group_by, None),
        vec![
            object(vec![("a", whole(1)), ("b.c", text("x")), ("n", whole(2))]),
            object(vec![("a", whole(1)), ("b.c", text("y")), ("n", whole(1))]),
            object(vec![("a", float(1.0)), ("b.c", text("x")), ("n", whole(1))]),
            object(vec![("b.c", text("x")), ("n", whole(2))]),
        ]
    );
}

#[test]
fn an_alias_replaces_a_field_of_the_same_name() {
    let docs = vec![object(vec![("g", text("a"))]), object(vec![("g", text("a"))])];
    let group_by = GroupByClause {
        fields: vec!["g".to_string()],
        aggregates: vec![clause("count", None, "g"), clause("min", None, "g2")],
    };
    assert_eq!(
        aggregate(&docs, &group_by, None),
        vec![object(vec![("g", whole(2)), ("g2", Value::Null)])]
    );
}

#[test]
fn folds_of_another_shape_are_refused() {
    let docs = vec![
        object(vec![("g", text("a")), ("v", whole(1))]),
        object(vec![("g", text("b")), ("v", whole(2))]),
    ];
    let group_by = GroupByClause {
        fields: vec!["g".to_string()],
        aggregates: vec![clause("sum", Some("v"), "s")],
    };
    let one = FloatFold { total: 1.0f64.to_bits(), mean: 1.0f64.to_bits() };
    let two = FloatFold { total: 2.0f64.to_bits(), mean: 2.0f64.to_bits() };
    assert_eq!(try_execute_aggregate(&docs, &group_by, None, &vec![vec![one]]), None);
    assert_eq!(try_execute_aggregate(&docs, &group_by, None, &vec![vec![one], vec![]]), None);
    assert_eq!(
        try_execute_aggregate(&docs, &group_by, None, &vec![vec![one], vec![two, two]]),
        None
    );
    assert_eq!(
        try_execute_aggregate(&docs, &group_by, None, &vec![vec![one], vec![two]]),
        Some(vec![
            object(vec![("g", text("a")), ("s", float(1.0))]),
            object(vec![("g", text("b")), ("s", float(2.0))]),
        ])
    );
    assert!(folds_have_shape(&vec![vec![one], vec![two]], 2, 1));
    assert!(!folds_have_shape(&vec![vec![one], vec![two]], 2, 2));
    assert!(!folds_have_shape(&vec![vec![one], vec![two]], 1, 1));
    assert!(folds_have_shape(&vec![], 0, 3));
}
