//! Filter trees and their evaluation against one document.

use vstd::prelude::*;
use crate::engine::{get_field, resolve};
use crate::order::Order;
use crate::text::{
    compare_text, contains_text, ends_with_text, same_text, starts_with_text, text_contains,
    text_ends_with, text_order, text_starts_with,
};
use crate::value::{json_equal, views, Json, Value};

verus! {

/// A node of a filter tree.
#[derive(Debug)]
pub enum FilterNode {
    Group(FilterGroup),
    Condition(FilterCondition),
}

/// A boolean group: with the logic `and` every condition must hold, with
/// any other logic at least one.
#[derive(Debug)]
pub struct FilterGroup {
    pub logic: String,
    pub conditions: Vec<FilterNode>,
}

/// A leaf: the value under `field` is held against `value` by `operator`.
#[derive(Debug)]
pub struct FilterCondition {
    pub field: String,
    pub operator: String,
    pub value: Value,
}

/// The mathematical model of a filter tree.
pub ghost enum FilterTree {
    Group { logic: Seq<char>, conditions: Seq<FilterTree> },
    Condition { field: Seq<char>, operator: Seq<char>, value: Json },
}

/// The operators of a condition.
#[derive(Clone, Copy, Debug, PartialEq, Eq, Structural)]
pub enum Operator {
    Eq,
    Ne,
    Gt,
    Gte,
    Lt,
    Lte,
    In,
    Nin,
    Contains,
    StartsWith,
    EndsWith,
    Exists,
    Unknown,
}

impl View for FilterNode {
    type V = FilterTree;

    open spec fn view(&self) -> FilterTree
        decreases self,
    {
        match self {
            FilterNode::Group(g) => g.view(),
            FilterNode::Condition(c) => c.view(),
        }
    }
}

impl View for FilterGroup {
    type V = FilterTree;

    open spec fn view(&self) -> FilterTree
        decreases self,
    {
        FilterTree::Group { logic: self.logic@, conditions: trees(self.conditions@) }
    }
}

impl View for FilterCondition {
    type V = FilterTree;

    open spec fn view(&self) -> FilterTree {
        FilterTree::Condition { field: self.field@, operator: self.operator@, value: self.value@ }
    }
}

/// The models of a sequence of filter nodes, in order.
pub open spec fn trees(nodes: Seq<FilterNode>) -> Seq<FilterTree>
    decreases nodes,
{
    Seq::new(
        nodes.len(),
        |i: int|
            if 0 <= i < nodes.len() {
                nodes[i].view()
            } else {
                FilterTree::Group { logic: Seq::empty(), conditions: Seq::empty() }
            },
    )
}

/// The operator that a name stands for; `Unknown` for any other name.
pub open spec fn operator_named(name: Seq<char>) -> Operator {
    if name == "eq"@ {
        Operator::Eq
    } else if name == "ne"@ {
        Operator::Ne
    } else if name == "gt"@ {
        Operator::Gt
    } else if name == "gte"@ {
        Operator::Gte
    } else if name == "lt"@ {
        Operator::Lt
    } else if name == "lte"@ {
        Operator::Lte
    } else if name == "in"@ {
        Operator::In
    } else if name == "nin"@ {
        Operator::Nin
    } else if name == "contains"@ {
        Operator::Contains
    } else if name == "startsWith"@ {
        Operator::StartsWith
    } else if name == "endsWith"@ {
        Operator::EndsWith
    } else if name == "exists"@ {
        Operator::Exists
    } else {
        Operator::Unknown
    }
}

/// How a resolved value stands to a literal for the relational operators:
/// two numbers are ordered as doubles, two texts by code point; anything
/// else, an absent value included, is incomparable.
pub open spec fn filter_order(found: Option<Json>, literal: Json) -> Option<Order> {
    match (found, literal) {
        (Some(Json::Number(x)), Json::Number(y)) => x.order(y),
        (Some(Json::Text(x)), Json::Text(y)) => Some(text_order(x, y)),
        _ => None,
    }
}

/// Whether `item` equals one of `items`.
pub open spec fn is_member(items: Seq<Json>, item: Json) -> bool {
    exists|i: int| 0 <= i < items.len() && json_equal(#[trigger] items[i], item)
}

/// Whether a condition with the resolved value `found` holds.
pub open spec fn operator_holds(op: Operator, found: Option<Json>, literal: Json) -> bool {
    match op {
        Operator::Eq => found is Some && json_equal(found->0, literal),
        Operator::Ne => !(found is Some && json_equal(found->0, literal)),
        Operator::Gt => filter_order(found, literal) == Some(Order::Greater),
        Operator::Gte => filter_order(found, literal) == Some(Order::Greater) || filter_order(
            found,
            literal,
        ) == Some(Order::Equal),
        Operator::Lt => filter_order(found, literal) == Some(Order::Less),
        Operator::Lte => filter_order(found, literal) == Some(Order::Less) || filter_order(
            found,
            literal,
        ) == Some(Order::Equal),
        Operator::In => found is Some && literal is Array && is_member(literal->Array_0, found->0),
        Operator::Nin => !(found is Some && literal is Array && is_member(
            literal->Array_0,
            found->0,
        )),
        Operator::Contains => found is Some && found->0 is Text && literal is Text
            && text_contains(found->0->Text_0, literal->Text_0),
        Operator::StartsWith => found is Some && found->0 is Text && literal is Text
            && text_starts_with(found->0->Text_0, literal->Text_0),
        Operator::EndsWith => found is Some && found->0 is Text && literal is Text
            && text_ends_with(found->0->Text_0, literal->Text_0),
        Operator::Exists => if literal == Json::Bool(true) {
            found is Some
        } else {
            found is None
        },
        Operator::Unknown => false,
    }
}

/// Whether the document `doc` passes the filter `tree`. A group with the
/// logic `and` passes where all its conditions pass, so an empty one always
/// does; any other group passes where one of its conditions passes, so an
/// empty one never does.
pub open spec fn satisfies(doc: Json, tree: FilterTree) -> bool
    decreases tree,
{
    match tree {
        FilterTree::Group { logic, conditions } => if logic == "and"@ {
            all_pass(doc, conditions)
        } else {
            any_passes(doc, conditions)
        },
        FilterTree::Condition { field, operator, value } => operator_holds(
            operator_named(operator),
            resolve(doc, field),
            value,
        ),
    }
}

/// Whether `doc` passes every one of `trees`.
pub open spec fn all_pass(doc: Json, trees: Seq<FilterTree>) -> bool
    decreases trees,
{
    forall|i: int| 0 <= i < trees.len() ==> satisfies(doc, #[trigger] trees[i])
}

/// Whether `doc` passes at least one of `trees`.
pub open spec fn any_passes(doc: Json, trees: Seq<FilterTree>) -> bool
    decreases trees,
{
    exists|i: int| 0 <= i < trees.len() && satisfies(doc, #[trigger] trees[i])
}

/// The model of an optional reference to a document.
pub open spec fn found_view(found: Option<&Value>) -> Option<Json> {
    match found {
        Some(v) => Some(v@),
        None => None,
    }
}

/// Reads the name of an operator.
pub fn parse_operator(name: &str) -> (r: Operator)
    ensures
        r == operator_named(name@),
{
    if same_text(name, "eq") {
        Operator::Eq
    } else if same_text(name, "ne") {
        Operator::Ne
    } else if same_text(name, "gt") {
        Operator::Gt
    } else if same_text(name, "gte") {
        Operator::Gte
    } else if same_text(name, "lt") {
        Operator::Lt
    } else if same_text(name, "lte") {
        Operator::Lte
    } else if same_text(name, "in") {
        Operator::In
    } else if same_text(name, "nin") {
        Operator::Nin
    } else if same_text(name, "contains") {
        Operator::Contains
    } else if same_text(name, "startsWith") {
        Operator::StartsWith
    } else if same_text(name, "endsWith") {
        Operator::EndsWith
    } else if same_text(name, "exists") {
        Operator::Exists
    } else {
        Operator::Unknown
    }
}

/// Compares a resolved value with a literal for the relational operators.
pub fn compare_values(a: Option<&Value>, b: &Value) -> (r: Option<Order>)
    ensures
        r == filter_order(found_view(a), b@),
{
    match (a, b) {
        (Some(Value::Number(x)), Value::Number(y)) => x.compare(y),
        (Some(Value::String(x)), Value::String(y)) => Some(compare_text(x.as_str(), y.as_str())),
        _ => None,
    }
}

/// Whether `item` equals one of `items`.
pub fn contains_value(items: &Vec<Value>, item: &Value) -> (r: bool)
    ensures
        r == is_member(views(items@), item@),
{
    let mut i: usize = 0;
    while i < items.len()
        invariant
            i <= items.len(),
            forall|j: int| 0 <= j < i ==> !json_equal(#[trigger] views(items@)[j], item@),
        decreases items.len() - i,
    {
        if items[i].same_value(item) {
            assert(json_equal(views(items@)[i as int], item@));
            return true;
        }
        i += 1;
    }
    false
}

/// Evaluates one condition against a document. An unknown operator, a
/// missing field or a comparison across kinds makes the condition fail; it
/// is never an error.
pub fn evaluate_condition(doc: &Value, cond: &FilterCondition) -> (r: bool)
    ensures
        r == satisfies(doc@, cond@),
{
    let field_value = get_field(doc, cond.field.as_str());
    let op = parse_operator(cond.operator.as_str());
    match op {
        Operator::Eq => match field_value {
            Some(v) => v.same_value(&cond.value),
            None => false,
        },
        Operator::Ne => match field_value {
            Some(v) => !v.same_value(&cond.value),
            None => true,
        },
        Operator::Gt => match compare_values(field_value, &cond.value) {
            Some(Order::Greater) => true,
            _ => false,
        },
        Operator::Gte => match compare_values(field_value, &cond.value) {
            Some(Order::Greater) => true,
            Some(Order::Equal) => true,
            _ => false,
        },
        Operator::Lt => match compare_values(field_value, &cond.value) {
            Some(Order::Less) => true,
            _ => false,
        },
        Operator::Lte => match compare_values(field_value, &cond.value) {
            Some(Order::Less) => true,
            Some(Order::Equal) => true,
            _ => false,
        },
        Operator::In => match (field_value, &cond.value) {
            (Some(v), Value::Array(items)) => contains_value(items, v),
            _ => false,
        },
        Operator::Nin => match (field_value, &cond.value) {
            (Some(v), Value::Array(items)) => !contains_value(items, v),
            _ => true,
        },
        Operator::Contains => match (field_value, &cond.value) {
            (Some(Value::String(v)), Value::String(target)) => contains_text(
                v.as_str(),
                target.as_str(),
            ),
            _ => false,
        },
        Operator::StartsWith => match (field_value, &cond.value) {
            (Some(Value::String(v)), Value::String(target)) => starts_with_text(
                v.as_str(),
                target.as_str(),
            ),
            _ => false,
        },
        Operator::EndsWith => match (field_value, &cond.value) {
            (Some(Value::String(v)), Value::String(target)) => ends_with_text(
                v.as_str(),
                target.as_str(),
            ),
            _ => false,
        },
        Operator::Exists => {
            let wanted = match &cond.value {
                Value::Bool(b) => *b,
                _ => false,
            };
            if wanted {
                field_value.is_some()
            } else {
                field_value.is_none()
            }
        },
        Operator::Unknown => false,
    }
}

/// Evaluates a filter tree against a document.
pub fn evaluate_filter(doc: &Value, filter: &FilterNode) -> (r: bool)
    ensures
        r == satisfies(doc@, filter@),
    decreases filter,
{
    match filter {
        FilterNode::Group(group) => {
            assert(filter@ == FilterTree::Group {
                logic: group.logic@,
                conditions: trees(group.conditions@),
            });
            if same_text(group.logic.as_str(), "and") {
                all_match(doc, &group.conditions)
            } else {
                any_match(doc, &group.conditions)
            }
        },
        FilterNode::Condition(cond) => evaluate_condition(doc, cond),
    }
}

/// Whether the document passes every node of `nodes`.
pub fn all_match(doc: &Value, nodes: &Vec<FilterNode>) -> (r: bool)
    ensures
        r == all_pass(doc@, trees(nodes@)),
    decreases nodes,
{
    let mut i: usize = 0;
    while i < nodes.len()
        invariant
            i <= nodes.len(),
            forall|j: int| 0 <= j < i ==> satisfies(doc@, #[trigger] trees(nodes@)[j]),
        decreases nodes.len() - i,
    {
        if !evaluate_filter(doc, &nodes[i]) {
            assert(!satisfies(doc@, trees(nodes@)[i as int]));
            return false;
        }
        i += 1;
    }
    true
}

/// Whether the document passes at least one node of `nodes`.
pub fn any_match(doc: &Value, nodes: &Vec<FilterNode>) -> (r: bool)
    ensures
        r == any_passes(doc@, trees(nodes@)),
    decreases nodes,
{
    let mut i: usize = 0;
    while i < nodes.len()
        invariant
            i <= nodes.len(),
            forall|j: int| 0 <= j < i ==> !satisfies(doc@, #[trigger] trees(nodes@)[j]),
        decreases nodes.len() - i,
    {
        if evaluate_filter(doc, &nodes[i]) {
            assert(satisfies(doc@, trees(nodes@)[i as int]));
            return true;
        }
        i += 1;
    }
    false
}

/// Each operator name stands for its own operator.
pub proof fn lemma_operator_names()
    ensures
        operator_named("eq"@) == Operator::Eq,
        operator_named("ne"@) == Operator::Ne,
        operator_named("gt"@) == Operator::Gt,
        operator_named("gte"@) == Operator::Gte,
        operator_named("lt"@) == Operator::Lt,
        operator_named("lte"@) == Operator::Lte,
        operator_named("in"@) == Operator::In,
        operator_named("nin"@) == Operator::Nin,
        operator_named("contains"@) == Operator::Contains,
        operator_named("startsWith"@) == Operator::StartsWith,
        operator_named("endsWith"@) == Operator::EndsWith,
        operator_named("exists"@) == Operator::Exists,
{
    reveal_strlit("eq");
    reveal_strlit("ne");
    reveal_strlit("gt");
    reveal_strlit("gte");
    reveal_strlit("lt");
    reveal_strlit("lte");
    reveal_strlit("in");
    reveal_strlit("nin");
    reveal_strlit("contains");
    reveal_strlit("startsWith");
    reveal_strlit("endsWith");
    reveal_strlit("exists");
    assert("eq"@.len() == 2 && "ne"@.len() == 2 && "gt"@.len() == 2 && "lt"@.len() == 2 && "in"@.len()
        == 2);
    assert("gte"@.len() == 3 && "lte"@.len() == 3 && "nin"@.len() == 3);
    assert("contains"@.len() == 8 && "endsWith"@.len() == 8);
    assert("startsWith"@.len() == 10 && "exists"@.len() == 6);
    assert("lte"@[0] != "gte"@[0] && "nin"@[0] != "gte"@[0] && "nin"@[0] != "lte"@[0]);
    assert("endsWith"@[0] != "contains"@[0]);
    assert("ne"@[0] != "eq"@[0]);
    assert("gt"@[0] != "eq"@[0] && "gt"@[0] != "ne"@[0]);
    assert("lt"@[0] != "eq"@[0] && "lt"@[0] != "ne"@[0] && "lt"@[0] != "gt"@[0]);
    assert("in"@[0] != "eq"@[0] && "in"@[0] != "ne"@[0] && "in"@[0] != "gt"@[0] && "in"@[0]
        != "lt"@[0]);
}

/// A group without conditions passes every document where its logic is
/// `and`, and no document where its logic is anything else, `or` for one.
pub proof fn lemma_empty_group(doc: Json, logic: Seq<char>)
    ensures
        satisfies(doc, FilterTree::Group { logic, conditions: Seq::empty() }) == (logic == "and"@),
        satisfies(doc, FilterTree::Group { logic: "and"@, conditions: Seq::empty() }),
        !satisfies(doc, FilterTree::Group { logic: "or"@, conditions: Seq::empty() }),
{
    reveal_strlit("and");
    reveal_strlit("or");
    assert("and"@.len() != "or"@.len());
}

/// A condition with the operator `exists` and the literal `true` holds of
/// exactly the documents in which the field resolves to something, and with
/// the literal `false` of exactly those in which it does not.
pub proof fn lemma_exists_condition(doc: Json, field: Seq<char>)
    ensures
        satisfies(
            doc,
            FilterTree::Condition { field, operator: "exists"@, value: Json::Bool(true) },
        ) == resolve(doc, field).is_some(),
        satisfies(
            doc,
            FilterTree::Condition { field, operator: "exists"@, value: Json::Bool(false) },
        ) == resolve(doc, field).is_none(),
{
    lemma_operator_names();
}

} // verus!
