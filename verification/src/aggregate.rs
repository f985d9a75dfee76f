//! Grouped aggregates over documents.

use vstd::prelude::*;
use crate::engine::{filter_view, get_field, matched, passing_documents, resolve};
use crate::filter::{FilterNode, FilterTree};
use crate::number::{
    compare_float_bits, float_bits_ordered, float_key, is_finite, is_nan, Number,
};
use crate::order::Order;
use crate::text::{same_text, texts};
use crate::value::{views, views_of, with_entry, Json, Object, Value};

verus! {

/// What to group by, and what to compute of each group.
#[derive(Debug)]
pub struct GroupByClause {
    pub fields: Vec<String>,
    pub aggregates: Vec<AggregateClause>,
}

/// One aggregate: the function (`count`, `sum`, `avg`, `min` or `max`), the
/// field whose numbers it is computed of, and the key under which the
/// result goes into the row of the group.
#[derive(Debug)]
pub struct AggregateClause {
    pub function: String,
    pub field: Option<String>,
    pub alias: String,
}

/// What floating-point arithmetic made of one list of numbers: their sum,
/// added up in order, and that sum divided by how many they are. Both are
/// doubles, given by their bit patterns.
#[derive(Clone, Copy, Debug)]
pub struct FloatFold {
    pub total: u64,
    pub mean: u64,
}

/// The mathematical model of an aggregate clause.
pub ghost struct AggregateModel {
    pub function: Seq<char>,
    pub field: Option<Seq<char>>,
    pub alias: Seq<char>,
}

/// The mathematical model of a group-by clause.
pub ghost struct GroupByModel {
    pub fields: Seq<Seq<char>>,
    pub aggregates: Seq<AggregateModel>,
}

impl View for AggregateClause {
    type V = AggregateModel;

    open spec fn view(&self) -> AggregateModel {
        AggregateModel {
            function: self.function@,
            field: match self.field {
                Some(name) => Some(name@),
                None => None,
            },
            alias: self.alias@,
        }
    }
}

impl View for GroupByClause {
    type V = GroupByModel;

    open spec fn view(&self) -> GroupByModel {
        GroupByModel {
            fields: texts(self.fields@),
            aggregates: Seq::new(self.aggregates@.len(), |i: int| self.aggregates@[i]@),
        }
    }
}

/// What stands for a resolved value in a group key: the value, or null
/// where there is none.
pub open spec fn key_part(found: Option<Json>) -> Json {
    match found {
        Some(v) => v,
        None => Json::Null,
    }
}

/// The group key of a document: what each field resolves to, in order.
pub open spec fn group_key(doc: Json, fields: Seq<Seq<char>>) -> Seq<Json> {
    Seq::new(fields.len(), |i: int| key_part(resolve(doc, fields[i])))
}

/// Whether two documents have the same group key.
pub open spec fn same_key(a: Json, b: Json, fields: Seq<Seq<char>>) -> bool {
    group_key(a, fields) == group_key(b, fields)
}

/// The test that a document has the group key of `like`.
pub open spec fn grouped_with(like: Json, fields: Seq<Seq<char>>) -> spec_fn(Json) -> bool {
    |doc: Json| same_key(doc, like, fields)
}

/// Whether the document at position `i` is the first one with its group
/// key.
pub open spec fn is_leader(docs: Seq<Json>, fields: Seq<Seq<char>>, i: int) -> bool {
    &&& 0 <= i < docs.len()
    &&& forall|j: int| 0 <= j < i ==> !same_key(#[trigger] docs[j], docs[i], fields)
}

/// The positions among the first `n` documents that hold the first
/// document of a group, ascending.
pub open spec fn leaders_before(docs: Seq<Json>, fields: Seq<Seq<char>>, n: int) -> Seq<int>
    decreases n,
{
    if n <= 0 {
        Seq::empty()
    } else if is_leader(docs, fields, n - 1) {
        leaders_before(docs, fields, n - 1).push(n - 1)
    } else {
        leaders_before(docs, fields, n - 1)
    }
}

/// The position of the first document of each group, in the order in which
/// the groups first occur.
pub open spec fn leaders(docs: Seq<Json>, fields: Seq<Seq<char>>) -> Seq<int> {
    leaders_before(docs, fields, docs.len() as int)
}

/// The documents of the group of the document at position `leader`, in
/// their order.
pub open spec fn members(docs: Seq<Json>, fields: Seq<Seq<char>>, leader: int) -> Seq<Json> {
    docs.filter(grouped_with(docs[leader], fields))
}

/// The number that a document holds under `field`, as a double; nothing
/// where the field is absent or holds no number.
pub open spec fn numeric_at(field: Seq<char>) -> spec_fn(Json) -> Option<u64> {
    |doc: Json|
        match resolve(doc, field) {
            Some(Json::Number(n)) => Some(n.as_float()),
            _ => None,
        }
}

/// The numbers that the documents hold under `field`, as doubles, in the
/// order of the documents; none where no field is named.
pub open spec fn operands(docs: Seq<Json>, field: Option<Seq<char>>) -> Seq<u64> {
    match field {
        Some(name) => docs.filter_map(numeric_at(name)),
        None => Seq::empty(),
    }
}

/// The lesser of two doubles. A NaN gives way to the other; of two that
/// compare equal the first stays.
pub open spec fn lesser(a: u64, b: u64) -> u64 {
    if is_nan(a) {
        b
    } else if is_nan(b) {
        a
    } else if float_key(b) < float_key(a) {
        b
    } else {
        a
    }
}

/// The greater of two doubles. A NaN gives way to the other; of two that
/// compare equal the first stays.
pub open spec fn greater(a: u64, b: u64) -> u64 {
    if is_nan(a) {
        b
    } else if is_nan(b) {
        a
    } else if float_key(b) > float_key(a) {
        b
    } else {
        a
    }
}

/// The least of the first `n` of `numbers`, where `n` is at least one.
pub open spec fn least(numbers: Seq<u64>, n: int) -> u64
    decreases n,
{
    if n <= 1 {
        numbers[0]
    } else {
        lesser(least(numbers, n - 1), numbers[n - 1])
    }
}

/// The greatest of the first `n` of `numbers`, where `n` is at least one.
pub open spec fn greatest(numbers: Seq<u64>, n: int) -> u64
    decreases n,
{
    if n <= 1 {
        numbers[0]
    } else {
        greater(greatest(numbers, n - 1), numbers[n - 1])
    }
}

/// A double as a document: a number where it is finite, else null.
pub open spec fn float_json(bits: u64) -> Json {
    if is_finite(bits) {
        Json::Number(Number::Float(bits))
    } else {
        Json::Null
    }
}

/// What an aggregate function makes of a group of `count` documents whose
/// numbers under the field of the clause are `numbers`, and of which
/// floating-point arithmetic made `fold`.
///
/// `count` is the number of documents, whatever the field. `sum` is the
/// total, and zero of no numbers. `avg` is the mean, and the whole number
/// zero of no numbers. `min` and `max` are the least and the greatest, and
/// null of no numbers. Any other function gives null.
pub open spec fn aggregate_json(
    function: Seq<char>,
    count: nat,
    numbers: Seq<u64>,
    fold: FloatFold,
) -> Json {
    if function == "count"@ {
        Json::Number(Number::PosInt(count as u64))
    } else if function == "sum"@ {
        if numbers.len() == 0 {
            Json::Number(Number::Float(0))
        } else {
            float_json(fold.total)
        }
    } else if function == "avg"@ {
        if numbers.len() == 0 {
            Json::Number(Number::PosInt(0))
        } else {
            float_json(fold.mean)
        }
    } else if function == "min"@ {
        if numbers.len() == 0 {
            Json::Null
        } else {
            float_json(least(numbers, numbers.len() as int))
        }
    } else if function == "max"@ {
        if numbers.len() == 0 {
            Json::Null
        } else {
            float_json(greatest(numbers, numbers.len() as int))
        }
    } else {
        Json::Null
    }
}

/// The entries of a row after the first `n` group-by fields: each field
/// that the first document of the group has goes under its own name.
pub open spec fn row_fields(first: Json, fields: Seq<Seq<char>>, n: int) -> Seq<(Seq<char>, Json)>
    decreases n,
{
    if n <= 0 {
        Seq::empty()
    } else {
        let before = row_fields(first, fields, n - 1);
        match resolve(first, fields[n - 1]) {
            Some(v) => with_entry(before, fields[n - 1], v),
            None => before,
        }
    }
}

/// The entries of a row after all group-by fields and the first `n`
/// aggregates: each aggregate goes under its alias.
pub open spec fn row_entries(group: Seq<Json>, by: GroupByModel, folds: Seq<FloatFold>, n: int) -> Seq<
    (Seq<char>, Json),
>
    decreases n,
{
    if n <= 0 {
        row_fields(group[0], by.fields, by.fields.len() as int)
    } else {
        let clause = by.aggregates[n - 1];
        with_entry(
            row_entries(group, by, folds, n - 1),
            clause.alias,
            aggregate_json(
                clause.function,
                group.len(),
                operands(group, clause.field),
                folds[n - 1],
            ),
        )
    }
}

/// The row of a group.
pub open spec fn group_row(group: Seq<Json>, by: GroupByModel, folds: Seq<FloatFold>) -> Json {
    Json::Object(row_entries(group, by, folds, by.aggregates.len() as int))
}

/// The groups of the documents that pass the filter, in the order in which
/// they first occur.
pub open spec fn groups(docs: Seq<Json>, by: GroupByModel, filter: Option<FilterTree>) -> Seq<
    Seq<Json>,
> {
    let input = matched(docs, filter);
    let heads = leaders(input, by.fields);
    Seq::new(heads.len(), |g: int| members(input, by.fields, heads[g]))
}

/// For each group and each aggregate, the numbers that the aggregate is
/// computed of.
pub open spec fn aggregate_inputs(
    docs: Seq<Json>,
    by: GroupByModel,
    filter: Option<FilterTree>,
) -> Seq<Seq<Seq<u64>>> {
    let all = groups(docs, by, filter);
    Seq::new(
        all.len(),
        |g: int| Seq::new(by.aggregates.len(), |c: int| operands(all[g], by.aggregates[c].field)),
    )
}

/// The numbers of a table, group by group and aggregate by aggregate.
pub open spec fn number_table(table: Seq<Vec<Vec<u64>>>) -> Seq<Seq<Seq<u64>>> {
    Seq::new(table.len(), |g: int| Seq::new(table[g]@.len(), |c: int| table[g]@[c]@))
}

/// The folds of a table, group by group.
pub open spec fn fold_table(folds: Seq<Vec<FloatFold>>) -> Seq<Seq<FloatFold>> {
    Seq::new(folds.len(), |g: int| folds[g]@)
}

/// Whether `folds` holds one fold for each aggregate of each group.
pub open spec fn folds_fit(
    docs: Seq<Json>,
    by: GroupByModel,
    filter: Option<FilterTree>,
    folds: Seq<Seq<FloatFold>>,
) -> bool {
    &&& folds.len() == groups(docs, by, filter).len()
    &&& forall|g: int| 0 <= g < folds.len() ==> (#[trigger] folds[g]).len() == by.aggregates.len()
}

/// One row for each group, in the order in which the groups first occur.
pub open spec fn aggregate_rows(
    docs: Seq<Json>,
    by: GroupByModel,
    filter: Option<FilterTree>,
    folds: Seq<Seq<FloatFold>>,
) -> Seq<Json> {
    let all = groups(docs, by, filter);
    Seq::new(all.len(), |g: int| group_row(all[g], by, folds[g]))
}

/// Whether two documents have the same group key.
pub fn same_group(a: &Value, b: &Value, fields: &Vec<String>) -> (r: bool)
    ensures
        r == same_key(a@, b@, texts(fields@)),
{
    let ghost names = texts(fields@);
    let mut i: usize = 0;
    while i < fields.len()
        invariant
            i <= fields.len(),
            names == texts(fields@),
            forall|j: int|
                0 <= j < i ==> (#[trigger] group_key(a@, names)[j]) == group_key(b@, names)[j],
        decreases fields.len() - i,
    {
        let av = get_field(a, fields[i].as_str());
        let bv = get_field(b, fields[i].as_str());
        let same = match (av, bv) {
            (Some(x), Some(y)) => x.identical(y),
            (Some(x), None) => x.identical(&Value::Null),
            (None, Some(y)) => y.identical(&Value::Null),
            (None, None) => true,
        };
        if !same {
            assert(group_key(a@, names)[i as int] != group_key(b@, names)[i as int]);
            return false;
        }
        i += 1;
    }
    assert(group_key(a@, names) =~= group_key(b@, names));
    true
}

/// The position of the first document of each group, in the order in which
/// the groups first occur.
pub fn find_leaders(docs: &Vec<&Value>, fields: &Vec<String>) -> (r: Vec<usize>)
    ensures
        r@.map_values(|i: usize| i as int) == leaders(views_of(docs@), texts(fields@)),
        forall|k: int| 0 <= k < r.len() ==> #[trigger] r[k] < docs.len(),
{
    let ghost all = views_of(docs@);
    let ghost names = texts(fields@);
    let mut found: Vec<usize> = Vec::new();
    let mut i: usize = 0;
    while i < docs.len()
        invariant
            i <= docs.len(),
            all == views_of(docs@),
            names == texts(fields@),
            found@.map_values(|i: usize| i as int) == leaders_before(all, names, i as int),
            forall|k: int| 0 <= k < found.len() ==> #[trigger] found[k] < i,
        decreases docs.len() - i,
    {
        let mut j: usize = 0;
        let mut first = true;
        while j < i
            invariant
                j <= i,
                i < docs.len(),
                all == views_of(docs@),
                names == texts(fields@),
                first == (forall|k: int|
                    0 <= k < j ==> !same_key(#[trigger] all[k], all[i as int], names)),
            decreases i - j,
        {
            if same_group(docs[j], docs[i], fields) {
                assert(same_key(all[j as int], all[i as int], names));
                first = false;
            }
            j += 1;
        }
        let ghost before = found@.map_values(|i: usize| i as int);
        if first {
            found.push(i);
            assert(found@.map_values(|i: usize| i as int) =~= before.push(i as int));
        }
        i += 1;
    }
    found
}

/// The documents of the group of the document at position `leader`, in
/// their order.
pub fn group_members<'a>(docs: &Vec<&'a Value>, fields: &Vec<String>, leader: usize) -> (r: Vec<
    &'a Value,
>)
    requires
        leader < docs.len(),
    ensures
        views_of(r@) == members(views_of(docs@), texts(fields@), leader as int),
{
    let ghost all = views_of(docs@);
    let ghost test = grouped_with(all[leader as int], texts(fields@));
    let mut group: Vec<&'a Value> = Vec::new();
    let mut i: usize = 0;
    assert(all.take(0).filter(test) =~= Seq::empty()) by {
        reveal(Seq::filter);
    }
    while i < docs.len()
        invariant
            i <= docs.len(),
            leader < docs.len(),
            all == views_of(docs@),
            test == grouped_with(all[leader as int], texts(fields@)),
            views_of(group@) == all.take(i as int).filter(test),
        decreases docs.len() - i,
    {
        let ghost before = views_of(group@);
        proof {
            assert(all.take(i + 1) =~= all.take(i as int).push(all[i as int]));
            all.take(i as int).lemma_filter_push(all[i as int], test);
        }
        if same_group(docs[i], docs[leader], fields) {
            group.push(docs[i]);
            assert(views_of(group@) =~= before.push(all[i as int]));
        }
        i += 1;
    }
    assert(all.take(i as int) =~= all);
    group
}

/// The numbers that the documents hold under `field`, as doubles.
pub fn numeric_operands(docs: &Vec<&Value>, field: &Option<String>) -> (r: Vec<u64>)
    ensures
        r@ == operands(
            views_of(docs@),
            match field {
                Some(name) => Some(name@),
                None => None,
            },
        ),
{
    let mut numbers: Vec<u64> = Vec::new();
    match field {
        Some(name) => {
            let ghost all = views_of(docs@);
            let ghost pick = numeric_at(name@);
            let mut i: usize = 0;
            while i < docs.len()
                invariant
                    i <= docs.len(),
                    all == views_of(docs@),
                    pick == numeric_at(name@),
                    numbers@ == all.take(i as int).filter_map(pick),
                decreases docs.len() - i,
            {
                proof {
                    all.lemma_filter_map_take_succ(pick, i as int);
                }
                match get_field(docs[i], name.as_str()) {
                    Some(Value::Number(n)) => {
                        numbers.push(n.float_bits());
                    },
                    _ => {},
                }
                i += 1;
            }
            assert(all.take(i as int) =~= all);
        },
        None => {},
    }
    numbers
}

/// The least of `numbers`, which must not be empty.
pub fn least_of(numbers: &Vec<u64>) -> (r: u64)
    requires
        numbers.len() > 0,
    ensures
        r == least(numbers@, numbers.len() as int),
{
    let mut best: u64 = numbers[0];
    let mut i: usize = 1;
    while i < numbers.len()
        invariant
            1 <= i <= numbers.len(),
            best == least(numbers@, i as int),
        decreases numbers.len() - i,
    {
        let x: u64 = numbers[i];
        match compare_float_bits(x, best) {
            Some(Order::Less) => {
                best = x;
            },
            Some(_) => {},
            None => {
                if !float_bits_ordered(best) {
                    best = x;
                }
            },
        }
        i += 1;
    }
    best
}

/// The greatest of `numbers`, which must not be empty.
pub fn greatest_of(numbers: &Vec<u64>) -> (r: u64)
    requires
        numbers.len() > 0,
    ensures
        r == greatest(numbers@, numbers.len() as int),
{
    let mut best: u64 = numbers[0];
    let mut i: usize = 1;
    while i < numbers.len()
        invariant
            1 <= i <= numbers.len(),
            best == greatest(numbers@, i as int),
        decreases numbers.len() - i,
    {
        let x: u64 = numbers[i];
        match compare_float_bits(x, best) {
            Some(Order::Greater) => {
                best = x;
            },
            Some(_) => {},
            None => {
                if !float_bits_ordered(best) {
                    best = x;
                }
            },
        }
        i += 1;
    }
    best
}

/// A double as a document: a number where it is finite, else null.
pub fn float_value(bits: u64) -> (r: Value)
    ensures
        r@ == float_json(bits),
{
    match Number::from_float_bits(bits) {
        Some(n) => Value::Number(n),
        None => Value::Null,
    }
}

/// Computes one aggregate of a group of `count` documents whose numbers
/// under the field of the clause are `numbers`, and of which
/// floating-point arithmetic made `fold`.
pub fn aggregate_value(function: &str, count: usize, numbers: &Vec<u64>, fold: &FloatFold) -> (r:
    Value)
    ensures
        r@ == aggregate_json(function@, count as nat, numbers@, *fold),
{
    if same_text(function, "count") {
        Value::Number(Number::from_count(count))
    } else if same_text(function, "sum") {
        if numbers.len() == 0 {
            Value::Number(Number::Float(0))
        } else {
            float_value(fold.total)
        }
    } else if same_text(function, "avg") {
        if numbers.len() == 0 {
            Value::Number(Number::from_count(0))
        } else {
            float_value(fold.mean)
        }
    } else if same_text(function, "min") {
        if numbers.len() == 0 {
            Value::Null
        } else {
            float_value(least_of(numbers))
        }
    } else if same_text(function, "max") {
        if numbers.len() == 0 {
            Value::Null
        } else {
            float_value(greatest_of(numbers))
        }
    } else {
        Value::Null
    }
}

/// Builds the row of a group: the group-by fields that its first document
/// has, then each aggregate under its alias.
pub fn build_row(group: &Vec<&Value>, group_by: &GroupByClause, folds: &Vec<FloatFold>) -> (r:
    Value)
    requires
        group.len() > 0,
        folds.len() == group_by.aggregates.len(),
    ensures
        r@ == group_row(views_of(group@), group_by@, folds@),
{
    let ghost members = views_of(group@);
    let ghost by = group_by@;
    let first: &Value = group[0];
    let mut row = Object::new();
    assert(row@ =~= row_fields(members[0], by.fields, 0));
    let mut i: usize = 0;
    while i < group_by.fields.len()
        invariant
            i <= group_by.fields.len(),
            by == group_by@,
            first@ == members[0],
            row@ == row_fields(members[0], by.fields, i as int),
        decreases group_by.fields.len() - i,
    {
        let field = &group_by.fields[i];
        assert(by.fields[i as int] == field@);
        match get_field(first, field.as_str()) {
            Some(val) => {
                row.insert(field.clone(), val.clone());
            },
            None => {},
        }
        i += 1;
    }
    let mut c: usize = 0;
    while c < group_by.aggregates.len()
        invariant
            c <= group_by.aggregates.len(),
            folds.len() == group_by.aggregates.len(),
            by == group_by@,
            members == views_of(group@),
            row@ == row_entries(members, by, folds@, c as int),
        decreases group_by.aggregates.len() - c,
    {
        let agg = &group_by.aggregates[c];
        assert(by.aggregates[c as int] == agg@);
        let numbers = numeric_operands(group, &agg.field);
        let result = aggregate_value(agg.function.as_str(), group.len(), &numbers, &folds[c]);
        row.insert(agg.alias.clone(), result);
        c += 1;
    }
    Value::Object(row)
}

/// The document at a leading position is a member of its own group, so no
/// group is empty.
pub proof fn lemma_group_not_empty(docs: Seq<Json>, fields: Seq<Seq<char>>, leader: int)
    requires
        0 <= leader < docs.len(),
    ensures
        members(docs, fields, leader).len() > 0,
{
    let test = grouped_with(docs[leader], fields);
    assert(test(docs[leader]));
    docs.lemma_filter_contains(test, leader);
}

/// For each group and each aggregate, the numbers that the aggregate is
/// computed of: what floating-point arithmetic has to fold before
/// `execute_aggregate` can build the rows.
pub fn aggregate_operands(
    documents: &[Value],
    group_by: &GroupByClause,
    filter: Option<&FilterNode>,
) -> (r: Vec<Vec<Vec<u64>>>)
    ensures
        number_table(r@) == aggregate_inputs(
            views(documents@),
            group_by@,
            filter_view(filter),
        ),
        r.len() == groups(views(documents@), group_by@, filter_view(filter)).len(),
        forall|g: int| 0 <= g < r.len() ==> (#[trigger] r[g]).len() == group_by.aggregates.len(),
{
    let ghost by = group_by@;
    let ghost wanted = aggregate_inputs(
        views(documents@),
        group_by@,
        filter_view(filter),
    );
    let input = passing_documents(documents, filter);
    let heads = find_leaders(&input, &group_by.fields);
    let ghost all = groups(views(documents@), group_by@, filter_view(filter));
    assert(all.len() == heads.len()) by {
        assert(heads@.map_values(|i: usize| i as int).len() == heads.len());
    }
    let mut table: Vec<Vec<Vec<u64>>> = Vec::new();
    let mut g: usize = 0;
    while g < heads.len()
        invariant
            g <= heads.len(),
            by == group_by@,
            all == groups(views(documents@), group_by@, filter_view(filter)),
            all.len() == heads.len(),
            wanted == aggregate_inputs(
                views(documents@),
                group_by@,
                filter_view(filter),
            ),
            views_of(input@) == matched(views(documents@), filter_view(filter)),
            heads@.map_values(|i: usize| i as int) == leaders(views_of(input@), by.fields),
            forall|k: int| 0 <= k < heads.len() ==> #[trigger] heads[k] < input.len(),
            table.len() == g,
            forall|k: int| 0 <= k < g ==> (#[trigger] number_table(table@)[k]) == wanted[k],
            forall|k: int| 0 <= k < g ==> (#[trigger] table[k]).len() == group_by.aggregates.len(),
        decreases heads.len() - g,
    {
        let group = group_members(&input, &group_by.fields, heads[g]);
        assert(views_of(group@) == all[g as int]) by {
            assert(heads@.map_values(|i: usize| i as int)[g as int] == heads[g as int]);
        }
        let mut lists: Vec<Vec<u64>> = Vec::new();
        let mut c: usize = 0;
        while c < group_by.aggregates.len()
            invariant
                c <= group_by.aggregates.len(),
                by == group_by@,
                lists.len() == c,
                forall|k: int|
                    0 <= k < c ==> (#[trigger] lists[k])@ == operands(
                        views_of(group@),
                        by.aggregates[k].field,
                    ),
            decreases group_by.aggregates.len() - c,
        {
            let agg = &group_by.aggregates[c];
            assert(by.aggregates[c as int] == agg@);
            let numbers = numeric_operands(&group, &agg.field);
            lists.push(numbers);
            c += 1;
        }
        let ghost before = number_table(table@);
        table.push(lists);
        proof {
            assert(number_table(table@)[g as int] =~= wanted[g as int]);
            assert forall|k: int| 0 <= k < g + 1 implies (#[trigger] number_table(table@)[k])
                == wanted[k] by {
                if k < g {
                    assert(number_table(table@)[k] =~= before[k]);
                }
            }
        }
        g += 1;
    }
    assert(number_table(table@) =~= wanted);
    table
}

/// Whether `folds` holds `groups` lists of `aggregates` folds each.
pub fn folds_have_shape(folds: &Vec<Vec<FloatFold>>, groups: usize, aggregates: usize) -> (r: bool)
    ensures
        r == (folds.len() == groups && forall|g: int|
            0 <= g < folds.len() ==> (#[trigger] fold_table(folds@)[g]).len() == aggregates),
{
    if folds.len() != groups {
        return false;
    }
    let mut g: usize = 0;
    while g < folds.len()
        invariant
            g <= folds.len(),
            forall|k: int| 0 <= k < g ==> (#[trigger] fold_table(folds@)[k]).len() == aggregates,
        decreases folds.len() - g,
    {
        if folds[g].len() != aggregates {
            assert(fold_table(folds@)[g as int].len() != aggregates);
            return false;
        }
        g += 1;
    }
    true
}

/// Builds one row for each group of `input`, the groups given by the
/// positions of their first documents.
pub fn build_rows(
    input: &Vec<&Value>,
    heads: &Vec<usize>,
    group_by: &GroupByClause,
    folds: &Vec<Vec<FloatFold>>,
) -> (r: Vec<Value>)
    requires
        heads@.map_values(|i: usize| i as int) == leaders(views_of(input@), group_by@.fields),
        forall|k: int| 0 <= k < heads.len() ==> #[trigger] heads[k] < input.len(),
        folds.len() == heads.len(),
        forall|g: int|
            0 <= g < folds.len() ==> (#[trigger] fold_table(folds@)[g]).len()
                == group_by.aggregates.len(),
    ensures
        r.len() == heads.len(),
        forall|g: int|
            0 <= g < heads.len() ==> (#[trigger] views(r@)[g]) == group_row(
                members(views_of(input@), group_by@.fields, heads[g] as int),
                group_by@,
                fold_table(folds@)[g],
            ),
{
    let ghost by = group_by@;
    let mut rows: Vec<Value> = Vec::new();
    let mut g: usize = 0;
    while g < heads.len()
        invariant
            g <= heads.len(),
            by == group_by@,
            folds.len() == heads.len(),
            forall|k: int|
                0 <= k < folds.len() ==> (#[trigger] fold_table(folds@)[k]).len()
                    == group_by.aggregates.len(),
            forall|k: int| 0 <= k < heads.len() ==> #[trigger] heads[k] < input.len(),
            rows.len() == g,
            forall|k: int|
                0 <= k < g ==> (#[trigger] views(rows@)[k]) == group_row(
                    members(views_of(input@), by.fields, heads[k] as int),
                    by,
                    fold_table(folds@)[k],
                ),
        decreases heads.len() - g,
    {
        let group = group_members(input, &group_by.fields, heads[g]);
        proof {
            lemma_group_not_empty(views_of(input@), by.fields, heads[g as int] as int);
            assert(fold_table(folds@)[g as int].len() == by.aggregates.len());
        }
        let row = build_row(&group, group_by, &folds[g]);
        let ghost before = views(rows@);
        rows.push(row);
        proof {
            assert forall|k: int| 0 <= k < g + 1 implies (#[trigger] views(rows@)[k]) == group_row(
                members(views_of(input@), by.fields, heads[k] as int),
                by,
                fold_table(folds@)[k],
            ) by {
                if k < g {
                    assert(views(rows@)[k] == before[k]);
                }
            }
        }
        g += 1;
    }
    rows
}

/// Groups the documents that pass the filter by the values of the group-by
/// fields and builds one row for each group, in the order in which the
/// groups first occur. `folds` holds, for each group and each aggregate,
/// what floating-point arithmetic made of the numbers that
/// `aggregate_operands` lists for them.
pub fn execute_aggregate(
    documents: &[Value],
    group_by: &GroupByClause,
    filter: Option<&FilterNode>,
    folds: &Vec<Vec<FloatFold>>,
) -> (r: Vec<Value>)
    requires
        folds_fit(views(documents@), group_by@, filter_view(filter), fold_table(folds@)),
    ensures
        views(r@) == aggregate_rows(
            views(documents@),
            group_by@,
            filter_view(filter),
            fold_table(folds@),
        ),
        r.len() == groups(views(documents@), group_by@, filter_view(filter)).len(),
{
    let input = passing_documents(documents, filter);
    let heads = find_leaders(&input, &group_by.fields);
    proof {
        assert(heads@.map_values(|i: usize| i as int).len() == heads.len());
    }
    let rows = build_rows(&input, &heads, group_by, folds);
    proof {
        let wanted = aggregate_rows(
            views(documents@),
            group_by@,
            filter_view(filter),
            fold_table(folds@),
        );
        assert forall|g: int| 0 <= g < heads.len() implies views(rows@)[g] == wanted[g] by {
            assert(heads@.map_values(|i: usize| i as int)[g] == heads[g]);
        }
        assert(views(rows@) =~= wanted);
    }
    rows
}

/// As `execute_aggregate`, for folds of any shape: the rows where `folds`
/// holds one fold for each aggregate of each group, and nothing where it
/// does not.
pub fn try_execute_aggregate(
    documents: &[Value],
    group_by: &GroupByClause,
    filter: Option<&FilterNode>,
    folds: &Vec<Vec<FloatFold>>,
) -> (r: Option<Vec<Value>>)
    ensures
        r is Some == folds_fit(
            views(documents@),
            group_by@,
            filter_view(filter),
            fold_table(folds@),
        ),
        r is Some ==> views(r->0@) == aggregate_rows(
            views(documents@),
            group_by@,
            filter_view(filter),
            fold_table(folds@),
        ),
{
    let input = passing_documents(documents, filter);
    let heads = find_leaders(&input, &group_by.fields);
    proof {
        assert(heads@.map_values(|i: usize| i as int).len() == heads.len());
    }
    if !folds_have_shape(folds, heads.len(), group_by.aggregates.len()) {
        return None;
    }
    let rows = build_rows(&input, &heads, group_by, folds);
    proof {
        let wanted = aggregate_rows(
            views(documents@),
            group_by@,
            filter_view(filter),
            fold_table(folds@),
        );
        assert forall|g: int| 0 <= g < heads.len() implies views(rows@)[g] == wanted[g] by {
            assert(heads@.map_values(|i: usize| i as int)[g] == heads[g]);
        }
        assert(views(rows@) =~= wanted);
    }
    Some(rows)
}

/// The names of the aggregate functions differ from one another.
pub proof fn lemma_function_names()
    ensures
        "sum"@ != "count"@,
        "avg"@ != "count"@,
        "avg"@ != "sum"@,
        "min"@ != "count"@,
        "min"@ != "sum"@,
        "min"@ != "avg"@,
        "max"@ != "count"@,
        "max"@ != "sum"@,
        "max"@ != "avg"@,
        "max"@ != "min"@,
{
    reveal_strlit("count");
    reveal_strlit("sum");
    reveal_strlit("avg");
    reveal_strlit("min");
    reveal_strlit("max");
    assert("sum"@[0] != "avg"@[0]);
    assert("min"@[0] != "sum"@[0] && "min"@[0] != "avg"@[0]);
    assert("max"@[1] != "min"@[1] && "max"@[0] != "sum"@[0] && "max"@[0] != "avg"@[0]);
    assert("count"@.len() == 5 && "sum"@.len() == 3);
}

/// `count` is the number of documents in the group, whatever field the
/// clause names, whatever that field holds and whatever was folded.
pub proof fn lemma_count_is_group_size(count: nat, numbers: Seq<u64>, fold: FloatFold)
    ensures
        aggregate_json("count"@, count, numbers, fold) == Json::Number(
            Number::PosInt(count as u64),
        ),
{
}

/// Of a group without numbers, `avg` is the whole number zero, `sum` is
/// zero, and `min` and `max` are null.
pub proof fn lemma_aggregates_of_nothing(count: nat, fold: FloatFold)
    ensures
        aggregate_json("avg"@, count, Seq::empty(), fold) == Json::Number(Number::PosInt(0)),
        aggregate_json("sum"@, count, Seq::empty(), fold) == Json::Number(Number::Float(0)),
        aggregate_json("min"@, count, Seq::empty(), fold) == Json::Null,
        aggregate_json("max"@, count, Seq::empty(), fold) == Json::Null,
{
    lemma_function_names();
}

/// Where no document of a group holds a number under the field, or the
/// clause names no field, there are no numbers to fold.
pub proof fn lemma_no_numbers(group: Seq<Json>, field: Option<Seq<char>>)
    requires
        field is Some ==> forall|i: int|
            0 <= i < group.len() ==> numeric_at(field->0)(#[trigger] group[i]) is None,
    ensures
        operands(group, field).len() == 0,
    decreases group.len(),
{
    if field is Some && group.len() > 0 {
        lemma_no_numbers(group.drop_last(), field);
    }
}

/// Of numbers without a NaN, the least is one of them and none is less.
pub proof fn lemma_least_is_least(numbers: Seq<u64>, n: int)
    requires
        1 <= n <= numbers.len(),
        forall|i: int| 0 <= i < n ==> !is_nan(#[trigger] numbers[i]),
    ensures
        exists|i: int| 0 <= i < n && #[trigger] numbers[i] == least(numbers, n),
        forall|i: int|
            0 <= i < n ==> float_key(least(numbers, n)) <= float_key(#[trigger] numbers[i]),
    decreases n,
{
    if n > 1 {
        lemma_least_is_least(numbers, n - 1);
        let before = choose|i: int| 0 <= i < n - 1 && #[trigger] numbers[i] == least(numbers, n - 1);
        if least(numbers, n) == numbers[n - 1] {
            assert(numbers[n - 1] == least(numbers, n));
        } else {
            assert(numbers[before] == least(numbers, n));
        }
    } else {
        assert(numbers[0] == least(numbers, n));
    }
}

/// Of numbers without a NaN, the greatest is one of them and none is
/// greater.
pub proof fn lemma_greatest_is_greatest(numbers: Seq<u64>, n: int)
    requires
        1 <= n <= numbers.len(),
        forall|i: int| 0 <= i < n ==> !is_nan(#[trigger] numbers[i]),
    ensures
        exists|i: int| 0 <= i < n && #[trigger] numbers[i] == greatest(numbers, n),
        forall|i: int|
            0 <= i < n ==> float_key(greatest(numbers, n)) >= float_key(#[trigger] numbers[i]),
    decreases n,
{
    if n > 1 {
        lemma_greatest_is_greatest(numbers, n - 1);
        let before = choose|i: int|
            0 <= i < n - 1 && #[trigger] numbers[i] == greatest(numbers, n - 1);
        if greatest(numbers, n) == numbers[n - 1] {
            assert(numbers[n - 1] == greatest(numbers, n));
        } else {
            assert(numbers[before] == greatest(numbers, n));
        }
    } else {
        assert(numbers[0] == greatest(numbers, n));
    }
}

/// The leading positions among the first `n` documents ascend, and they
/// are exactly the positions below `n` that hold the first document of a
/// group.
pub proof fn lemma_leaders(docs: Seq<Json>, fields: Seq<Seq<char>>, n: int)
    requires
        0 <= n <= docs.len(),
    ensures
        forall|g: int|
            0 <= g < leaders_before(docs, fields, n).len() ==> 0 <= #[trigger] leaders_before(
                docs,
                fields,
                n,
            )[g] < n && is_leader(docs, fields, leaders_before(docs, fields, n)[g]),
        forall|g: int, h: int|
            0 <= g < h < leaders_before(docs, fields, n).len() ==> #[trigger] leaders_before(
                docs,
                fields,
                n,
            )[g] < #[trigger] leaders_before(docs, fields, n)[h],
        forall|i: int|
            0 <= i < n && is_leader(docs, fields, i) ==> leaders_before(docs, fields, n).contains(
                i,
            ),
    decreases n,
{
    if n > 0 {
        lemma_leaders(docs, fields, n - 1);
        let before = leaders_before(docs, fields, n - 1);
        let now = leaders_before(docs, fields, n);
        assert forall|i: int| 0 <= i < n && is_leader(docs, fields, i) implies now.contains(i) by {
            if i < n - 1 {
                let g = choose|g: int| 0 <= g < before.len() && before[g] == i;
                assert(now[g] == i);
            } else {
                assert(now[now.len() - 1] == i);
            }
        }
    }
}

/// Every document belongs to a group: it has the group key of the
/// document at one of the leading positions, which does not come behind it.
pub proof fn lemma_groups_cover(docs: Seq<Json>, fields: Seq<Seq<char>>, i: int)
    requires
        0 <= i < docs.len(),
    ensures
        exists|g: int|
            0 <= g < leaders(docs, fields).len() && 0 <= #[trigger] leaders(docs, fields)[g] <= i
                && same_key(docs[i], docs[leaders(docs, fields)[g]], fields),
    decreases i,
{
    lemma_leaders(docs, fields, docs.len() as int);
    let heads = leaders(docs, fields);
    if is_leader(docs, fields, i) {
        let g = choose|g: int| 0 <= g < heads.len() && heads[g] == i;
        assert(heads[g] == i && same_key(docs[i], docs[heads[g]], fields));
    } else {
        let j = choose|j: int| 0 <= j < i && same_key(#[trigger] docs[j], docs[i], fields);
        lemma_groups_cover(docs, fields, j);
        let g = choose|g: int|
            0 <= g < heads.len() && 0 <= #[trigger] heads[g] <= j && same_key(
                docs[j],
                docs[heads[g]],
                fields,
            );
        assert(same_key(docs[i], docs[heads[g]], fields));
    }
}

/// Different groups have different keys.
pub proof fn lemma_groups_differ(docs: Seq<Json>, fields: Seq<Seq<char>>, g: int, h: int)
    requires
        0 <= g < h < leaders(docs, fields).len(),
    ensures
        !same_key(docs[leaders(docs, fields)[g]], docs[leaders(docs, fields)[h]], fields),
{
    lemma_leaders(docs, fields, docs.len() as int);
    let heads = leaders(docs, fields);
    assert(heads[g] < heads[h]);
    assert(is_leader(docs, fields, heads[h]));
}

} // verus!
