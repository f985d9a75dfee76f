//! Multi-key stable sorting of documents.

use vstd::prelude::*;
use crate::engine::{get_field, resolve};
use crate::filter::found_view;
use crate::number::is_nan;
use crate::order::{int_order, Order};
use crate::text::{
    compare_text, lemma_text_order_flip, lemma_text_order_transitive, same_text, text_order,
};
use crate::value::{views, Json, Value};

verus! {

/// One sort key: a field path and a direction. The direction `desc`
/// reverses the order; any other direction leaves it ascending.
#[derive(Debug)]
pub struct SortClause {
    pub field: String,
    pub direction: String,
}

/// The mathematical model of a sort clause.
pub ghost struct SortRule {
    pub field: Seq<char>,
    pub direction: Seq<char>,
}

impl View for SortClause {
    type V = SortRule;

    open spec fn view(&self) -> SortRule {
        SortRule { field: self.field@, direction: self.direction@ }
    }
}

/// The models of a sequence of sort clauses, in order.
pub open spec fn rules(clauses: Seq<SortClause>) -> Seq<SortRule> {
    Seq::new(clauses.len(), |i: int| clauses[i]@)
}

/// How two resolved values stand for sorting. An absent value comes before
/// any present one; two numbers are ordered as doubles, two texts by code
/// point, and `false` comes before `true`. Any other pair counts as equal,
/// so that sorting leaves it as it is.
pub open spec fn sort_order(a: Option<Json>, b: Option<Json>) -> Order {
    match (a, b) {
        (None, None) => Order::Equal,
        (None, Some(_)) => Order::Less,
        (Some(_), None) => Order::Greater,
        (Some(Json::Number(x)), Some(Json::Number(y))) => match x.order(y) {
            Some(o) => o,
            None => Order::Equal,
        },
        (Some(Json::Text(x)), Some(Json::Text(y))) => text_order(x, y),
        (Some(Json::Bool(x)), Some(Json::Bool(y))) => int_order(
            if x {
                1
            } else {
                0
            },
            if y {
                1
            } else {
                0
            },
        ),
        _ => Order::Equal,
    }
}

/// How two documents stand by one clause.
pub open spec fn rule_order(a: Json, b: Json, rule: SortRule) -> Order {
    let o = sort_order(resolve(a, rule.field), resolve(b, rule.field));
    if rule.direction == "desc"@ {
        o.flip()
    } else {
        o
    }
}

/// How two documents stand by the clauses from position `from` on: the
/// first clause by which they are not equal decides.
pub open spec fn docs_order_from(a: Json, b: Json, rules: Seq<SortRule>, from: int) -> Order
    decreases rules.len() - from,
{
    if from < 0 || from >= rules.len() {
        Order::Equal
    } else if rule_order(a, b, rules[from]) != Order::Equal {
        rule_order(a, b, rules[from])
    } else {
        docs_order_from(a, b, rules, from + 1)
    }
}

/// How two documents stand by a sort specification.
pub open spec fn docs_order(a: Json, b: Json, rules: Seq<SortRule>) -> Order {
    docs_order_from(a, b, rules, 0)
}

/// Where `x` goes among the first `n` documents of `sorted`: behind the
/// last of them that is not greater than `x`.
pub open spec fn insertion_point(sorted: Seq<Json>, x: Json, rules: Seq<SortRule>, n: int) -> int
    decreases n,
{
    if n <= 0 || n > sorted.len() {
        0
    } else if docs_order(sorted[n - 1], x, rules) == Order::Greater {
        insertion_point(sorted, x, rules, n - 1)
    } else {
        n
    }
}

/// The first `n` documents of `docs`, sorted: each document in turn goes
/// behind the last one before it that is not greater.
pub open spec fn sorted_prefix(docs: Seq<Json>, rules: Seq<SortRule>, n: int) -> Seq<Json>
    decreases n,
{
    if n <= 0 || n > docs.len() {
        Seq::empty()
    } else {
        let before = sorted_prefix(docs, rules, n - 1);
        before.insert(insertion_point(before, docs[n - 1], rules, before.len() as int), docs[n - 1])
    }
}

/// The documents of `docs` in sorted order. Documents that the clauses do
/// not tell apart keep their order.
pub open spec fn sorted_by(docs: Seq<Json>, rules: Seq<SortRule>) -> Seq<Json> {
    sorted_prefix(docs, rules, docs.len() as int)
}

/// Whether no document is greater than the one behind it.
pub open spec fn in_order(docs: Seq<Json>, rules: Seq<SortRule>) -> bool {
    forall|i: int, j: int|
        0 <= i && j == i + 1 && j < docs.len() ==> docs_order(
            #[trigger] docs[i],
            #[trigger] docs[j],
            rules,
        ) != Order::Greater
}

/// Whether the order of the documents of `docs` is transitive: where a
/// first is not greater than a second, and the second not greater than a
/// third, the first is not greater than the third.
pub open spec fn order_is_transitive(docs: Seq<Json>, rules: Seq<SortRule>) -> bool {
    forall|i: int, j: int, k: int|
        #![trigger docs_order(docs[i], docs[j], rules), docs_order(docs[j], docs[k], rules)]
        0 <= i < docs.len() && 0 <= j < docs.len() && 0 <= k < docs.len() && docs_order(
            docs[i],
            docs[j],
            rules,
        ) != Order::Greater && docs_order(docs[j], docs[k], rules) != Order::Greater
            ==> docs_order(docs[i], docs[k], rules) != Order::Greater
}

/// What a resolved value is for sorting.
pub ghost enum SortKind {
    /// No value: the path does not resolve.
    Absent,
    /// A number that is no NaN.
    Number,
    Text,
    Boolean,
    /// Anything else: it counts as equal to every present value.
    Other,
}

/// What a resolved value is for sorting.
pub open spec fn sort_kind(found: Option<Json>) -> SortKind {
    match found {
        None => SortKind::Absent,
        Some(Json::Number(n)) => if is_nan(n.as_float()) {
            SortKind::Other
        } else {
            SortKind::Number
        },
        Some(Json::Text(_)) => SortKind::Text,
        Some(Json::Bool(_)) => SortKind::Boolean,
        Some(_) => SortKind::Other,
    }
}

/// Whether a resolved value is absent or of the kind `kind`, which is that
/// of numbers, texts or booleans.
pub open spec fn of_kind(found: Option<Json>, kind: SortKind) -> bool {
    &&& kind == SortKind::Number || kind == SortKind::Text || kind == SortKind::Boolean
    &&& sort_kind(found) == SortKind::Absent || sort_kind(found) == kind
}

/// Whether under each clause every document holds a value of the kind that
/// `kinds` gives for the clause, or none.
pub open spec fn fields_of_kinds(
    docs: Seq<Json>,
    rules: Seq<SortRule>,
    kinds: Seq<SortKind>,
) -> bool {
    &&& kinds.len() == rules.len()
    &&& forall|i: int, k: int|
        0 <= i < docs.len() && 0 <= k < rules.len() ==> of_kind(
            resolve(#[trigger] docs[i], (#[trigger] rules[k]).field),
            kinds[k],
        )
}

/// The positions that the first `n` documents of `docs` have come from,
/// in sorted order: the document at place `p` of `sorted_prefix` is the one
/// that stood at position `sorted_positions[p]`.
pub open spec fn sorted_positions(docs: Seq<Json>, rules: Seq<SortRule>, n: int) -> Seq<int>
    decreases n,
{
    if n <= 0 || n > docs.len() {
        Seq::empty()
    } else {
        let before = sorted_prefix(docs, rules, n - 1);
        sorted_positions(docs, rules, n - 1).insert(
            insertion_point(before, docs[n - 1], rules, before.len() as int),
            n - 1,
        )
    }
}

/// Compares two resolved values for sorting.
pub fn compare_sort_values(a: Option<&Value>, b: Option<&Value>) -> (r: Order)
    ensures
        r == sort_order(found_view(a), found_view(b)),
{
    match (a, b) {
        (None, None) => Order::Equal,
        (None, Some(_)) => Order::Less,
        (Some(_), None) => Order::Greater,
        (Some(x), Some(y)) => match (x, y) {
            (Value::Number(m), Value::Number(n)) => match m.compare(n) {
                Some(o) => o,
                None => Order::Equal,
            },
            (Value::String(s), Value::String(t)) => compare_text(s.as_str(), t.as_str()),
            (Value::Bool(p), Value::Bool(q)) => {
                if *p == *q {
                    Order::Equal
                } else if *q {
                    Order::Less
                } else {
                    Order::Greater
                }
            },
            _ => Order::Equal,
        },
    }
}

/// Compares two documents by a sort specification.
pub fn compare_documents(a: &Value, b: &Value, clauses: &[SortClause]) -> (r: Order)
    ensures
        r == docs_order(a@, b@, rules(clauses@)),
{
    let mut i: usize = 0;
    while i < clauses.len()
        invariant
            i <= clauses.len(),
            docs_order(a@, b@, rules(clauses@)) == docs_order_from(
                a@,
                b@,
                rules(clauses@),
                i as int,
            ),
        decreases clauses.len() - i,
    {
        let clause = &clauses[i];
        let av = get_field(a, clause.field.as_str());
        let bv = get_field(b, clause.field.as_str());
        let found = compare_sort_values(av, bv);
        let ordering = if same_text(clause.direction.as_str(), "desc") {
            found.reverse()
        } else {
            found
        };
        assert(ordering == rule_order(a@, b@, rules(clauses@)[i as int]));
        match ordering {
            Order::Equal => {},
            _ => {
                return ordering;
            },
        }
        i += 1;
    }
    Order::Equal
}

/// Sorts documents in place by the clauses, the first clause first. The
/// sort is stable.
pub fn sort_documents(docs: &mut Vec<Value>, clauses: &[SortClause])
    ensures
        views(final(docs)@) == sorted_by(views(old(docs)@), rules(clauses@)),
{
    let ghost start = views(docs@);
    let ghost by = rules(clauses@);
    let mut n: usize = 0;
    while n < docs.len()
        invariant
            n <= docs.len(),
            docs.len() == start.len(),
            views(docs@).take(n as int) == sorted_prefix(start, by, n as int),
            views(docs@).skip(n as int) == start.skip(n as int),
            by == rules(clauses@),
        decreases docs.len() - n,
    {
        let ghost before = views(docs@);
        let x = docs.remove(n);
        let ghost prefix = sorted_prefix(start, by, n as int);
        assert(x@ == start[n as int]) by {
            assert(before.skip(n as int)[0] == start.skip(n as int)[0]);
        }
        assert(views(docs@) =~= before.remove(n as int));
        assert(views(docs@).take(n as int) =~= prefix) by {
            assert(before.take(n as int) =~= before.remove(n as int).take(n as int));
        }
        let mut p: usize = n;
        while p > 0 && compare_documents(&docs[p - 1], &x, clauses) == Order::Greater
            invariant
                p <= n,
                n < docs.len() + 1,
                views(docs@).take(n as int) == prefix,
                prefix.len() == n,
                by == rules(clauses@),
                insertion_point(prefix, x@, by, n as int) == insertion_point(
                    prefix,
                    x@,
                    by,
                    p as int,
                ),
            decreases p,
        {
            assert(views(docs@)[p - 1] == views(docs@).take(n as int)[p - 1]);
            p -= 1;
        }
        proof {
            if p > 0 {
                assert(views(docs@)[p - 1] == views(docs@).take(n as int)[p - 1]);
            }
            assert(insertion_point(prefix, x@, by, p as int) == p);
        }
        let ghost removed = views(docs@);
        docs.insert(p, x);
        proof {
            assert(views(docs@) =~= removed.insert(p as int, start[n as int]));
            assert(views(docs@).take(n + 1) =~= prefix.insert(p as int, start[n as int]));
            assert(views(docs@).skip(n + 1) =~= start.skip(n + 1)) by {
                let after = views(docs@).skip(n + 1);
                assert forall|k: int| 0 <= k < start.len() - n - 1 implies #[trigger] after[k]
                    == start.skip(n + 1)[k] by {
                    assert(views(docs@)[n + 1 + k] == removed[n + k]);
                    assert(removed[n + k] == before[n + 1 + k]);
                    assert(before.skip(n as int)[k + 1] == start.skip(n as int)[k + 1]);
                }
            }
        }
        n += 1;
    }
    assert(views(docs@).take(n as int) =~= views(docs@));
}

/// Sorting the first `n` documents gives `n` documents.
pub proof fn lemma_sorted_prefix_len(docs: Seq<Json>, rules: Seq<SortRule>, n: int)
    requires
        0 <= n <= docs.len(),
    ensures
        sorted_prefix(docs, rules, n).len() == n,
    decreases n,
{
    if n > 0 {
        lemma_sorted_prefix_len(docs, rules, n - 1);
        lemma_insertion_point(sorted_prefix(docs, rules, n - 1), docs[n - 1], rules, n - 1);
    }
}

/// Where a document goes: every document behind that place is greater, and
/// the one before it, if any, is not.
pub proof fn lemma_insertion_point(sorted: Seq<Json>, x: Json, rules: Seq<SortRule>, n: int)
    requires
        0 <= n <= sorted.len(),
    ensures
        0 <= insertion_point(sorted, x, rules, n) <= n,
        forall|j: int|
            insertion_point(sorted, x, rules, n) <= j < n ==> docs_order(
                #[trigger] sorted[j],
                x,
                rules,
            ) == Order::Greater,
        insertion_point(sorted, x, rules, n) > 0 ==> docs_order(
            sorted[insertion_point(sorted, x, rules, n) - 1],
            x,
            rules,
        ) != Order::Greater,
    decreases n,
{
    if n > 0 && docs_order(sorted[n - 1], x, rules) == Order::Greater {
        lemma_insertion_point(sorted, x, rules, n - 1);
    }
}

/// Exchanging two resolved values exchanges `Less` and `Greater`.
pub proof fn lemma_sort_order_flip(a: Option<Json>, b: Option<Json>)
    ensures
        sort_order(b, a) == sort_order(a, b).flip(),
{
    match (a, b) {
        (Some(Json::Text(x)), Some(Json::Text(y))) => {
            lemma_text_order_flip(x, y, 0);
        },
        _ => {},
    }
}

/// Exchanging two documents exchanges `Less` and `Greater`.
pub proof fn lemma_docs_order_flip(a: Json, b: Json, rules: Seq<SortRule>, from: int)
    requires
        0 <= from,
    ensures
        docs_order_from(b, a, rules, from) == docs_order_from(a, b, rules, from).flip(),
    decreases rules.len() - from,
{
    if from < rules.len() {
        lemma_sort_order_flip(resolve(a, rules[from].field), resolve(b, rules[from].field));
        lemma_docs_order_flip(a, b, rules, from + 1);
    }
}

/// What sorting hands back is in order.
pub proof fn lemma_sorted_in_order(docs: Seq<Json>, rules: Seq<SortRule>, n: int)
    requires
        0 <= n <= docs.len(),
    ensures
        in_order(sorted_prefix(docs, rules, n), rules),
    decreases n,
{
    if n > 0 {
        let before = sorted_prefix(docs, rules, n - 1);
        let x = docs[n - 1];
        let at = insertion_point(before, x, rules, before.len() as int);
        let after = sorted_prefix(docs, rules, n);
        lemma_sorted_in_order(docs, rules, n - 1);
        lemma_sorted_prefix_len(docs, rules, n - 1);
        lemma_insertion_point(before, x, rules, n - 1);
        assert forall|i: int, j: int| 0 <= i && j == i + 1 && j < after.len() implies docs_order(
            #[trigger] after[i],
            #[trigger] after[j],
            rules,
        ) != Order::Greater by {
            if j < at {
                assert(after[i] == before[i] && after[j] == before[j]);
            } else if j == at {
                assert(after[i] == before[i]);
            } else if i == at {
                assert(after[j] == before[j - 1]);
                lemma_docs_order_flip(before[at], x, rules, 0);
            } else {
                assert(after[i] == before[i - 1] && after[j] == before[j - 1]);
            }
        }
    }
}

/// Sorting documents that are in order leaves them as they are.
pub proof fn lemma_in_order_stays(docs: Seq<Json>, rules: Seq<SortRule>, n: int)
    requires
        in_order(docs, rules),
        0 <= n <= docs.len(),
    ensures
        sorted_prefix(docs, rules, n) == docs.take(n),
    decreases n,
{
    if n > 0 {
        lemma_in_order_stays(docs, rules, n - 1);
        let before = docs.take(n - 1);
        if n > 1 {
            assert(before[n - 2] == docs[n - 2]);
            assert(docs_order(docs[n - 2], docs[n - 1], rules) != Order::Greater);
        }
        assert(insertion_point(before, docs[n - 1], rules, n - 1) == n - 1);
        assert(before.insert(n - 1, docs[n - 1]) =~= docs.take(n));
    }
}

/// Sorting is idempotent: sorting what was sorted by the same
/// specification changes nothing.
pub proof fn lemma_sort_idempotent(docs: Seq<Json>, rules: Seq<SortRule>)
    ensures
        sorted_by(sorted_by(docs, rules), rules) == sorted_by(docs, rules),
{
    let once = sorted_by(docs, rules);
    lemma_sorted_in_order(docs, rules, docs.len() as int);
    lemma_sorted_prefix_len(docs, rules, docs.len() as int);
    lemma_in_order_stays(once, rules, once.len() as int);
    assert(once.take(once.len() as int) =~= once);
}

/// Sorting neither loses nor adds a document: it hands back the same
/// documents, each as often as it was there.
pub proof fn lemma_sort_permutes(docs: Seq<Json>, rules: Seq<SortRule>, n: int)
    requires
        0 <= n <= docs.len(),
    ensures
        sorted_prefix(docs, rules, n).to_multiset() == docs.take(n).to_multiset(),
    decreases n,
{
    if n > 0 {
        let before = sorted_prefix(docs, rules, n - 1);
        lemma_sort_permutes(docs, rules, n - 1);
        lemma_sorted_prefix_len(docs, rules, n - 1);
        lemma_insertion_point(before, docs[n - 1], rules, n - 1);
        vstd::seq_lib::to_multiset_insert(
            before,
            insertion_point(before, docs[n - 1], rules, n - 1),
            docs[n - 1],
        );
        vstd::seq_lib::to_multiset_build(docs.take(n - 1), docs[n - 1]);
        assert(docs.take(n - 1).push(docs[n - 1]) =~= docs.take(n));
    } else {
        assert(docs.take(0) =~= Seq::<Json>::empty());
    }
}

/// Where each sorted document has come from.
pub proof fn lemma_sorted_positions(docs: Seq<Json>, rules: Seq<SortRule>, n: int)
    requires
        0 <= n <= docs.len(),
    ensures
        sorted_positions(docs, rules, n).len() == n,
        forall|p: int|
            0 <= p < n ==> 0 <= #[trigger] sorted_positions(docs, rules, n)[p] < n
                && sorted_prefix(docs, rules, n)[p] == docs[sorted_positions(docs, rules, n)[p]],
    decreases n,
{
    if n > 0 {
        let before = sorted_prefix(docs, rules, n - 1);
        let from = sorted_positions(docs, rules, n - 1);
        let at = insertion_point(before, docs[n - 1], rules, before.len() as int);
        let after = sorted_prefix(docs, rules, n);
        let origin = sorted_positions(docs, rules, n);
        lemma_sorted_positions(docs, rules, n - 1);
        lemma_sorted_prefix_len(docs, rules, n - 1);
        lemma_insertion_point(before, docs[n - 1], rules, n - 1);
        assert forall|p: int| 0 <= p < n implies 0 <= #[trigger] origin[p] < n && after[p]
            == docs[origin[p]] by {
            if p < at {
                assert(origin[p] == from[p] && after[p] == before[p]);
            } else if p > at {
                assert(origin[p] == from[p - 1] && after[p] == before[p - 1]);
            }
        }
    }
}

/// The sort is stable: two documents change their order only where the
/// one that stood first is greater than the other. So documents that the
/// clauses do not tell apart keep their order.
pub proof fn lemma_sort_stable(docs: Seq<Json>, rules: Seq<SortRule>, n: int, p: int, q: int)
    requires
        0 <= n <= docs.len(),
        0 <= p < q < n,
        sorted_positions(docs, rules, n)[p] > sorted_positions(docs, rules, n)[q],
    ensures
        docs_order(sorted_prefix(docs, rules, n)[q], sorted_prefix(docs, rules, n)[p], rules)
            == Order::Greater,
    decreases n,
{
    let before = sorted_prefix(docs, rules, n - 1);
    let from = sorted_positions(docs, rules, n - 1);
    let at = insertion_point(before, docs[n - 1], rules, before.len() as int);
    let after = sorted_prefix(docs, rules, n);
    let origin = sorted_positions(docs, rules, n);
    lemma_sorted_positions(docs, rules, n - 1);
    lemma_sorted_prefix_len(docs, rules, n - 1);
    lemma_insertion_point(before, docs[n - 1], rules, n - 1);
    assert(after == before.insert(at, docs[n - 1]));
    assert(origin == from.insert(at, n - 1));
    if q < at {
        assert(origin[p] == from[p] && origin[q] == from[q]);
        assert(after[p] == before[p] && after[q] == before[q]);
        lemma_sort_stable(docs, rules, n - 1, p, q);
    } else if q == at {
        assert(origin[p] == from[p] && origin[q] == n - 1);
    } else if p == at {
        assert(after[p] == docs[n - 1] && after[q] == before[q - 1]);
    } else if p < at {
        assert(origin[p] == from[p] && origin[q] == from[q - 1]);
        assert(after[p] == before[p] && after[q] == before[q - 1]);
        lemma_sort_stable(docs, rules, n - 1, p, q - 1);
    } else {
        assert(origin[p] == from[p - 1] && origin[q] == from[q - 1]);
        assert(after[p] == before[p - 1] && after[q] == before[q - 1]);
        lemma_sort_stable(docs, rules, n - 1, p - 1, q - 1);
    }
}

/// Where the order of the documents is transitive, documents that are in
/// order are so across any distance: none is greater than any behind it.
pub proof fn lemma_in_order_throughout(docs: Seq<Json>, rules: Seq<SortRule>, i: int, j: int)
    requires
        in_order(docs, rules),
        order_is_transitive(docs, rules),
        0 <= i < j < docs.len(),
    ensures
        docs_order(docs[i], docs[j], rules) != Order::Greater,
    decreases j - i,
{
    if j > i + 1 {
        lemma_in_order_throughout(docs, rules, i, j - 1);
        assert(docs_order(docs[j - 1], docs[j], rules) != Order::Greater);
        assert(docs_order(docs[i], docs[j], rules) != Order::Greater);
    }
}

/// Among values of one kind, absent ones included, the order for sorting
/// is transitive.
pub proof fn lemma_sort_order_transitive(
    a: Option<Json>,
    b: Option<Json>,
    c: Option<Json>,
    kind: SortKind,
)
    requires
        of_kind(a, kind),
        of_kind(b, kind),
        of_kind(c, kind),
        sort_order(a, b) != Order::Greater,
        sort_order(b, c) != Order::Greater,
    ensures
        sort_order(a, c) != Order::Greater,
        sort_order(a, b) == Order::Less || sort_order(b, c) == Order::Less ==> sort_order(a, c)
            == Order::Less,
{
    if a is Some && b is Some && c is Some && kind == SortKind::Text {
        lemma_text_order_transitive(a->0->Text_0, b->0->Text_0, c->0->Text_0, 0);
    }
}

/// Among documents that hold values of one kind under the field of a
/// clause, the order by that clause is transitive.
pub proof fn lemma_rule_order_transitive(
    a: Json,
    b: Json,
    c: Json,
    rule: SortRule,
    kind: SortKind,
)
    requires
        of_kind(resolve(a, rule.field), kind),
        of_kind(resolve(b, rule.field), kind),
        of_kind(resolve(c, rule.field), kind),
        rule_order(a, b, rule) != Order::Greater,
        rule_order(b, c, rule) != Order::Greater,
    ensures
        rule_order(a, c, rule) != Order::Greater,
        rule_order(a, b, rule) == Order::Less || rule_order(b, c, rule) == Order::Less
            ==> rule_order(a, c, rule) == Order::Less,
{
    let x = resolve(a, rule.field);
    let y = resolve(b, rule.field);
    let z = resolve(c, rule.field);
    if rule.direction == "desc"@ {
        lemma_sort_order_flip(x, y);
        lemma_sort_order_flip(y, z);
        lemma_sort_order_flip(x, z);
        lemma_sort_order_transitive(z, y, x, kind);
    } else {
        lemma_sort_order_transitive(x, y, z, kind);
    }
}

/// Among documents that hold values of one kind under the field of each
/// clause, the order by the clauses is transitive.
pub proof fn lemma_docs_order_transitive(
    a: Json,
    b: Json,
    c: Json,
    rules: Seq<SortRule>,
    kinds: Seq<SortKind>,
    from: int,
)
    requires
        0 <= from,
        fields_of_kinds(seq![a, b, c], rules, kinds),
        docs_order_from(a, b, rules, from) != Order::Greater,
        docs_order_from(b, c, rules, from) != Order::Greater,
    ensures
        docs_order_from(a, c, rules, from) != Order::Greater,
        docs_order_from(a, b, rules, from) == Order::Less || docs_order_from(b, c, rules, from)
            == Order::Less ==> docs_order_from(a, c, rules, from) == Order::Less,
    decreases rules.len() - from,
{
    if from < rules.len() {
        let three = seq![a, b, c];
        assert(three[0] == a && three[1] == b && three[2] == c);
        assert(of_kind(resolve(three[0], rules[from].field), kinds[from]));
        assert(of_kind(resolve(three[1], rules[from].field), kinds[from]));
        assert(of_kind(resolve(three[2], rules[from].field), kinds[from]));
        lemma_rule_order_transitive(a, b, c, rules[from], kinds[from]);
        if rule_order(a, b, rules[from]) == Order::Equal && rule_order(b, c, rules[from])
            == Order::Equal {
            lemma_sort_order_flip(
                resolve(a, rules[from].field),
                resolve(b, rules[from].field),
            );
            lemma_sort_order_flip(
                resolve(b, rules[from].field),
                resolve(c, rules[from].field),
            );
            lemma_sort_order_flip(
                resolve(a, rules[from].field),
                resolve(c, rules[from].field),
            );
            lemma_rule_order_transitive(c, b, a, rules[from], kinds[from]);
            lemma_docs_order_transitive(a, b, c, rules, kinds, from + 1);
        }
    }
}

/// Where under each clause the documents hold values of one kind (numbers,
/// texts or booleans) or none, their order is transitive.
pub proof fn lemma_uniform_fields_transitive(
    docs: Seq<Json>,
    rules: Seq<SortRule>,
    kinds: Seq<SortKind>,
)
    requires
        fields_of_kinds(docs, rules, kinds),
    ensures
        order_is_transitive(docs, rules),
{
    assert forall|i: int, j: int, k: int|
        #![trigger docs_order(docs[i], docs[j], rules), docs_order(docs[j], docs[k], rules)]
        0 <= i < docs.len() && 0 <= j < docs.len() && 0 <= k < docs.len() && docs_order(
            docs[i],
            docs[j],
            rules,
        ) != Order::Greater && docs_order(docs[j], docs[k], rules) != Order::Greater
        implies docs_order(docs[i], docs[k], rules) != Order::Greater by {
        let three = seq![docs[i], docs[j], docs[k]];
        assert forall|m: int, r: int| 0 <= m < three.len() && 0 <= r < rules.len() implies of_kind(
            resolve(#[trigger] three[m], (#[trigger] rules[r]).field),
            kinds[r],
        ) by {
            if m == 0 {
                assert(three[m] == docs[i]);
            } else if m == 1 {
                assert(three[m] == docs[j]);
            } else {
                assert(three[m] == docs[k]);
            }
        }
        lemma_docs_order_transitive(docs[i], docs[j], docs[k], rules, kinds, 0);
    }
}

/// Sorting keeps the order transitive: it hands back the same documents.
pub proof fn lemma_sorted_order_transitive(docs: Seq<Json>, rules: Seq<SortRule>)
    requires
        order_is_transitive(docs, rules),
    ensures
        order_is_transitive(sorted_by(docs, rules), rules),
{
    let out = sorted_by(docs, rules);
    let origin = sorted_positions(docs, rules, docs.len() as int);
    lemma_sorted_positions(docs, rules, docs.len() as int);
    lemma_sorted_prefix_len(docs, rules, docs.len() as int);
    assert forall|i: int, j: int, k: int|
        #![trigger docs_order(out[i], out[j], rules), docs_order(out[j], out[k], rules)]
        0 <= i < out.len() && 0 <= j < out.len() && 0 <= k < out.len() && docs_order(
            out[i],
            out[j],
            rules,
        ) != Order::Greater && docs_order(out[j], out[k], rules) != Order::Greater
        implies docs_order(out[i], out[k], rules) != Order::Greater by {
        assert(out[i] == docs[origin[i]]);
        assert(out[j] == docs[origin[j]]);
        assert(out[k] == docs[origin[k]]);
        assert(docs_order(docs[origin[i]], docs[origin[j]], rules) != Order::Greater);
        assert(docs_order(docs[origin[j]], docs[origin[k]], rules) != Order::Greater);
    }
}

/// Two documents that are not in `Greater` order are not so by the first
/// clause that tells them apart: by each clause they are not `Greater`,
/// unless an earlier clause has told them apart already.
pub proof fn lemma_order_by_precedence(
    a: Json,
    b: Json,
    rules: Seq<SortRule>,
    from: int,
    clause: int,
)
    requires
        0 <= from <= clause < rules.len(),
        docs_order_from(a, b, rules, from) != Order::Greater,
        forall|k: int| from <= k < clause ==> rule_order(a, b, #[trigger] rules[k]) == Order::Equal,
    ensures
        rule_order(a, b, rules[clause]) != Order::Greater,
    decreases clause - from,
{
    if from < clause {
        assert(rule_order(a, b, rules[from]) == Order::Equal);
        lemma_order_by_precedence(a, b, rules, from + 1, clause);
    }
}

/// Sorting respects the precedence of the clauses. Where the order of the
/// documents is transitive, any sorted document and any behind it are not in
/// `Greater` order by the first clause, nor by a later clause where all
/// clauses before it tie.
pub proof fn lemma_sort_respects_precedence(
    docs: Seq<Json>,
    rules: Seq<SortRule>,
    i: int,
    j: int,
    clause: int,
)
    requires
        order_is_transitive(docs, rules),
        0 <= i < j < docs.len(),
        0 <= clause < rules.len(),
        forall|k: int|
            0 <= k < clause ==> rule_order(
                sorted_by(docs, rules)[i],
                sorted_by(docs, rules)[j],
                #[trigger] rules[k],
            ) == Order::Equal,
    ensures
        rule_order(sorted_by(docs, rules)[i], sorted_by(docs, rules)[j], rules[clause])
            != Order::Greater,
{
    let out = sorted_by(docs, rules);
    lemma_sorted_in_order(docs, rules, docs.len() as int);
    lemma_sorted_prefix_len(docs, rules, docs.len() as int);
    lemma_sorted_order_transitive(docs, rules);
    lemma_in_order_throughout(out, rules, i, j);
    lemma_order_by_precedence(out[i], out[j], rules, 0, clause);
}

} // verus!
