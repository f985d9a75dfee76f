//! Field paths and the query pipeline.

use vstd::prelude::*;
use vstd::std_specs::iter::IteratorSpec;
use crate::filter::{evaluate_filter, satisfies, FilterNode, FilterTree};
use crate::sort::{rules, sort_documents, sorted_by, SortClause, SortRule};
use crate::text::{chars_of, texts};
use crate::value::{key_kept, lookup, views, views_of, Json, Value};

verus! {

/// What a query asks for: a filter, a sort specification, how many
/// documents to pass over, how many to hand back at most, and which
/// top-level fields to keep. Each part may be left out.
#[derive(Debug)]
pub struct QueryPlan {
    pub filter: Option<FilterNode>,
    pub sort: Option<Vec<SortClause>>,
    pub skip: Option<usize>,
    pub limit: Option<usize>,
    pub projection: Option<Projection>,
}

/// The top-level fields to keep, or those to drop. Where both lists are
/// given, the list of fields to keep decides.
#[derive(Debug)]
pub struct Projection {
    pub include_fields: Option<Vec<String>>,
    pub exclude: Option<Vec<String>>,
}

/// The outcome of a query: the documents that it hands back, and how many
/// documents passed the filter before any were passed over or cut off.
#[derive(Debug)]
pub struct ExecuteResult {
    pub documents: Vec<Value>,
    pub total_matched: usize,
}

/// The mathematical model of a projection.
pub ghost struct ProjectionModel {
    pub include_fields: Option<Seq<Seq<char>>>,
    pub exclude: Option<Seq<Seq<char>>>,
}

/// The mathematical model of a query plan.
pub ghost struct PlanModel {
    pub filter: Option<FilterTree>,
    pub sort: Option<Seq<SortRule>>,
    pub skip: Option<usize>,
    pub limit: Option<usize>,
    pub projection: Option<ProjectionModel>,
}

impl View for Projection {
    type V = ProjectionModel;

    open spec fn view(&self) -> ProjectionModel {
        ProjectionModel {
            include_fields: match self.include_fields {
                Some(names) => Some(texts(names@)),
                None => None,
            },
            exclude: match self.exclude {
                Some(names) => Some(texts(names@)),
                None => None,
            },
        }
    }
}

impl View for QueryPlan {
    type V = PlanModel;

    open spec fn view(&self) -> PlanModel {
        PlanModel {
            filter: match self.filter {
                Some(node) => Some(node@),
                None => None,
            },
            sort: match self.sort {
                Some(clauses) => Some(rules(clauses@)),
                None => None,
            },
            skip: self.skip,
            limit: self.limit,
            projection: match self.projection {
                Some(p) => Some(p@),
                None => None,
            },
        }
    }
}

/// The position of the first dot of `path` at or after `from`; the length
/// of `path` where there is none.
pub open spec fn dot_position(path: Seq<char>, from: int) -> int
    decreases path.len() - from,
{
    if from < 0 || from >= path.len() {
        path.len() as int
    } else if path[from] == '.' {
        from
    } else {
        dot_position(path, from + 1)
    }
}

/// What the part of `path` from `from` on leads to in `doc`: the segment up
/// to the next dot is a key of the object `doc`, and what follows the dot is
/// resolved in the value under that key. Nothing where `doc` is no object or
/// lacks the key.
pub open spec fn resolve_from(doc: Json, path: Seq<char>, from: int) -> Option<Json>
    decreases path.len() - from,
{
    match doc {
        Json::Object(entries) => {
            let dot = dot_position(path, from);
            match lookup(entries, path.subrange(from, dot)) {
                Some(found) => if from <= dot < path.len() {
                    resolve_from(found, path, dot + 1)
                } else {
                    Some(found)
                },
                None => None,
            }
        },
        _ => None,
    }
}

/// What the dotted `path` leads to in `doc`, if anything.
pub open spec fn resolve(doc: Json, path: Seq<char>) -> Option<Json> {
    resolve_from(doc, path, 0)
}

/// Resolves the part of a path from `from` on, the path given by its
/// characters.
pub fn get_field_from<'a>(doc: &'a Value, path: &Vec<char>, from: usize) -> (r: Option<&'a Value>)
    requires
        from <= path.len(),
    ensures
        match r {
            Some(v) => resolve_from(doc@, path@, from as int) == Some(v@),
            None => resolve_from(doc@, path@, from as int) is None,
        },
{
    let mut current: &Value = doc;
    let mut start: usize = from;
    loop
        invariant
            start <= path.len(),
            resolve_from(doc@, path@, from as int) == resolve_from(current@, path@, start as int),
        decreases path.len() - start,
    {
        let object = match current {
            Value::Object(o) => o,
            _ => {
                return None;
            },
        };
        let mut end: usize = start;
        let mut segment: Vec<char> = Vec::new();
        while end < path.len() && path[end] != '.'
            invariant
                start <= end <= path.len(),
                dot_position(path@, start as int) == dot_position(path@, end as int),
                segment@ == path@.subrange(start as int, end as int),
            decreases path.len() - end,
        {
            segment.push(path[end]);
            assert(path@.subrange(start as int, end + 1) =~= path@.subrange(
                start as int,
                end as int,
            ).push(path@[end as int]));
            end += 1;
        }
        assert(segment@ =~= path@.subrange(start as int, end as int));
        match object.get_chars(&segment) {
            Some(found) => {
                if end < path.len() {
                    current = found;
                    start = end + 1;
                } else {
                    return Some(found);
                }
            },
            None => {
                return None;
            },
        }
    }
}

/// Resolves a dotted field path in a document: each segment is a key of
/// the object reached so far. Nothing where a segment is missing or the
/// value reached is no object.
pub fn get_field<'a>(doc: &'a Value, path: &str) -> (r: Option<&'a Value>)
    ensures
        match r {
            Some(v) => resolve(doc@, path@) == Some(v@),
            None => resolve(doc@, path@) is None,
        },
{
    let chars = chars_of(path);
    get_field_from(doc, &chars, 0)
}

/// A document after projection. Of an object, `include_fields` keeps the
/// entries whose key it lists, and `exclude`, where there is no list of
/// fields to keep, drops the entries whose key it lists. Anything else is
/// left as it is. Keys are top-level keys: a dotted name is the name of one
/// key.
pub open spec fn project(doc: Json, projection: ProjectionModel) -> Json {
    match doc {
        Json::Object(entries) => match projection.include_fields {
            Some(names) => Json::Object(entries.filter(key_kept(names, true))),
            None => match projection.exclude {
                Some(names) => Json::Object(entries.filter(key_kept(names, false))),
                None => doc,
            },
        },
        _ => doc,
    }
}

/// The test that a document passes the filter tree.
pub open spec fn passes(tree: FilterTree) -> spec_fn(Json) -> bool {
    |doc: Json| satisfies(doc, tree)
}

/// The documents that pass the filter, in their order; all of them where
/// there is no filter.
pub open spec fn matched(docs: Seq<Json>, filter: Option<FilterTree>) -> Seq<Json> {
    match filter {
        Some(tree) => docs.filter(passes(tree)),
        None => docs,
    }
}

/// The documents in sorted order; as they are where there is no sort
/// specification.
pub open spec fn ordered(docs: Seq<Json>, sort: Option<Seq<SortRule>>) -> Seq<Json> {
    match sort {
        Some(by) => sorted_by(docs, by),
        None => docs,
    }
}

/// The documents without the first `skip` of them, and then at most `limit`
/// of what is left.
pub open spec fn page(docs: Seq<Json>, skip: Option<usize>, limit: Option<usize>) -> Seq<Json> {
    let rest = match skip {
        Some(n) => if n < docs.len() {
            docs.skip(n as int)
        } else {
            Seq::empty()
        },
        None => docs,
    };
    match limit {
        Some(n) => if n < rest.len() {
            rest.take(n as int)
        } else {
            rest
        },
        None => rest,
    }
}

/// Each document after projection; as they are where there is no
/// projection.
pub open spec fn projected(docs: Seq<Json>, projection: Option<ProjectionModel>) -> Seq<Json> {
    match projection {
        Some(p) => Seq::new(docs.len(), |i: int| project(docs[i], p)),
        None => docs,
    }
}

/// The documents that a query hands back: filter, then sort, then skip,
/// then limit, then projection.
pub open spec fn query_documents(docs: Seq<Json>, plan: PlanModel) -> Seq<Json> {
    projected(
        page(ordered(matched(docs, plan.filter), plan.sort), plan.skip, plan.limit),
        plan.projection,
    )
}

/// How many documents pass the filter of a query.
pub open spec fn query_total(docs: Seq<Json>, plan: PlanModel) -> nat {
    matched(docs, plan.filter).len()
}

/// Applies a projection to one document.
pub fn apply_projection(doc: Value, projection: &Projection) -> (r: Value)
    ensures
        r@ == project(doc@, projection@),
{
    match &doc {
        Value::Object(object) => {
            match &projection.include_fields {
                Some(include_fields) => {
                    return Value::Object(object.select(include_fields, true));
                },
                None => {},
            }
            match &projection.exclude {
                Some(exclude) => {
                    return Value::Object(object.select(exclude, false));
                },
                None => {},
            }
        },
        _ => {},
    }
    doc
}

/// The model of an optional reference to a filter.
pub open spec fn filter_view(filter: Option<&FilterNode>) -> Option<FilterTree> {
    match filter {
        Some(node) => Some(node@),
        None => None,
    }
}

/// The documents that pass the filter, borrowed, in their order.
pub fn passing_documents<'a>(documents: &'a [Value], filter: Option<&FilterNode>) -> (r: Vec<
    &'a Value,
>)
    ensures
        views_of(r@) == matched(views(documents@), filter_view(filter)),
{
    let ghost all = views(documents@);
    let mut results: Vec<&'a Value> = Vec::new();
    let mut i: usize = 0;
    match filter {
        Some(node) => {
            let ghost test = passes(node@);
            assert(all.take(0).filter(test) =~= Seq::empty()) by {
                reveal(Seq::filter);
            }
            while i < documents.len()
                invariant
                    i <= documents.len(),
                    all == views(documents@),
                    test == passes(node@),
                    views_of(results@) == all.take(i as int).filter(test),
                decreases documents.len() - i,
            {
                let ghost before = views_of(results@);
                proof {
                    assert(all.take(i + 1) =~= all.take(i as int).push(all[i as int]));
                    all.take(i as int).lemma_filter_push(all[i as int], test);
                }
                if evaluate_filter(&documents[i], node) {
                    results.push(&documents[i]);
                    assert(views_of(results@) =~= before.push(all[i as int]));
                }
                i += 1;
            }
            assert(all.take(i as int) =~= all);
        },
        None => {
            while i < documents.len()
                invariant
                    i <= documents.len(),
                    all == views(documents@),
                    views_of(results@) == all.take(i as int),
                decreases documents.len() - i,
            {
                let ghost before = views_of(results@);
                results.push(&documents[i]);
                assert(views_of(results@) =~= before.push(all[i as int]));
                assert(all.take(i + 1) =~= all.take(i as int).push(all[i as int]));
                i += 1;
            }
            assert(all.take(i as int) =~= all);
        },
    }
    results
}

/// Copies of borrowed documents, in their order.
pub fn clone_documents(docs: &Vec<&Value>) -> (r: Vec<Value>)
    ensures
        views(r@) == views_of(docs@),
{
    let mut copies: Vec<Value> = Vec::new();
    let mut i: usize = 0;
    while i < docs.len()
        invariant
            i <= docs.len(),
            copies.len() == i,
            forall|k: int| 0 <= k < i ==> (#[trigger] views(copies@)[k]) == views_of(docs@)[k],
        decreases docs.len() - i,
    {
        let ghost before = views(copies@);
        copies.push(docs[i].clone());
        assert forall|k: int| 0 <= k < i + 1 implies (#[trigger] views(copies@)[k]) == views_of(
            docs@,
        )[k] by {
            if k < i {
                assert(views(copies@)[k] == before[k]);
            }
        }
        i += 1;
    }
    assert(views(copies@) =~= views_of(docs@));
    copies
}

/// Drops the first `skip` documents, all of them where there are no more,
/// and then cuts what is left down to `limit` documents.
pub fn paginate(docs: &mut Vec<Value>, skip: Option<usize>, limit: Option<usize>)
    ensures
        views(final(docs)@) == page(views(old(docs)@), skip, limit),
{
    let ghost all = views(docs@);
    match skip {
        Some(n) => {
            if n < docs.len() {
                let rest = docs.split_off(n);
                *docs = rest;
                assert(views(docs@) =~= all.skip(n as int));
            } else {
                docs.clear();
                assert(views(docs@) =~= Seq::<Json>::empty());
            }
        },
        None => {},
    }
    let ghost rest = views(docs@);
    match limit {
        Some(n) => {
            docs.truncate(n);
            proof {
                if n < rest.len() {
                    assert(views(docs@) =~= rest.take(n as int));
                } else {
                    assert(views(docs@) =~= rest);
                }
            }
        },
        None => {},
    }
}

/// Applies a projection to each document.
pub fn project_documents(docs: Vec<Value>, projection: &Projection) -> (r: Vec<Value>)
    ensures
        views(r@) == projected(views(docs@), Some(projection@)),
{
    let ghost all = views(docs@);
    let mut out: Vec<Value> = Vec::new();
    for doc in it: docs
        invariant
            it.seq() == docs@,
            all == views(docs@),
            out.len() == it.index(),
            forall|k: int|
                0 <= k < out.len() ==> (#[trigger] views(out@)[k]) == project(all[k], projection@),
    {
        let ghost done = views(out@);
        assert(doc@ == all[it.index() as int]);
        out.push(apply_projection(doc, projection));
        assert forall|k: int| 0 <= k < out.len() implies (#[trigger] views(out@)[k]) == project(
            all[k],
            projection@,
        ) by {
            if k < out.len() - 1 {
                assert(views(out@)[k] == done[k]);
            }
        }
    }
    assert(views(out@) =~= projected(all, Some(projection@)));
    out
}

/// Runs a query over documents: filter, count, sort, skip, limit,
/// projection, in that order.
pub fn execute(documents: &[Value], plan: &QueryPlan) -> (r: ExecuteResult)
    ensures
        views(r.documents@) == query_documents(views(documents@), plan@),
        r.documents.len() == query_documents(views(documents@), plan@).len(),
        r.total_matched == query_total(views(documents@), plan@),
{
    let passing = passing_documents(documents, plan.filter.as_ref());
    let mut results = clone_documents(&passing);
    let total_matched = results.len();

    match &plan.sort {
        Some(sort_clauses) => {
            sort_documents(&mut results, sort_clauses.as_slice());
        },
        None => {},
    }
    paginate(&mut results, plan.skip, plan.limit);
    match &plan.projection {
        Some(projection) => {
            results = project_documents(results, projection);
        },
        None => {},
    }
    ExecuteResult { documents: results, total_matched }
}

/// How many documents a query counts depends on its filter alone: not on
/// what it passes over, cuts off, sorts or projects.
pub proof fn lemma_total_depends_on_filter(docs: Seq<Json>, first: PlanModel, second: PlanModel)
    requires
        first.filter == second.filter,
    ensures
        query_total(docs, first) == query_total(docs, second),
{
}

/// A query hands back no more documents than it counts.
pub proof fn lemma_page_within_total(docs: Seq<Json>, plan: PlanModel)
    ensures
        query_documents(docs, plan).len() <= query_total(docs, plan),
{
    let passed = matched(docs, plan.filter);
    let sorted = ordered(passed, plan.sort);
    if plan.sort is Some {
        crate::sort::lemma_sorted_prefix_len(passed, plan.sort->0, passed.len() as int);
    }
}

/// Keeping the entries that a test admits keeps all of them where it
/// admits every one.
pub proof fn lemma_filter_keeps_all<A>(items: Seq<A>, test: spec_fn(A) -> bool)
    requires
        forall|i: int| 0 <= i < items.len() ==> test(#[trigger] items[i]),
    ensures
        items.filter(test) == items,
    decreases items.len(),
{
    reveal(Seq::filter);
    if items.len() > 0 {
        lemma_filter_keeps_all(items.drop_last(), test);
        assert(items.drop_last().push(items.last()) =~= items);
    }
}

/// A projection that keeps every key of a document gives the document
/// back.
pub proof fn lemma_project_every_key(doc: Json, names: Seq<Seq<char>>, dropped: Option<
    Seq<Seq<char>>,
>)
    requires
        doc is Object ==> forall|i: int|
            0 <= i < doc->Object_0.len() ==> names.contains(#[trigger] doc->Object_0[i].0),
    ensures
        project(doc, ProjectionModel { include_fields: Some(names), exclude: dropped }) == doc,
{
    if doc is Object {
        lemma_filter_keeps_all(doc->Object_0, key_kept(names, true));
    }
}

/// A projection that drops no key gives the document back.
pub proof fn lemma_project_nothing_dropped(doc: Json)
    ensures
        project(doc, ProjectionModel { include_fields: None, exclude: Some(Seq::empty()) }) == doc,
        project(doc, ProjectionModel { include_fields: None, exclude: None }) == doc,
{
    if doc is Object {
        lemma_filter_keeps_all(doc->Object_0, key_kept(Seq::empty(), false));
    }
}

} // verus!
