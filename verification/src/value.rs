//! JSON-like documents and their mathematical model.

use vstd::prelude::*;
use crate::number::Number;
use crate::order::Order;
use crate::text::{
    chars_of, compare_chars, compare_text, has_name, lemma_text_order_equal,
    lemma_text_order_flip, lemma_text_order_transitive, same_text, text_order, texts,
};

verus! {

/// The mathematical model of a document: what a `Value` stands for.
pub ghost enum Json {
    Null,
    Bool(bool),
    Number(Number),
    Text(Seq<char>),
    Array(Seq<Json>),
    /// The entries of an object, in key order.
    Object(Seq<(Seq<char>, Json)>),
}

/// A document: a JSON value.
#[derive(Debug)]
pub enum Value {
    Null,
    Bool(bool),
    Number(Number),
    String(String),
    Array(Vec<Value>),
    Object(Object),
}

/// A JSON object: entries with distinct keys, kept in ascending key order.
#[derive(Debug)]
pub struct Object {
    entries: Vec<(String, Value)>,
}

/// Whether the keys of `entries` ascend strictly.
pub open spec fn keys_ascend(entries: Seq<(Seq<char>, Json)>) -> bool {
    forall|i: int, j: int|
        0 <= i < j < entries.len() ==> text_order(#[trigger] entries[i].0, #[trigger] entries[j].0)
            == Order::Less
}

/// The position of the first entry at or after `from` whose key is `key`;
/// the number of entries where there is none.
pub open spec fn key_position(entries: Seq<(Seq<char>, Json)>, key: Seq<char>, from: int) -> int
    decreases entries.len() - from,
{
    if from < 0 || from >= entries.len() {
        entries.len() as int
    } else if entries[from].0 == key {
        from
    } else {
        key_position(entries, key, from + 1)
    }
}

/// The value that `entries` holds under `key`, if any.
pub open spec fn lookup(entries: Seq<(Seq<char>, Json)>, key: Seq<char>) -> Option<Json> {
    let at = key_position(entries, key, 0);
    if at < entries.len() {
        Some(entries[at].1)
    } else {
        None
    }
}

/// The position of the first entry at or after `from` whose key is not
/// less than `key`; the number of entries where there is none.
pub open spec fn slot_for(entries: Seq<(Seq<char>, Json)>, key: Seq<char>, from: int) -> int
    decreases entries.len() - from,
{
    if from < 0 || from >= entries.len() {
        entries.len() as int
    } else if text_order(entries[from].0, key) != Order::Less {
        from
    } else {
        slot_for(entries, key, from + 1)
    }
}

/// `entries` with `value` under `key`: in place of the entry that had the
/// key, or else as a new entry where the key order puts it.
pub open spec fn with_entry(
    entries: Seq<(Seq<char>, Json)>,
    key: Seq<char>,
    value: Json,
) -> Seq<(Seq<char>, Json)> {
    let at = slot_for(entries, key, 0);
    if at < entries.len() && entries[at].0 == key {
        entries.update(at, (key, value))
    } else {
        entries.insert(at, (key, value))
    }
}

/// The test that keeps an entry where its key is one of `names`, if `keep`
/// is set, and where it is none of them, if not.
pub open spec fn key_kept(names: Seq<Seq<char>>, keep: bool) -> spec_fn((Seq<char>, Json)) -> bool {
    |e: (Seq<char>, Json)| names.contains(e.0) == keep
}

impl View for Value {
    type V = Json;

    open spec fn view(&self) -> Json
        decreases self,
    {
        match self {
            Value::Null => Json::Null,
            Value::Bool(b) => Json::Bool(*b),
            Value::Number(n) => Json::Number(*n),
            Value::String(s) => Json::Text(s@),
            Value::Array(items) => Json::Array(views(items@)),
            Value::Object(o) => Json::Object(o.view()),
        }
    }
}

impl View for Object {
    type V = Seq<(Seq<char>, Json)>;

    closed spec fn view(&self) -> Seq<(Seq<char>, Json)>
        decreases self,
    {
        entries_view(self.entries@)
    }
}

/// The models of a sequence of documents, in order.
pub open spec fn views(items: Seq<Value>) -> Seq<Json>
    decreases items,
{
    Seq::new(
        items.len(),
        |i: int|
            if 0 <= i < items.len() {
                items[i].view()
            } else {
                Json::Null
            },
    )
}

/// The models of a sequence of borrowed documents, in order.
pub open spec fn views_of(docs: Seq<&Value>) -> Seq<Json> {
    Seq::new(docs.len(), |i: int| (*docs[i])@)
}

/// The model of a sequence of entries.
pub open spec fn entries_view(entries: Seq<(String, Value)>) -> Seq<(Seq<char>, Json)>
    decreases entries,
{
    Seq::new(
        entries.len(),
        |i: int|
            if 0 <= i < entries.len() {
                (entries[i].0@, entries[i].1.view())
            } else {
                (Seq::empty(), Json::Null)
            },
    )
}

/// Equality of documents: member by member, numbers as JSON numbers are
/// equal, objects entry by entry in key order.
pub open spec fn json_equal(a: Json, b: Json) -> bool
    decreases a,
{
    match (a, b) {
        (Json::Null, Json::Null) => true,
        (Json::Bool(x), Json::Bool(y)) => x == y,
        (Json::Number(x), Json::Number(y)) => x.equals(y),
        (Json::Text(x), Json::Text(y)) => x == y,
        (Json::Array(x), Json::Array(y)) => {
            &&& x.len() == y.len()
            &&& forall|i: int| 0 <= i < x.len() ==> json_equal(#[trigger] x[i], y[i])
        },
        (Json::Object(x), Json::Object(y)) => {
            &&& x.len() == y.len()
            &&& forall|i: int|
                0 <= i < x.len() ==> (#[trigger] x[i]).0 == y[i].0 && json_equal(x[i].1, y[i].1)
        },
        _ => false,
    }
}

impl Object {
    #[verifier::type_invariant]
    spec fn ordered(&self) -> bool {
        keys_ascend(self@)
    }

    /// An object without entries.
    pub fn new() -> (r: Object)
        ensures
            r@ == Seq::<(Seq<char>, Json)>::empty(),
    {
        let entries: Vec<(String, Value)> = Vec::new();
        assert(entries_view(entries@) =~= Seq::empty());
        Object { entries }
    }

    /// Shows that the keys of the object ascend.
    pub fn keys_in_order(&self)
        ensures
            keys_ascend(self@),
    {
        proof {
            use_type_invariant(self);
        }
    }

    /// The number of entries.
    pub fn len(&self) -> (r: usize)
        ensures
            r == self@.len(),
    {
        self.entries.len()
    }

    /// The key and the value of the entry at position `i` in key order.
    pub fn entry(&self, i: usize) -> (r: (&String, &Value))
        requires
            i < self@.len(),
        ensures
            r.0@ == self@[i as int].0,
            r.1@ == self@[i as int].1,
    {
        (&self.entries[i].0, &self.entries[i].1)
    }

    /// The value under `key`, if the object has that key.
    pub fn get(&self, key: &str) -> (r: Option<&Value>)
        ensures
            match r {
                Some(v) => lookup(self@, key@) == Some(v@),
                None => lookup(self@, key@) is None,
            },
    {
        let chars = chars_of(key);
        self.get_chars(&chars)
    }

    /// The value under the key made of the characters `key`, if the object
    /// has that key.
    pub fn get_chars(&self, key: &Vec<char>) -> (r: Option<&Value>)
        ensures
            match r {
                Some(v) => lookup(self@, key@) == Some(v@),
                None => lookup(self@, key@) is None,
            },
    {
        let mut i: usize = 0;
        while i < self.entries.len()
            invariant
                i <= self.entries.len(),
                key_position(self@, key@, 0) == key_position(self@, key@, i as int),
            decreases self.entries.len() - i,
        {
            let own = chars_of(self.entries[i].0.as_str());
            proof {
                lemma_text_order_equal(own@, key@, 0);
            }
            if compare_chars(&own, key) == Order::Equal {
                return Some(&self.entries[i].1);
            }
            i += 1;
        }
        None
    }

    /// The object made of the entries whose key is one of `names`, if `keep`
    /// is set, and of the other entries, if not.
    pub fn select(&self, names: &Vec<String>, keep: bool) -> (r: Object)
        ensures
            r@ == self@.filter(key_kept(texts(names@), keep)),
    {
        proof {
            use_type_invariant(self);
        }
        let ghost kept = key_kept(texts(names@), keep);
        let ghost mut origin: Seq<int> = Seq::empty();
        let mut out: Vec<(String, Value)> = Vec::new();
        let mut i: usize = 0;
        assert(self@.take(0).filter(kept) =~= Seq::empty()) by {
            reveal(Seq::filter);
        }
        while i < self.entries.len()
            invariant
                i <= self.entries.len(),
                kept == key_kept(texts(names@), keep),
                entries_view(out@) == self@.take(i as int).filter(kept),
                origin.len() == out.len(),
                forall|k: int|
                    0 <= k < origin.len() ==> 0 <= #[trigger] origin[k] < i && entries_view(
                        out@,
                    )[k] == self@[origin[k]],
                forall|k: int, l: int|
                    0 <= k < l < origin.len() ==> #[trigger] origin[k] < #[trigger] origin[l],
            decreases self.entries.len() - i,
        {
            let ghost before = entries_view(out@);
            proof {
                assert(self@.take(i + 1) =~= self@.take(i as int).push(self@[i as int]));
                self@.take(i as int).lemma_filter_push(self@[i as int], kept);
            }
            if has_name(names, self.entries[i].0.as_str()) == keep {
                out.push((self.entries[i].0.clone(), self.entries[i].1.clone()));
                proof {
                    origin = origin.push(i as int);
                    assert(entries_view(out@) =~= before.push(self@[i as int]));
                }
            }
            i += 1;
        }
        proof {
            assert(self@.take(i as int) =~= self@);
            assert forall|k: int, l: int| 0 <= k < l < out.len() implies text_order(
                #[trigger] entries_view(out@)[k].0,
                #[trigger] entries_view(out@)[l].0,
            ) == Order::Less by {
                assert(origin[k] < origin[l]);
            }
        }
        Object { entries: out }
    }

    /// Puts `value` under `key` and hands back the value that the key had
    /// before, if it had one.
    pub fn insert(&mut self, key: String, value: Value) -> (r: Option<Value>)
        ensures
            final(self)@ == with_entry(old(self)@, key@, value@),
            match r {
                Some(v) => lookup(old(self)@, key@) == Some(v@),
                None => lookup(old(self)@, key@) is None,
            },
    {
        proof {
            use_type_invariant(&*self);
        }
        let mut i: usize = 0;
        while i < self.entries.len() && compare_text(self.entries[i].0.as_str(), key.as_str())
            == Order::Less
            invariant
                i <= self.entries.len(),
                *self == *old(self),
                slot_for(self@, key@, 0) == slot_for(self@, key@, i as int),
                forall|j: int| 0 <= j < i ==> text_order(self@[j].0, key@) == Order::Less,
            decreases self.entries.len() - i,
        {
            i += 1;
        }
        assert(slot_for(self@, key@, 0) == i);
        let ghost before = self@;
        let replace = i < self.entries.len() && same_text(
            self.entries[i].0.as_str(),
            key.as_str(),
        );
        let mut taken = Object::new();
        std::mem::swap(self, &mut taken);
        let mut entries = taken.entries;
        let ghost key_view = key@;
        let ghost value_view = value@;
        if replace {
            let old_entry = entries.remove(i);
            entries.insert(i, (key, value));
            proof {
                lemma_lookup_in_ascending(before, key_view, i as int);
                assert(entries_view(entries@) =~= with_entry(before, key_view, value_view));
                lemma_update_keeps_ascending(before, i as int, value_view);
            }
            let updated = Object { entries };
            *self = updated;
            Some(old_entry.1)
        } else {
            proof {
                if i < before.len() {
                    lemma_text_order_equal(before[i as int].0, key_view, 0);
                }
                lemma_absent_in_ascending(before, key_view, value_view, i as int);
            }
            entries.insert(i, (key, value));
            proof {
                assert(entries_view(entries@) =~= with_entry(before, key_view, value_view));
            }
            let grown = Object { entries };
            *self = grown;
            None
        }
    }
}

impl Clone for Value {
    /// A copy that stands for the same document.
    fn clone(&self) -> (r: Value)
        ensures
            r@ == self@,
        decreases self,
    {
        match self {
            Value::Null => Value::Null,
            Value::Bool(b) => Value::Bool(*b),
            Value::Number(n) => Value::Number(*n),
            Value::String(s) => Value::String(s.clone()),
            Value::Array(items) => {
                Value::Array(clone_items(items))
            },
            Value::Object(o) => Value::Object(o.clone()),
        }
    }
}

impl Value {
    /// Equality of documents.
    pub fn same_value(&self, other: &Value) -> (r: bool)
        ensures
            r == json_equal(self@, other@),
        decreases self,
    {
        match (self, other) {
            (Value::Null, Value::Null) => true,
            (Value::Bool(x), Value::Bool(y)) => *x == *y,
            (Value::Number(x), Value::Number(y)) => x.same_number(y),
            (Value::String(x), Value::String(y)) => *x == *y,
            (Value::Array(x), Value::Array(y)) => same_items(x, y),
            (Value::Object(x), Value::Object(y)) => x.same_entries(y),
            _ => false,
        }
    }

    /// Whether two documents have the same model: equal in every part, a
    /// number only to a number of the same kind with the same bits.
    pub fn identical(&self, other: &Value) -> (r: bool)
        ensures
            r == (self@ == other@),
        decreases self,
    {
        match (self, other) {
            (Value::Null, Value::Null) => true,
            (Value::Bool(x), Value::Bool(y)) => *x == *y,
            (Value::Number(x), Value::Number(y)) => x.identical(y),
            (Value::String(x), Value::String(y)) => *x == *y,
            (Value::Array(x), Value::Array(y)) => identical_items(x, y),
            (Value::Object(x), Value::Object(y)) => x.identical_entries(y),
            _ => false,
        }
    }
}

/// Whether two vectors hold equal documents at every position.
pub fn same_items(a: &Vec<Value>, b: &Vec<Value>) -> (r: bool)
    ensures
        r == json_equal(Json::Array(views(a@)), Json::Array(views(b@))),
    decreases a,
{
    if a.len() != b.len() {
        return false;
    }
    let mut i: usize = 0;
    while i < a.len()
        invariant
            i <= a.len(),
            a.len() == b.len(),
            forall|j: int| 0 <= j < i ==> json_equal(#[trigger] views(a@)[j], views(b@)[j]),
        decreases a.len() - i,
    {
        if !a[i].same_value(&b[i]) {
            assert(!json_equal(views(a@)[i as int], views(b@)[i as int]));
            return false;
        }
        i += 1;
    }
    true
}

/// Whether two vectors hold documents with the same models, in order.
pub fn identical_items(a: &Vec<Value>, b: &Vec<Value>) -> (r: bool)
    ensures
        r == (views(a@) == views(b@)),
    decreases a,
{
    if a.len() != b.len() {
        assert(views(a@).len() != views(b@).len());
        return false;
    }
    let mut i: usize = 0;
    while i < a.len()
        invariant
            i <= a.len(),
            a.len() == b.len(),
            forall|j: int| 0 <= j < i ==> views(a@)[j] == views(b@)[j],
        decreases a.len() - i,
    {
        if !a[i].identical(&b[i]) {
            assert(views(a@)[i as int] != views(b@)[i as int]);
            return false;
        }
        i += 1;
    }
    assert(views(a@) =~= views(b@));
    true
}

impl Object {
    /// Whether two objects have the same keys with equal values.
    pub fn same_entries(&self, other: &Object) -> (r: bool)
        ensures
            r == json_equal(Json::Object(self@), Json::Object(other@)),
        decreases self,
    {
        if self.entries.len() != other.entries.len() {
            return false;
        }
        let mut i: usize = 0;
        while i < self.entries.len()
            invariant
                i <= self.entries.len(),
                self.entries.len() == other.entries.len(),
                forall|j: int|
                    0 <= j < i ==> (#[trigger] self@[j]).0 == other@[j].0 && json_equal(
                        self@[j].1,
                        other@[j].1,
                    ),
            decreases self.entries.len() - i,
        {
            if !(self.entries[i].0 == other.entries[i].0) || !self.entries[i].1.same_value(
                &other.entries[i].1,
            ) {
                assert(!(self@[i as int].0 == other@[i as int].0 && json_equal(
                    self@[i as int].1,
                    other@[i as int].1,
                )));
                return false;
            }
            i += 1;
        }
        true
    }

    /// Whether two objects have the same keys with identical values.
    pub fn identical_entries(&self, other: &Object) -> (r: bool)
        ensures
            r == (self@ == other@),
        decreases self,
    {
        if self.entries.len() != other.entries.len() {
            assert(self@.len() != other@.len());
            return false;
        }
        let mut i: usize = 0;
        while i < self.entries.len()
            invariant
                i <= self.entries.len(),
                self.entries.len() == other.entries.len(),
                forall|j: int| 0 <= j < i ==> self@[j] == other@[j],
            decreases self.entries.len() - i,
        {
            if !(self.entries[i].0 == other.entries[i].0) || !self.entries[i].1.identical(
                &other.entries[i].1,
            ) {
                assert(self@[i as int] != other@[i as int]);
                return false;
            }
            i += 1;
        }
        assert(self@ =~= other@);
        true
    }
}

/// Copies of the documents of `items`, in order.
pub fn clone_items(items: &Vec<Value>) -> (r: Vec<Value>)
    ensures
        views(r@) == views(items@),
    decreases items,
{
    let mut copy: Vec<Value> = Vec::new();
    let mut i: usize = 0;
    while i < items.len()
        invariant
            i <= items.len(),
            copy.len() == i,
            forall|j: int| 0 <= j < i ==> copy@[j]@ == items@[j]@,
        decreases items.len() - i,
    {
        copy.push(items[i].clone());
        i += 1;
    }
    assert(views(copy@) =~= views(items@));
    copy
}

impl Clone for Object {
    /// A copy with the same entries.
    fn clone(&self) -> (r: Object)
        ensures
            r@ == self@,
        decreases self,
    {
        proof {
            use_type_invariant(self);
        }
        let mut copy: Vec<(String, Value)> = Vec::new();
        let mut i: usize = 0;
        while i < self.entries.len()
            invariant
                i <= self.entries.len(),
                copy.len() == i,
                forall|j: int|
                    0 <= j < i ==> copy@[j].0@ == self.entries@[j].0@ && copy@[j].1@
                        == self.entries@[j].1@,
            decreases self.entries.len() - i,
        {
            copy.push((self.entries[i].0.clone(), self.entries[i].1.clone()));
            i += 1;
        }
        assert(entries_view(copy@) =~= self@);
        Object { entries: copy }
    }
}

/// In entries whose keys ascend, the entry at `at` is the one that a lookup
/// of its key finds.
pub proof fn lemma_lookup_in_ascending(entries: Seq<(Seq<char>, Json)>, key: Seq<char>, at: int)
    requires
        keys_ascend(entries),
        0 <= at < entries.len(),
        entries[at].0 == key,
    ensures
        lookup(entries, key) == Some(entries[at].1),
{
    assert forall|j: int| 0 <= j < at implies entries[j].0 != key by {
        lemma_text_order_equal(entries[j].0, entries[at].0, 0);
    }
    lemma_key_position_skips(entries, key, 0, at);
}

/// Where none of the entries from `from` up to `to` has the key, a search
/// from `from` goes on from `to`.
pub proof fn lemma_key_position_skips(
    entries: Seq<(Seq<char>, Json)>,
    key: Seq<char>,
    from: int,
    to: int,
)
    requires
        0 <= from <= to <= entries.len(),
        forall|j: int| from <= j < to ==> entries[j].0 != key,
    ensures
        key_position(entries, key, from) == key_position(entries, key, to),
    decreases to - from,
{
    if from < to {
        lemma_key_position_skips(entries, key, from + 1, to);
    }
}

/// In entries whose keys ascend, a key that differs from the key at its
/// slot, or whose slot is past the end, is not there at all.
pub proof fn lemma_absent_in_ascending(
    entries: Seq<(Seq<char>, Json)>,
    key: Seq<char>,
    value: Json,
    at: int,
)
    requires
        keys_ascend(entries),
        0 <= at <= entries.len(),
        forall|j: int| 0 <= j < at ==> text_order(entries[j].0, key) == Order::Less,
        at < entries.len() ==> text_order(entries[at].0, key) == Order::Greater,
    ensures
        lookup(entries, key) is None,
        keys_ascend(entries.insert(at, (key, value))),
        forall|j: int| at <= j < entries.len() ==> text_order(key, entries[j].0) == Order::Less,
{
    assert forall|j: int| 0 <= j < entries.len() implies entries[j].0 != key by {
        lemma_text_order_equal(entries[j].0, key, 0);
        if j >= at {
            lemma_text_order_flip(entries[at].0, key, 0);
            if j > at {
                lemma_text_order_transitive(key, entries[at].0, entries[j].0, 0);
                lemma_text_order_flip(entries[j].0, key, 0);
            }
        }
    }
    lemma_key_position_skips(entries, key, 0, entries.len() as int);
    assert forall|j: int| at <= j < entries.len() implies text_order(key, entries[j].0)
        == Order::Less by {
        lemma_text_order_flip(entries[at].0, key, 0);
        if j > at {
            lemma_text_order_transitive(key, entries[at].0, entries[j].0, 0);
        }
    }
    let grown = entries.insert(at, (key, value));
    assert forall|i: int, j: int| 0 <= i < j < grown.len() implies text_order(
        #[trigger] grown[i].0,
        #[trigger] grown[j].0,
    ) == Order::Less by {
        if i < at && j > at {
            assert(grown[i] == entries[i]);
            assert(grown[j] == entries[j - 1]);
        } else if i < at && j < at {
            assert(grown[i] == entries[i]);
            assert(grown[j] == entries[j]);
        } else if i > at {
            assert(grown[i] == entries[i - 1]);
            assert(grown[j] == entries[j - 1]);
        } else if i == at {
            assert(grown[j] == entries[j - 1]);
        } else {
            assert(grown[i] == entries[i]);
        }
    }
}

/// A new value under a key that is there keeps the keys in order.
pub proof fn lemma_update_keeps_ascending(entries: Seq<(Seq<char>, Json)>, at: int, value: Json)
    requires
        keys_ascend(entries),
        0 <= at < entries.len(),
    ensures
        keys_ascend(entries.update(at, (entries[at].0, value))),
{
    let changed = entries.update(at, (entries[at].0, value));
    assert forall|i: int, j: int| 0 <= i < j < changed.len() implies text_order(
        #[trigger] changed[i].0,
        #[trigger] changed[j].0,
    ) == Order::Less by {
        assert(changed[i].0 == entries[i].0);
        assert(changed[j].0 == entries[j].0);
    }
}

/// Where a search for a key ends: at the first entry with the key, and
/// past the end where no entry has it.
pub proof fn lemma_key_position(entries: Seq<(Seq<char>, Json)>, key: Seq<char>, from: int)
    requires
        0 <= from <= entries.len(),
    ensures
        from <= key_position(entries, key, from) <= entries.len(),
        key_position(entries, key, from) < entries.len() ==> entries[key_position(
            entries,
            key,
            from,
        )].0 == key,
        forall|j: int| from <= j < key_position(entries, key, from) ==> entries[j].0 != key,
    decreases entries.len() - from,
{
    if from < entries.len() && entries[from].0 != key {
        lemma_key_position(entries, key, from + 1);
    }
}

/// Where the slot for a key is: behind every entry with a lesser key, and
/// at an entry whose key is not less, if there is one.
pub proof fn lemma_slot_for(entries: Seq<(Seq<char>, Json)>, key: Seq<char>, from: int)
    requires
        0 <= from <= entries.len(),
    ensures
        from <= slot_for(entries, key, from) <= entries.len(),
        slot_for(entries, key, from) < entries.len() ==> text_order(
            entries[slot_for(entries, key, from)].0,
            key,
        ) != Order::Less,
        forall|j: int|
            from <= j < slot_for(entries, key, from) ==> text_order(entries[j].0, key)
                == Order::Less,
    decreases entries.len() - from,
{
    if from < entries.len() && text_order(entries[from].0, key) == Order::Less {
        lemma_slot_for(entries, key, from + 1);
    }
}

/// An object with a value put under a key behaves as a map does: the key
/// then has that value, every other key has what it had, and the keys still
/// ascend.
pub proof fn lemma_lookup_with_entry(
    entries: Seq<(Seq<char>, Json)>,
    key: Seq<char>,
    value: Json,
    other: Seq<char>,
)
    requires
        keys_ascend(entries),
    ensures
        keys_ascend(with_entry(entries, key, value)),
        lookup(with_entry(entries, key, value), other) == if other == key {
            Some(value)
        } else {
            lookup(entries, other)
        },
{
    let at = slot_for(entries, key, 0);
    let after = with_entry(entries, key, value);
    lemma_slot_for(entries, key, 0);
    lemma_key_position(entries, other, 0);
    let found = key_position(entries, other, 0);
    if at < entries.len() && entries[at].0 == key {
        lemma_update_keeps_ascending(entries, at, value);
        assert(after[at] == (key, value));
        if other == key {
            lemma_lookup_in_ascending(after, key, at);
        } else if found < entries.len() {
            assert(after[found] == entries[found]);
            lemma_lookup_in_ascending(after, other, found);
        } else {
            assert forall|j: int| 0 <= j < after.len() implies after[j].0 != other by {
                assert(after[j].0 == entries[j].0);
            }
            lemma_key_position_skips(after, other, 0, after.len() as int);
        }
    } else {
        if at < entries.len() {
            lemma_text_order_equal(entries[at].0, key, 0);
        }
        lemma_absent_in_ascending(entries, key, value, at);
        assert(after[at] == (key, value));
        if other == key {
            lemma_lookup_in_ascending(after, key, at);
        } else if found < entries.len() {
            if found < at {
                assert(after[found] == entries[found]);
                lemma_lookup_in_ascending(after, other, found);
            } else {
                assert(after[found + 1] == entries[found]);
                lemma_lookup_in_ascending(after, other, found + 1);
            }
        } else {
            assert forall|j: int| 0 <= j < after.len() implies after[j].0 != other by {
                if j < at {
                    assert(after[j] == entries[j]);
                } else if j > at {
                    assert(after[j] == entries[j - 1]);
                }
            }
            lemma_key_position_skips(after, other, 0, after.len() as int);
        }
    }
}

/// Entries whose keys ascend and that agree up to `n` on what every key
/// has also agree at position `n`.
proof fn lemma_same_lookups_same_prefix(
    a: Seq<(Seq<char>, Json)>,
    b: Seq<(Seq<char>, Json)>,
    n: int,
)
    requires
        keys_ascend(a),
        keys_ascend(b),
        forall|key: Seq<char>| lookup(a, key) == lookup(b, key),
        0 <= n <= a.len(),
    ensures
        n <= b.len(),
        a.take(n) == b.take(n),
    decreases n,
{
    if n > 0 {
        lemma_same_lookups_same_prefix(a, b, n - 1);
        assert forall|j: int| 0 <= j < n - 1 implies a[j] == b[j] by {
            assert(a.take(n - 1)[j] == b.take(n - 1)[j]);
        }
        let i = n - 1;
        let key = a[i].0;
        lemma_lookup_in_ascending(a, key, i);
        lemma_key_position(b, key, 0);
        let at = key_position(b, key, 0);
        assert(lookup(b, key) == Some(a[i].1));
        assert(at < b.len() && b[at].0 == key && b[at].1 == a[i].1);
        if at < i {
            lemma_text_order_equal(a[at].0, a[i].0, 0);
        }
        if at > i {
            let small = b[i].0;
            lemma_lookup_in_ascending(b, small, i);
            lemma_key_position(a, small, 0);
            let back = key_position(a, small, 0);
            assert(lookup(a, small) == Some(b[i].1));
            assert(back < a.len() && a[back].0 == small);
            if back < i {
                lemma_text_order_equal(b[back].0, b[i].0, 0);
            } else if back > i {
                lemma_text_order_transitive(b[i].0, b[at].0, a[back].0, 0);
                lemma_text_order_equal(small, small, 0);
            } else {
                lemma_text_order_equal(b[i].0, b[at].0, 0);
            }
        }
        assert(at == i);
        assert(a.take(n) =~= b.take(n));
    } else {
        assert(a.take(0) =~= b.take(0));
    }
}

/// Objects are determined by what their keys have: entries whose keys
/// ascend and that give every key the same value are the same entries.
pub proof fn lemma_same_lookups_same_entries(
    a: Seq<(Seq<char>, Json)>,
    b: Seq<(Seq<char>, Json)>,
)
    requires
        keys_ascend(a),
        keys_ascend(b),
        forall|key: Seq<char>| lookup(a, key) == lookup(b, key),
    ensures
        a == b,
{
    lemma_same_lookups_same_prefix(a, b, a.len() as int);
    lemma_same_lookups_same_prefix(b, a, b.len() as int);
    assert(a.take(a.len() as int) =~= a);
    assert(b.take(b.len() as int) =~= b);
}

} // verus!
