//! The value tree, its mathematical model, and the ordered map that holds an object's
//! members.
use crate::grammar::{parse_text, Fault};
use crate::number::{is_number_lexeme, Number};
use crate::parse::{parse, Error};
use vstd::pervasive::unreached;
use vstd::prelude::*;

verus! {

/// The mathematical model of a JSON value: what a [`Value`] denotes.
///
/// An object is the sequence of its members in iteration order; a number is its literal.
pub enum Json {
    String(Seq<char>),
    Number(Seq<char>),
    Boolean(bool),
    Null,
    Object(Seq<(Seq<char>, Json)>),
    Array(Seq<Json>),
}

/// Whether some member of `entries` has the key `key`.
pub open spec fn has_key(entries: Seq<(Seq<char>, Json)>, key: Seq<char>) -> bool {
    exists|i: int| 0 <= i < entries.len() && (#[trigger] entries[i]).0 == key
}

/// No two members of `entries` share a key.
pub open spec fn keys_unique(entries: Seq<(Seq<char>, Json)>) -> bool {
    forall|i: int, j: int|
        0 <= i < j < entries.len() ==> (#[trigger] entries[i]).0 != (#[trigger] entries[j]).0
}

/// The members after `key` is bound to `value`: a member with that key keeps its place
/// and takes the new value; without one, the new member goes last.
pub open spec fn insert_entry(entries: Seq<(Seq<char>, Json)>, key: Seq<char>, value: Json) -> Seq<
    (Seq<char>, Json),
> {
    if has_key(entries, key) {
        Seq::new(
            entries.len(),
            |i: int|
                if entries[i].0 == key {
                    (key, value)
                } else {
                    entries[i]
                },
        )
    } else {
        entries.push((key, value))
    }
}

/// The members that result from binding each pair of `pairs` in turn, starting from none.
pub open spec fn collect_entries(pairs: Seq<(Seq<char>, Json)>) -> Seq<(Seq<char>, Json)>
    decreases pairs.len(),
{
    if pairs.len() == 0 {
        Seq::empty()
    } else {
        insert_entry(collect_entries(pairs.drop_last()), pairs.last().0, pairs.last().1)
    }
}

impl Json {
    /// What the parser can produce: numbers are number literals, and the keys of every
    /// object, at any depth, are pairwise distinct.
    pub open spec fn well_formed(self) -> bool
        decreases self,
    {
        match self {
            Json::Number(t) => is_number_lexeme(t),
            Json::Object(entries) => {
                &&& keys_unique(entries)
                &&& forall|i: int|
                    0 <= i < entries.len() ==> (#[trigger] entries[i]).1.well_formed()
            },
            Json::Array(items) => forall|i: int|
                0 <= i < items.len() ==> (#[trigger] items[i]).well_formed(),
            _ => true,
        }
    }
}

/// An object's members: an insertion-ordered map from key to value with unique keys.
///
/// The members live in an `indexmap::IndexMap<String, Value>`. The verifier does not look
/// inside the map: what it holds is named by [`object_entries`], and the private functions
/// `map_new`, `map_len`, `map_insert`, `map_get` and `map_get_index` state, without proof,
/// what the map's own methods do to it.
#[derive(Debug, PartialEq)]
#[verifier::external_body]
pub struct ObjectMap {
    inner: indexmap::IndexMap<String, Value>,
}

/// The members that an [`ObjectMap`] holds, in iteration order, each as its key's
/// characters and its value's model.
pub uninterp spec fn object_entries(m: ObjectMap) -> Seq<(Seq<char>, Json)>;

/// A JSON value.
#[derive(Debug, PartialEq)]
pub enum Value {
    String(String),
    Number(Number),
    Boolean(bool),
    Null,
    Object(ObjectMap),
    Array(Vec<Value>),
}

/// The models of `items`, in order.
pub open spec fn items_view(items: Seq<Value>) -> Seq<Json>
    decreases items,
{
    if items.len() == 0 {
        Seq::empty()
    } else {
        items_view(items.drop_last()).push(value_view(items.last()))
    }
}

/// The model of `v`.
pub open spec fn value_view(v: Value) -> Json
    decreases v,
{
    match v {
        Value::String(s) => Json::String(s@),
        Value::Number(n) => Json::Number(n@),
        Value::Boolean(b) => Json::Boolean(b),
        Value::Null => Json::Null,
        Value::Object(m) => Json::Object(object_entries(m)),
        Value::Array(items) => Json::Array(items_view(items@)),
    }
}

impl View for Value {
    type V = Json;

    open spec fn view(&self) -> Json {
        value_view(*self)
    }
}

impl View for ObjectMap {
    type V = Seq<(Seq<char>, Json)>;

    open spec fn view(&self) -> Seq<(Seq<char>, Json)> {
        object_entries(*self)
    }
}

/// `items_view` acts on each item and keeps the length.
pub proof fn lemma_items_view(items: Seq<Value>)
    ensures
        items_view(items).len() == items.len(),
        forall|i: int|
            0 <= i < items.len() ==> #[trigger] items_view(items)[i] == value_view(items[i]),
    decreases items.len(),
{
    if items.len() > 0 {
        lemma_items_view(items.drop_last());
    }
}

/// Binding a key keeps the keys distinct, and keeps well-formed members well-formed.
pub proof fn lemma_insert_entry(entries: Seq<(Seq<char>, Json)>, key: Seq<char>, value: Json)
    requires
        keys_unique(entries),
    ensures
        keys_unique(insert_entry(entries, key, value)),
        has_key(insert_entry(entries, key, value), key),
        has_key(entries, key) ==> insert_entry(entries, key, value).len() == entries.len(),
        !has_key(entries, key) ==> insert_entry(entries, key, value).len() == entries.len() + 1,
        value.well_formed() && Json::Object(entries).well_formed() ==> Json::Object(
            insert_entry(entries, key, value),
        ).well_formed(),
{
    let after = insert_entry(entries, key, value);
    if has_key(entries, key) {
        let i = choose|i: int| 0 <= i < entries.len() && (#[trigger] entries[i]).0 == key;
        assert(after[i].0 == key);
        assert forall|a: int, b: int| 0 <= a < b < after.len() implies (#[trigger] after[a]).0 != (
        #[trigger] after[b]).0 by {
            assert(after[a].0 == entries[a].0);
            assert(after[b].0 == entries[b].0);
        }
        if value.well_formed() && Json::Object(entries).well_formed() {
            assert forall|a: int| 0 <= a < after.len() implies (#[trigger] after[a]).1.well_formed() by {
                if entries[a].0 != key {
                    assert(after[a] == entries[a]);
                }
            }
        }
    } else {
        assert(after[entries.len() as int].0 == key);
        assert forall|a: int, b: int| 0 <= a < b < after.len() implies (#[trigger] after[a]).0 != (
        #[trigger] after[b]).0 by {
            assert(after[a] == entries[a]);
            if b < entries.len() {
                assert(after[b] == entries[b]);
            }
        }
        if value.well_formed() && Json::Object(entries).well_formed() {
            assert forall|a: int| 0 <= a < after.len() implies (#[trigger] after[a]).1.well_formed() by {
                if a < entries.len() {
                    assert(after[a] == entries[a]);
                }
            }
        }
    }
}

/// Binding pairs with distinct keys, in order, yields exactly those pairs.
pub proof fn lemma_collect_unique(pairs: Seq<(Seq<char>, Json)>)
    requires
        keys_unique(pairs),
    ensures
        collect_entries(pairs) == pairs,
    decreases pairs.len(),
{
    if pairs.len() > 0 {
        let front = pairs.drop_last();
        assert forall|i: int, j: int| 0 <= i < j < front.len() implies (#[trigger] front[i]).0 != (
        #[trigger] front[j]).0 by {
            assert(front[i] == pairs[i]);
            assert(front[j] == pairs[j]);
        }
        lemma_collect_unique(front);
        if has_key(front, pairs.last().0) {
            let i = choose|i: int| 0 <= i < front.len() && (#[trigger] front[i]).0 == pairs.last().0;
            assert(front[i] == pairs[i]);
            assert(pairs[pairs.len() - 1] == pairs.last());
            assert(false);
        }
        assert(front.push(pairs.last()) =~= pairs);
    }
}

/// What is bound from any pairs has distinct keys, and is well-formed if the values are.
pub proof fn lemma_collect_entries(pairs: Seq<(Seq<char>, Json)>)
    ensures
        keys_unique(collect_entries(pairs)),
        (forall|i: int| 0 <= i < pairs.len() ==> (#[trigger] pairs[i]).1.well_formed())
            ==> Json::Object(collect_entries(pairs)).well_formed(),
    decreases pairs.len(),
{
    if pairs.len() > 0 {
        let front = pairs.drop_last();
        lemma_collect_entries(front);
        lemma_insert_entry(collect_entries(front), pairs.last().0, pairs.last().1);
        if forall|i: int| 0 <= i < pairs.len() ==> (#[trigger] pairs[i]).1.well_formed() {
            assert forall|i: int| 0 <= i < front.len() implies (#[trigger] front[i]).1.well_formed() by {
                assert(front[i] == pairs[i]);
            }
            assert(pairs[pairs.len() - 1].1.well_formed());
        }
    }
}

/// Calls `IndexMap::new`, which makes a map without members.
#[verifier::external_body]
fn map_new() -> (r: ObjectMap)
    ensures
        object_entries(r) == Seq::<(Seq<char>, Json)>::empty(),
{
    ObjectMap { inner: indexmap::IndexMap::new() }
}

/// Calls `IndexMap::len`, which returns the number of members.
#[verifier::external_body]
fn map_len(m: &ObjectMap) -> (r: usize)
    ensures
        r == object_entries(*m).len(),
{
    m.inner.len()
}

/// Calls `IndexMap::insert`. If a member with an equal key exists, it keeps its key and
/// its place in the order and takes the new value; if none exists, the pair becomes the
/// last member. The value that was replaced is dropped.
#[verifier::external_body]
fn map_insert(m: &mut ObjectMap, key: String, value: Value)
    ensures
        object_entries(*final(m)) == insert_entry(object_entries(*old(m)), key@, value_view(value)),
{
    m.inner.insert(key, value);
}

/// Calls `IndexMap::get`, which returns the value of the member whose key equals `key`,
/// or `None` when no member has that key.
#[verifier::external_body]
fn map_get<'a>(m: &'a ObjectMap, key: &str) -> (r: Option<&'a Value>)
    ensures
        r is Some <==> has_key(object_entries(*m), key@),
        r matches Some(v) ==> exists|i: int|
            0 <= i < object_entries(*m).len() && (#[trigger] object_entries(*m)[i]).0 == key@
                && object_entries(*m)[i].1 == value_view(*v),
{
    m.inner.get(key)
}

/// Calls `IndexMap::get_index`, which returns the key and the value of the member at
/// position `index` in the order, or `None` when `index` is not below the length.
#[verifier::external_body]
fn map_get_index(m: &ObjectMap, index: usize) -> (r: Option<(&String, &Value)>)
    ensures
        r is Some <==> index < object_entries(*m).len(),
        r matches Some(kv) ==> kv.0@ == object_entries(*m)[index as int].0 && value_view(*kv.1)
            == object_entries(*m)[index as int].1,
{
    m.inner.get_index(index)
}

impl ObjectMap {
    /// An object without members.
    pub fn new() -> (r: ObjectMap)
        ensures
            r@ == Seq::<(Seq<char>, Json)>::empty(),
    {
        map_new()
    }

    /// The number of members.
    pub fn len(&self) -> (r: usize)
        ensures
            r == self@.len(),
    {
        map_len(self)
    }

    pub fn is_empty(&self) -> (r: bool)
        ensures
            r == (self@.len() == 0),
    {
        map_len(self) == 0
    }

    /// Binds `key` to `value`: an existing member with that key keeps its place and takes
    /// the new value; otherwise the member is added last.
    pub fn insert(&mut self, key: String, value: Value)
        ensures
            final(self)@ == insert_entry(old(self)@, key@, value@),
            keys_unique(old(self)@) ==> keys_unique(final(self)@),
            has_key(final(self)@, key@),
    {
        proof {
            if keys_unique(self@) {
                lemma_insert_entry(self@, key@, value@);
            }
            lemma_insert_has_key(self@, key@, value@);
        }
        map_insert(self, key, value)
    }

    /// The value bound to `key`, if any.
    pub fn get(&self, key: &str) -> (r: Option<&Value>)
        ensures
            r is Some <==> has_key(self@, key@),
            r matches Some(v) ==> exists|i: int|
                0 <= i < self@.len() && (#[trigger] self@[i]).0 == key@ && self@[i].1 == v@,
    {
        let r = map_get(self, key);
        proof {
            if let Some(v) = r {
                let i = choose|i: int|
                    0 <= i < object_entries(*self).len() && (#[trigger] object_entries(*self)[i]).0
                        == key@ && object_entries(*self)[i].1 == value_view(*v);
                assert(self@[i].0 == key@ && self@[i].1 == v@);
            }
        }
        r
    }

    /// The member at position `index` in iteration order, if there is one.
    pub fn get_index(&self, index: usize) -> (r: Option<(&String, &Value)>)
        ensures
            r is Some <==> index < self@.len(),
            r matches Some(kv) ==> kv.0@ == self@[index as int].0 && kv.1@ == self@[index as int].1,
    {
        map_get_index(self, index)
    }
}

impl Value {
    /// The value of the member with the key `key`, for an object that has such a member.
    pub fn member(&self, key: &str) -> (r: &Value)
        requires
            self@ is Object,
            has_key(self@->Object_0, key@),
        ensures
            exists|i: int|
                0 <= i < self@->Object_0.len() && (#[trigger] self@->Object_0[i]).0 == key@
                    && self@->Object_0[i].1 == r@,
    {
        match self {
            Value::Object(map) => match map.get(key) {
                Some(found) => found,
                None => unreached(),
            },
            _ => unreached(),
        }
    }

    /// The element at position `index`, for an array that is long enough.
    pub fn element(&self, index: usize) -> (r: &Value)
        requires
            self@ is Array,
            index < self@->Array_0.len(),
        ensures
            r@ == self@->Array_0[index as int],
    {
        match self {
            Value::Array(items) => {
                proof {
                    lemma_items_view(items@);
                }
                &items[index]
            },
            _ => unreached(),
        }
    }

    /// The value that `text` denotes, for a text that is known to be JSON.
    pub fn from_literal(text: &str) -> (r: Value)
        requires
            parse_text(text@) is Ok,
        ensures
            parse_text(text@) == Ok::<Json, Fault>(r@),
            r@.well_formed(),
    {
        match parse(text) {
            Ok(value) => value,
            Err(_) => unreached(),
        }
    }
}

impl std::str::FromStr for Value {
    type Err = Error;

    fn from_str(s: &str) -> (r: Result<Value, Error>)
        ensures
            match r {
                Ok(v) => parse_text(s@) == Ok::<Json, Fault>(v@) && v@.well_formed(),
                Err(e) => parse_text(s@) == Err::<Json, Fault>(e@),
            },
    {
        parse(s)
    }
}

/// After binding `key`, some member has it.
pub proof fn lemma_insert_has_key(entries: Seq<(Seq<char>, Json)>, key: Seq<char>, value: Json)
    ensures
        has_key(insert_entry(entries, key, value), key),
{
    let after = insert_entry(entries, key, value);
    if has_key(entries, key) {
        let i = choose|i: int| 0 <= i < entries.len() && (#[trigger] entries[i]).0 == key;
        assert(after[i].0 == key);
    } else {
        assert(after[entries.len() as int].0 == key);
    }
}

} // verus!
