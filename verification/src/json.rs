//! JSON values, and the map of a JSON object with its entries in key order.

use vstd::prelude::*;

use crate::number::{Number, NumberView};
use crate::text::{
    lemma_precedes_total, lemma_precedes_transitive, precedes, same_text, text_precedes,
};

verus! {

/// A JSON value.
#[derive(Debug, PartialEq, Eq)]
pub enum Json {
    Null,
    Bool(bool),
    Number(Number),
    String(String),
    Array(Vec<Json>),
    Object(JsonMap),
}

/// The map of a JSON object: each key once, the keys in the order of `str`. That
/// of `serde_json` has its methods for values of `serde_json` only.
#[derive(Debug, PartialEq, Eq)]
pub struct JsonMap {
    entries: Vec<(String, Json)>,
}

/// The entries of a JSON object in key order.
pub type Entries = Seq<(Seq<char>, JsonView)>;

/// A JSON value as a mathematical value.
pub enum JsonView {
    Null,
    Bool(bool),
    Number(NumberView),
    String(Seq<char>),
    Array(Seq<JsonView>),
    Object(Entries),
}

/// The value under `key`.
pub open spec fn lookup(entries: Entries, key: Seq<char>) -> Option<JsonView>
    decreases entries.len(),
{
    if entries.len() == 0 {
        None
    } else if entries[0].0 == key {
        Some(entries[0].1)
    } else {
        lookup(entries.skip(1), key)
    }
}

/// The entries with `value` under `key`: in the place of the value that was
/// there, or else before the first greater key.
pub open spec fn inserted(entries: Entries, key: Seq<char>, value: JsonView) -> Entries
    decreases entries.len(),
{
    if entries.len() == 0 {
        seq![(key, value)]
    } else if entries[0].0 == key {
        seq![(key, value)] + entries.skip(1)
    } else if precedes(key, entries[0].0) {
        seq![(key, value)] + entries
    } else {
        seq![entries[0]] + inserted(entries.skip(1), key, value)
    }
}

/// Whether the keys are in strictly ascending order.
pub open spec fn ascending(entries: Entries) -> bool {
    forall|i: int, j: int|
        0 <= i < j < entries.len() ==> precedes(#[trigger] entries[i].0, #[trigger] entries[j].0)
}

/// Whether `key` comes before every key of the entries.
pub open spec fn before_all(key: Seq<char>, entries: Entries) -> bool {
    forall|i: int| 0 <= i < entries.len() ==> precedes(key, #[trigger] entries[i].0)
}

/// The values of a row of values.
pub open spec fn values_of(items: Seq<Json>) -> Seq<JsonView> {
    Seq::new(items.len(), |i: int| items[i]@)
}

impl Json {
    /// The mathematical value.
    pub open spec fn view(&self) -> JsonView
        decreases self,
    {
        match self {
            Json::Null => JsonView::Null,
            Json::Bool(b) => JsonView::Bool(*b),
            Json::Number(n) => JsonView::Number(n@),
            Json::String(s) => JsonView::String(s@),
            Json::Array(items) => JsonView::Array(
                Seq::new(
                    items@.len(),
                    |i: int|
                        if 0 <= i < items@.len() {
                            items@[i].view()
                        } else {
                            JsonView::Null
                        },
                ),
            ),
            Json::Object(map) => JsonView::Object(map.view()),
        }
    }

    /// An equal value.
    pub fn duplicate(&self) -> (r: Json)
        ensures
            r@ == self@,
        decreases self,
    {
        match self {
            Json::Null => Json::Null,
            Json::Bool(b) => Json::Bool(*b),
            Json::Number(n) => Json::Number(*n),
            Json::String(s) => Json::String(s.clone()),
            Json::Array(items) => {
                let mut copies: Vec<Json> = Vec::new();
                for i in 0..items.len()
                    invariant
                        self matches Json::Array(own) && own == items,
                        copies.len() == i,
                        forall|j: int| 0 <= j < i ==> #[trigger] copies@[j]@ == items@[j]@,
                {
                    assert(decreases_to!(self => self->Array_0@[i as int]));
                    let copy = items[i].duplicate();
                    copies.push(copy);
                }
                proof {
                    lemma_array_view(copies);
                    lemma_array_view(*items);
                    assert(values_of(copies@) =~= values_of(items@));
                }
                Json::Array(copies)
            },
            Json::Object(map) => Json::Object(map.duplicate()),
        }
    }
}

impl Clone for Json {
    fn clone(&self) -> (r: Json)
        ensures
            r@ == self@,
    {
        self.duplicate()
    }
}

/// The value of a JSON array is the row of its items' values.
pub proof fn lemma_array_view(items: Vec<Json>)
    ensures
        Json::Array(items)@ == JsonView::Array(values_of(items@)),
{
    assert(Json::Array(items)@->Array_0 =~= values_of(items@));
}

impl JsonMap {
    #[verifier::type_invariant]
    closed spec fn keys_ascend(self) -> bool {
        ascending(self@)
    }

    /// The entries in key order.
    pub closed spec fn view(&self) -> Entries
        decreases self,
    {
        Seq::new(
            self.entries@.len(),
            |i: int|
                if 0 <= i < self.entries@.len() {
                    (self.entries@[i].0@, self.entries@[i].1.view())
                } else {
                    (Seq::empty(), JsonView::Null)
                },
        )
    }

    /// The empty map.
    pub fn new() -> (r: JsonMap)
        ensures
            r@ == Entries::empty(),
    {
        let r = JsonMap { entries: Vec::new() };
        assert(r@ =~= Entries::empty());
        r
    }

    /// The number of entries.
    pub fn len(&self) -> (r: usize)
        ensures
            r == self@.len(),
            ascending(self@),
    {
        proof {
            use_type_invariant(self);
        }
        self.entries.len()
    }

    /// The key of entry `i`.
    pub fn key_at(&self, i: usize) -> (r: &String)
        requires
            i < self@.len(),
        ensures
            r@ == self@[i as int].0,
    {
        &self.entries[i].0
    }

    /// The value of entry `i`.
    pub fn value_at(&self, i: usize) -> (r: &Json)
        requires
            i < self@.len(),
        ensures
            r@ == self@[i as int].1,
    {
        &self.entries[i].1
    }

    /// The value under `key`.
    pub fn get(&self, key: &str) -> (r: Option<&Json>)
        ensures
            match r {
                Some(value) => lookup(self@, key@) == Some(value@),
                None => lookup(self@, key@) is None,
            },
    {
        let mut i: usize = 0;
        assert(self@.skip(0) =~= self@);
        while i < self.entries.len()
            invariant
                i <= self.entries.len(),
                self@.len() == self.entries.len(),
                lookup(self@, key@) == lookup(self@.skip(i as int), key@),
            decreases self.entries.len() - i,
        {
            assert(self@.skip(i as int)[0] == self@[i as int]);
            if same_text(self.entries[i].0.as_str(), key) {
                return Some(&self.entries[i].1);
            }
            assert(self@.skip(i as int).skip(1) =~= self@.skip(i + 1));
            i = i + 1;
        }
        None
    }

    /// Whether there is a value under `key`.
    pub fn contains_key(&self, key: &str) -> (r: bool)
        ensures
            r == (lookup(self@, key@) is Some),
    {
        self.get(key).is_some()
    }

    /// Puts `value` under `key`, in the place of the value that was there.
    pub fn insert(&mut self, key: String, value: Json)
        ensures
            final(self)@ == inserted(old(self)@, key@, value@),
    {
        let ghost before = self@;
        proof {
            use_type_invariant(&*self);
            lemma_inserted_ascending(before, key@, value@);
        }
        let mut entries: Vec<(String, Json)> = Vec::new();
        std::mem::swap(&mut entries, &mut self.entries);
        let ghost held = JsonMap { entries };
        assert(held@ =~= before);
        let mut i: usize = 0;
        assert(before.skip(0) =~= before);
        assert(before.take(0) =~= Entries::empty());
        while i < entries.len() && !same_text(entries[i].0.as_str(), key.as_str())
            && !text_precedes(key.as_str(), entries[i].0.as_str())
            invariant
                held == (JsonMap { entries }),
                held@ == before,
                before.len() == entries.len(),
                i <= entries.len(),
                inserted(before, key@, value@) =~= before.take(i as int) + inserted(
                    before.skip(i as int),
                    key@,
                    value@,
                ),
            decreases entries.len() - i,
        {
            assert(before.skip(i as int)[0] == before[i as int]);
            assert(before.skip(i as int).skip(1) =~= before.skip(i + 1));
            i = i + 1;
        }
        if i < entries.len() {
            assert(before.skip(i as int)[0] == before[i as int]);
            assert(before.skip(i as int).skip(1) =~= before.skip(i + 1));
            if same_text(entries[i].0.as_str(), key.as_str()) {
                entries.remove(i);
            }
        }
        let ghost new_key = key@;
        let ghost new_value = value@;
        entries.insert(i, (key, value));
        proof {
            let after = (JsonMap { entries })@;
            assert(after =~= inserted(before, new_key, new_value));
        }
        self.entries = entries;
    }

    /// An equal map.
    pub fn duplicate(&self) -> (r: JsonMap)
        ensures
            r@ == self@,
        decreases self,
    {
        let mut entries: Vec<(String, Json)> = Vec::new();
        for i in 0..self.entries.len()
            invariant
                entries.len() == i,
                forall|j: int|
                    0 <= j < i ==> (#[trigger] entries@[j]).0@ == self.entries@[j].0@
                        && entries@[j].1@ == self.entries@[j].1@,
        {
            let entry = &self.entries[i];
            let copy = entry.1.duplicate();
            entries.push((entry.0.clone(), copy));
        }
        proof {
            use_type_invariant(self);
            assert((JsonMap { entries })@ =~= self@);
        }
        JsonMap { entries }
    }
}

impl Clone for JsonMap {
    fn clone(&self) -> (r: JsonMap)
        ensures
            r@ == self@,
    {
        self.duplicate()
    }
}

/// Insertion keeps the keys ascending.
pub proof fn lemma_inserted_ascending(entries: Entries, key: Seq<char>, value: JsonView)
    requires
        ascending(entries),
    ensures
        ascending(inserted(entries, key, value)),
        forall|k: Seq<char>|
            before_all(k, entries) && precedes(k, key) ==> #[trigger] before_all(
                k,
                inserted(entries, key, value),
            ),
    decreases entries.len(),
{
    let after = inserted(entries, key, value);
    if entries.len() == 0 {
    } else if entries[0].0 == key {
        assert(after =~= entries.update(0, (key, value)));
    } else if precedes(key, entries[0].0) {
        assert forall|j: int| 1 <= j < after.len() implies precedes(key, #[trigger] after[j].0) by {
            assert(after[j] == entries[j - 1]);
            if j > 1 {
                lemma_precedes_transitive(key, entries[0].0, entries[j - 1].0);
            }
        }
        assert forall|i: int, j: int| 0 <= i < j < after.len() implies precedes(
            #[trigger] after[i].0,
            #[trigger] after[j].0,
        ) by {
            if i > 0 {
                assert(after[i] == entries[i - 1]);
                assert(after[j] == entries[j - 1]);
            }
        }
        assert forall|k: Seq<char>|
            before_all(k, entries) && precedes(k, key) implies #[trigger] before_all(k, after) by {
            assert forall|j: int| 0 <= j < after.len() implies precedes(
                k,
                #[trigger] after[j].0,
            ) by {
                if j > 0 {
                    assert(after[j] == entries[j - 1]);
                }
            }
        }
    } else {
        let rest = entries.skip(1);
        let tail = inserted(rest, key, value);
        assert(ascending(rest));
        lemma_inserted_ascending(rest, key, value);
        lemma_precedes_total(key, entries[0].0);
        assert(before_all(entries[0].0, rest));
        assert(before_all(entries[0].0, tail));
        assert forall|i: int, j: int| 0 <= i < j < after.len() implies precedes(
            #[trigger] after[i].0,
            #[trigger] after[j].0,
        ) by {
            assert(after[j] == tail[j - 1]);
            if i > 0 {
                assert(after[i] == tail[i - 1]);
            }
        }
        assert forall|k: Seq<char>|
            before_all(k, entries) && precedes(k, key) implies #[trigger] before_all(k, after) by {
            assert(before_all(k, rest));
            assert(before_all(k, tail));
            assert forall|j: int| 0 <= j < after.len() implies precedes(
                k,
                #[trigger] after[j].0,
            ) by {
                if j > 0 {
                    assert(after[j] == tail[j - 1]);
                }
            }
        }
    }
}

} // verus!
