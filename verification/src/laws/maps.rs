//! Laws of the entries of JSON objects.

use vstd::prelude::*;

use crate::json::{
    ascending, before_all, inserted, lemma_inserted_ascending, lookup, Entries, JsonView,
};
use crate::text::{
    lemma_precedes_irreflexive, lemma_precedes_total, lemma_precedes_transitive, precedes,
};

verus! {

/// After an insertion the new value is under its key, and under every other key
/// what was there before.
pub proof fn lookup_after_insertion(
    entries: Entries,
    key: Seq<char>,
    value: JsonView,
    other: Seq<char>,
)
    ensures
        lookup(inserted(entries, key, value), other) == if other == key {
            Some(value)
        } else {
            lookup(entries, other)
        },
    decreases entries.len(),
{
    let after = inserted(entries, key, value);
    if entries.len() == 0 {
        assert(after.skip(1) =~= entries);
    } else if entries[0].0 == key {
        assert(after.skip(1) =~= entries.skip(1));
    } else if precedes(key, entries[0].0) {
        assert(after.skip(1) =~= entries);
    } else {
        assert(after.skip(1) =~= inserted(entries.skip(1), key, value));
        lookup_after_insertion(entries.skip(1), key, value, other);
    }
}

/// No value is under a key that comes before all keys.
pub proof fn lookup_before_all(entries: Entries, key: Seq<char>)
    requires
        before_all(key, entries),
    ensures
        lookup(entries, key) is None,
    decreases entries.len(),
{
    if entries.len() > 0 {
        assert(precedes(key, entries[0].0));
        lemma_precedes_irreflexive(key);
        assert forall|i: int| 0 <= i < entries.skip(1).len() implies precedes(
            key,
            #[trigger] entries.skip(1)[i].0,
        ) by {
            assert(entries.skip(1)[i] == entries[i + 1]);
        }
        lookup_before_all(entries.skip(1), key);
    }
}

proof fn lemma_rest(entries: Entries)
    requires
        ascending(entries),
        entries.len() > 0,
    ensures
        ascending(entries.skip(1)),
        before_all(entries[0].0, entries.skip(1)),
        lookup(entries.skip(1), entries[0].0) is None,
{
    let rest = entries.skip(1);
    assert forall|i: int, j: int| 0 <= i < j < rest.len() implies precedes(
        #[trigger] rest[i].0,
        #[trigger] rest[j].0,
    ) by {
        assert(rest[i] == entries[i + 1]);
        assert(rest[j] == entries[j + 1]);
    }
    assert forall|i: int| 0 <= i < rest.len() implies precedes(
        entries[0].0,
        #[trigger] rest[i].0,
    ) by {
        assert(rest[i] == entries[i + 1]);
    }
    lookup_before_all(rest, entries[0].0);
}

/// The first key of one object is not before the first key of another one with
/// the same values.
proof fn lemma_first_not_before(a: Entries, b: Entries)
    requires
        ascending(a),
        ascending(b),
        a.len() > 0,
        forall|key: Seq<char>| lookup(a, key) == #[trigger] lookup(b, key),
    ensures
        b.len() > 0,
        !precedes(a[0].0, b[0].0),
{
    assert(lookup(a, a[0].0) == Some(a[0].1));
    assert(lookup(b, a[0].0) is Some);
    if b.len() > 0 && precedes(a[0].0, b[0].0) {
        lemma_rest(b);
        assert forall|i: int| 0 <= i < b.len() implies precedes(a[0].0, #[trigger] b[i].0) by {
            if i > 0 {
                assert(precedes(b[0].0, b[i].0));
                lemma_precedes_transitive(a[0].0, b[0].0, b[i].0);
            }
        }
        lookup_before_all(b, a[0].0);
    }
}

/// Two objects with the same value under every key have the same entries in
/// the same order.
pub proof fn entries_are_their_values(a: Entries, b: Entries)
    requires
        ascending(a),
        ascending(b),
        forall|key: Seq<char>| lookup(a, key) == #[trigger] lookup(b, key),
    ensures
        a == b,
    decreases a.len(),
{
    if a.len() == 0 {
        if b.len() > 0 {
            assert(lookup(b, b[0].0) == Some(b[0].1));
            assert(lookup(a, b[0].0) is None);
        }
        assert(a =~= b);
    } else {
        lemma_first_not_before(a, b);
        assert forall|key: Seq<char>| lookup(b, key) == #[trigger] lookup(a, key) by {
            assert(lookup(a, key) == lookup(b, key));
        }
        lemma_first_not_before(b, a);
        if a[0].0 != b[0].0 {
            lemma_precedes_total(a[0].0, b[0].0);
        }
        assert(lookup(a, a[0].0) == lookup(b, a[0].0));
        lemma_rest(a);
        lemma_rest(b);
        assert forall|key: Seq<char>| lookup(a.skip(1), key) == #[trigger] lookup(
            b.skip(1),
            key,
        ) by {
            if key != a[0].0 {
                assert(lookup(a, key) == lookup(b, key));
            }
        }
        entries_are_their_values(a.skip(1), b.skip(1));
        assert(a =~= seq![a[0]] + a.skip(1));
        assert(b =~= seq![b[0]] + b.skip(1));
    }
}

/// The order of two insertions under different keys makes no difference.
pub proof fn insertions_commute(
    entries: Entries,
    key: Seq<char>,
    value: JsonView,
    other_key: Seq<char>,
    other_value: JsonView,
)
    requires
        ascending(entries),
        key != other_key,
    ensures
        inserted(inserted(entries, key, value), other_key, other_value) == inserted(
            inserted(entries, other_key, other_value),
            key,
            value,
        ),
{
    let a = inserted(entries, key, value);
    let b = inserted(entries, other_key, other_value);
    let x = inserted(a, other_key, other_value);
    let y = inserted(b, key, value);
    lemma_inserted_ascending(entries, key, value);
    lemma_inserted_ascending(a, other_key, other_value);
    lemma_inserted_ascending(entries, other_key, other_value);
    lemma_inserted_ascending(b, key, value);
    assert forall|k: Seq<char>| lookup(x, k) == #[trigger] lookup(y, k) by {
        lookup_after_insertion(entries, key, value, k);
        lookup_after_insertion(a, other_key, other_value, k);
        lookup_after_insertion(entries, other_key, other_value, k);
        lookup_after_insertion(b, key, value, k);
    }
    entries_are_their_values(x, y);
}

/// Of two insertions under one key the last one counts.
pub proof fn last_insertion_counts(
    entries: Entries,
    key: Seq<char>,
    value: JsonView,
    last: JsonView,
)
    requires
        ascending(entries),
    ensures
        inserted(inserted(entries, key, value), key, last) == inserted(entries, key, last),
{
    let a = inserted(entries, key, value);
    let x = inserted(a, key, last);
    let y = inserted(entries, key, last);
    lemma_inserted_ascending(entries, key, value);
    lemma_inserted_ascending(a, key, last);
    lemma_inserted_ascending(entries, key, last);
    assert forall|k: Seq<char>| lookup(x, k) == #[trigger] lookup(y, k) by {
        lookup_after_insertion(entries, key, value, k);
        lookup_after_insertion(a, key, last, k);
        lookup_after_insertion(entries, key, last, k);
    }
    entries_are_their_values(x, y);
}

/// The entries of one object with those of another laid over them.
pub open spec fn overlaid(under: Entries, over: Entries) -> Entries
    decreases over.len(),
{
    if over.len() == 0 {
        under
    } else {
        inserted(overlaid(under, over.drop_last()), over.last().0, over.last().1)
    }
}

/// What `lookup` finds in entries and one more behind them.
proof fn lemma_lookup_last(entries: Entries, key: Seq<char>)
    requires
        entries.len() > 0,
    ensures
        lookup(entries, key) == match lookup(entries.drop_last(), key) {
            Some(value) => Some(value),
            None => if entries.last().0 == key {
                Some(entries.last().1)
            } else {
                None
            },
        },
    decreases entries.len(),
{
    let front = entries.drop_last();
    if front.len() == 0 {
        assert(entries.skip(1) =~= Entries::empty());
        assert(lookup(Entries::empty(), key) is None);
    } else if entries[0].0 != key {
        lemma_lookup_last(entries.skip(1), key);
        assert(entries.skip(1).drop_last() =~= front.skip(1));
    }
}

/// A value that `lookup` finds is under that key.
proof fn lemma_lookup_key(entries: Entries, key: Seq<char>)
    ensures
        lookup(entries, key) is Some ==> exists|i: int|
            0 <= i < entries.len() && (#[trigger] entries[i]).0 == key,
    decreases entries.len(),
{
    if entries.len() > 0 {
        lemma_lookup_last(entries, key);
        lemma_lookup_key(entries.drop_last(), key);
        if lookup(entries.drop_last(), key) is Some {
            let i = choose|i: int|
                0 <= i < entries.drop_last().len() && (#[trigger] entries.drop_last()[i]).0 == key;
            assert(entries[i].0 == key);
        } else {
            assert(entries[entries.len() - 1] == entries.last());
        }
    }
}

/// Where one object is laid over another, its values count; under other keys
/// are those of the other. The keys are in order where they were.
pub proof fn the_upper_object_counts(under: Entries, over: Entries, key: Seq<char>)
    requires
        ascending(over),
    ensures
        lookup(overlaid(under, over), key) == match lookup(over, key) {
            Some(value) => Some(value),
            None => lookup(under, key),
        },
        ascending(under) ==> ascending(overlaid(under, over)),
    decreases over.len(),
{
    if over.len() > 0 {
        let front = over.drop_last();
        let last = over.last();
        assert forall|i: int, j: int| 0 <= i < j < front.len() implies precedes(
            #[trigger] front[i].0,
            #[trigger] front[j].0,
        ) by {
            assert(front[i] == over[i] && front[j] == over[j]);
        }
        the_upper_object_counts(under, front, key);
        lookup_after_insertion(overlaid(under, front), last.0, last.1, key);
        lemma_lookup_last(over, key);
        if ascending(under) {
            lemma_inserted_ascending(overlaid(under, front), last.0, last.1);
        }
        if last.0 == key && lookup(front, key) is Some {
            lemma_lookup_key(front, key);
            let i = choose|i: int| 0 <= i < front.len() && (#[trigger] front[i]).0 == key;
            assert(precedes(over[i].0, over[over.len() - 1].0));
            lemma_precedes_irreflexive(key);
        }
    }
}

/// An insertion into an object can be made before or after it is laid over
/// another.
pub proof fn insertion_goes_into_the_upper_object(
    under: Entries,
    over: Entries,
    key: Seq<char>,
    value: JsonView,
)
    requires
        ascending(under),
        ascending(over),
    ensures
        inserted(overlaid(under, over), key, value) == overlaid(
            under,
            inserted(over, key, value),
        ),
{
    let a = inserted(overlaid(under, over), key, value);
    let more = inserted(over, key, value);
    let b = overlaid(under, more);
    lemma_inserted_ascending(over, key, value);
    the_upper_object_counts(under, over, key);
    the_upper_object_counts(under, more, key);
    lemma_inserted_ascending(overlaid(under, over), key, value);
    assert forall|k: Seq<char>| lookup(a, k) == #[trigger] lookup(b, k) by {
        lookup_after_insertion(overlaid(under, over), key, value, k);
        lookup_after_insertion(over, key, value, k);
        the_upper_object_counts(under, over, k);
        the_upper_object_counts(under, more, k);
    }
    entries_are_their_values(a, b);
}

/// The value under a key is that of the first entry with the key.
pub proof fn what_is_under_a_key(entries: Entries, key: Seq<char>, value: JsonView)
    ensures
        lookup(entries, key) == Some(value) <==> exists|i: int|
            {
                &&& 0 <= i < entries.len()
                &&& #[trigger] entries[i] == (key, value)
                &&& forall|j: int| 0 <= j < i ==> (#[trigger] entries[j]).0 != key
            },
        lookup(entries, key) is None <==> forall|i: int|
            0 <= i < entries.len() ==> (#[trigger] entries[i]).0 != key,
    decreases entries.len(),
{
    if entries.len() > 0 {
        let rest = entries.skip(1);
        assert(forall|i: int| 0 <= i < rest.len() ==> #[trigger] rest[i] == entries[i + 1]);
        assert(forall|i: int| 0 < i < entries.len() ==> #[trigger] entries[i] == rest[i - 1]);
        what_is_under_a_key(rest, key, value);
        if entries[0].0 == key {
            if entries[0].1 == value {
                assert(entries[0] == (key, value));
            }
        } else if lookup(rest, key) == Some(value) {
            let i = choose|i: int|
                {
                    &&& 0 <= i < rest.len()
                    &&& #[trigger] rest[i] == (key, value)
                    &&& forall|j: int| 0 <= j < i ==> (#[trigger] rest[j]).0 != key
                };
            assert(entries[i + 1] == (key, value));
            assert forall|j: int| 0 <= j < i + 1 implies (#[trigger] entries[j]).0 != key by {
                if j > 0 {
                    assert(rest[j - 1].0 != key);
                }
            }
        }
    }
}

/// The keys are in order where each comes before all behind it, and an insertion
/// keeps them so. It adds an entry only where the key is new.
pub proof fn keys_stay_in_order(entries: Entries, key: Seq<char>, value: JsonView)
    ensures
        ascending(entries) <==> forall|i: int, j: int|
            0 <= i < j < entries.len() ==> precedes(
                #[trigger] entries[i].0,
                #[trigger] entries[j].0,
            ),
        ascending(entries) ==> ascending(inserted(entries, key, value)),
        ascending(entries) ==> inserted(entries, key, value).len() == entries.len() + if lookup(
            entries,
            key,
        ) is Some {
            0int
        } else {
            1int
        },
{
    if ascending(entries) {
        lemma_inserted_ascending(entries, key, value);
        lemma_inserted_length(entries, key, value);
    }
}

proof fn lemma_inserted_length(entries: Entries, key: Seq<char>, value: JsonView)
    requires
        ascending(entries),
    ensures
        inserted(entries, key, value).len() == entries.len() + if lookup(entries, key) is Some {
            0int
        } else {
            1int
        },
    decreases entries.len(),
{
    if entries.len() > 0 && entries[0].0 != key {
        lemma_rest(entries);
        if precedes(key, entries[0].0) {
            assert forall|i: int| 0 <= i < entries.len() implies precedes(
                key,
                #[trigger] entries[i].0,
            ) by {
                if i > 0 {
                    lemma_precedes_transitive(key, entries[0].0, entries[i].0);
                }
            }
            lookup_before_all(entries, key);
        } else {
            lemma_inserted_length(entries.skip(1), key, value);
        }
    }
}

} // verus!
