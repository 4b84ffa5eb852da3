//! The mathematical model of an ACON value.
//!
//! A `Value` is what an `Acon` tree stands for: arrays are sequences,
//! strings are texts, and a table is the sequence of its entries in the
//! order in which it is walked, which is the ascending order of its keys.
//! Every contract of the crate is stated over this model.

use crate::text::{
    lemma_order_flip, lemma_order_same, lemma_precedes_transitive, precedes, segments_of, Text,
};
use vstd::prelude::*;

verus! {

/// What an ACON tree stands for.
#[verifier::ext_equal]
pub enum Value {
    /// An ordered sequence of values.
    Array(Seq<Value>),
    /// A text scalar.
    String(Text),
    /// The entries of a table, in the order in which the table is walked.
    Table(Seq<Entry>),
}

/// One entry of a table.
#[verifier::ext_equal]
pub struct Entry {
    /// The key under which the value is found.
    pub key: Text,
    /// The value.
    pub value: Value,
}

/// Whether the keys stand in strictly ascending order. This is the
/// invariant of a table: it makes every key unique and fixes the order in
/// which the entries are walked.
pub open spec fn ascending(entries: Seq<Entry>) -> bool {
    forall|i: int, j: int|
        #![trigger entries[i], entries[j]]
        0 <= i < j < entries.len() ==> precedes(entries[i].key, entries[j].key)
}

/// Whether some entry has the key.
pub open spec fn has_key(entries: Seq<Entry>, key: Text) -> bool {
    exists|i: int| 0 <= i < entries.len() && (#[trigger] entries[i]).key == key
}

/// The value found under the key, if any.
pub open spec fn lookup(entries: Seq<Entry>, key: Text) -> Option<Value> {
    if has_key(entries, key) {
        let i = choose|i: int| 0 <= i < entries.len() && (#[trigger] entries[i]).key == key;
        Some(entries[i].value)
    } else {
        None
    }
}

/// The number of leading entries whose key comes before `key`. In an
/// ascending sequence this is where `key` is, or where it belongs.
pub open spec fn rank(entries: Seq<Entry>, key: Text) -> int
    decreases entries.len(),
{
    if entries.len() == 0 || !precedes(entries[0].key, key) {
        0
    } else {
        1 + rank(entries.drop_first(), key)
    }
}

/// The entries after `value` has been stored under `key`: in place of the
/// entry that had the key, or else at the place that keeps the keys in
/// ascending order.
pub open spec fn put(entries: Seq<Entry>, key: Text, value: Value) -> Seq<Entry> {
    let n = rank(entries, key);
    if 0 <= n < entries.len() && entries[n].key == key {
        entries.update(n, Entry { key, value })
    } else {
        entries.insert(n, Entry { key, value })
    }
}

/// Whether `c` is one of the ten ASCII digits.
pub open spec fn is_digit(c: char) -> bool {
    '0' <= c <= '9'
}

/// The number that a digit stands for.
pub open spec fn digit_value(c: char) -> nat {
    if c == '1' {
        1
    } else if c == '2' {
        2
    } else if c == '3' {
        3
    } else if c == '4' {
        4
    } else if c == '5' {
        5
    } else if c == '6' {
        6
    } else if c == '7' {
        7
    } else if c == '8' {
        8
    } else if c == '9' {
        9
    } else {
        0
    }
}

/// The number that a run of digits stands for in base ten.
pub open spec fn number(digits: Text) -> nat
    decreases digits.len(),
{
    if digits.len() == 0 {
        0
    } else {
        number(digits.drop_last()) * 10 + digit_value(digits.last())
    }
}

/// The digits of a key that is read as an index: the key itself, without
/// the one plus sign that may lead it.
pub open spec fn index_digits(key: Text) -> Text {
    if key.len() > 0 && key[0] == '+' {
        key.drop_first()
    } else {
        key
    }
}

/// The index that a key denotes in an array: the key is one or more ASCII
/// digits, which one plus sign may precede, read in base ten. Any other key
/// denotes no index.
pub open spec fn index_of(key: Text) -> Option<nat> {
    let digits = index_digits(key);
    if digits.len() > 0 && forall|i: int| 0 <= i < digits.len() ==> is_digit(#[trigger] digits[i]) {
        Some(number(digits))
    } else {
        None
    }
}

impl Value {
    /// Whether every table of the tree, at any depth, has its keys in
    /// strictly ascending order.
    pub open spec fn wf(self) -> bool
        decreases self,
    {
        match self {
            Value::Array(items) => forall|i: int|
                0 <= i < items.len() ==> (#[trigger] items[i]).wf(),
            Value::String(_) => true,
            Value::Table(entries) => ascending(entries) && forall|i: int|
                0 <= i < entries.len() ==> (#[trigger] entries[i]).value.wf(),
        }
    }

    /// The child found under `key`: in a table the value of the entry with
    /// that key, in an array the element at the index that the key denotes.
    /// A string has no children.
    pub open spec fn get(self, key: Text) -> Option<Value> {
        match self {
            Value::Array(items) => match index_of(key) {
                Some(i) => if i < items.len() {
                    Some(items[i as int])
                } else {
                    None
                },
                None => None,
            },
            Value::String(_) => None,
            Value::Table(entries) => lookup(entries, key),
        }
    }

    /// The value reached by taking the keys one after the other.
    pub open spec fn descend(self, keys: Seq<Text>) -> Option<Value>
        decreases keys.len(),
    {
        if keys.len() == 0 {
            Some(self)
        } else {
            match self.get(keys[0]) {
                Some(child) => child.descend(keys.drop_first()),
                None => None,
            }
        }
    }

    /// The value reached by a dotted path.
    pub open spec fn path(self, path: Text) -> Option<Value> {
        self.descend(segments_of(path))
    }

    /// The tree with `new` in place of the child under `key`. Where there is
    /// no such child the tree is unchanged.
    pub open spec fn set(self, key: Text, new: Value) -> Value {
        match self {
            Value::Array(items) => match index_of(key) {
                Some(i) => if i < items.len() {
                    Value::Array(items.update(i as int, new))
                } else {
                    self
                },
                None => self,
            },
            Value::String(_) => self,
            Value::Table(entries) => if has_key(entries, key) {
                Value::Table(put(entries, key, new))
            } else {
                self
            },
        }
    }

    /// The tree with `new` in place of the value that the keys reach. Where
    /// they reach nothing the tree is unchanged.
    pub open spec fn graft(self, keys: Seq<Text>, new: Value) -> Value
        decreases keys.len(),
    {
        if keys.len() == 0 {
            new
        } else {
            match self.get(keys[0]) {
                Some(child) => self.set(keys[0], child.graft(keys.drop_first(), new)),
                None => self,
            }
        }
    }
}

/// In an ascending sequence a key is found at one place only.
pub proof fn lemma_key_unique(entries: Seq<Entry>, i: int, j: int)
    requires
        ascending(entries),
        0 <= i < entries.len(),
        0 <= j < entries.len(),
        entries[i].key == entries[j].key,
    ensures
        i == j,
{
    lemma_order_same(entries[i].key, entries[j].key);
}

/// In an ascending sequence, what stands at a key's place is what `lookup`
/// finds.
pub proof fn lemma_lookup_at(entries: Seq<Entry>, i: int)
    requires
        ascending(entries),
        0 <= i < entries.len(),
    ensures
        has_key(entries, entries[i].key),
        lookup(entries, entries[i].key) == Some(entries[i].value),
{
    let key = entries[i].key;
    let j = choose|j: int| 0 <= j < entries.len() && (#[trigger] entries[j]).key == key;
    lemma_key_unique(entries, i, j);
}

/// A place that has only smaller keys before it, and no smaller key at it,
/// is the `rank` of the key.
pub proof fn lemma_rank_is(entries: Seq<Entry>, key: Text, n: int)
    requires
        0 <= n <= entries.len(),
        forall|i: int| 0 <= i < n ==> precedes((#[trigger] entries[i]).key, key),
        n < entries.len() ==> !precedes(entries[n].key, key),
    ensures
        rank(entries, key) == n,
    decreases entries.len(),
{
    if entries.len() == 0 {
    } else if n == 0 {
    } else {
        assert(precedes(entries[0].key, key));
        let rest = entries.drop_first();
        assert forall|i: int| 0 <= i < n - 1 implies precedes((#[trigger] rest[i]).key, key) by {
            assert(rest[i] == entries[i + 1]);
        }
        lemma_rank_is(rest, key, n - 1);
    }
}

/// What `rank` says of an ascending sequence: the keys before it are
/// smaller, the keys from it on are not, and the key itself can stand
/// nowhere but at it.
pub proof fn lemma_rank(entries: Seq<Entry>, key: Text)
    requires
        ascending(entries),
    ensures
        0 <= rank(entries, key) <= entries.len(),
        forall|i: int| 0 <= i < rank(entries, key) ==> precedes((#[trigger] entries[i]).key, key),
        forall|i: int|
            rank(entries, key) <= i < entries.len() ==> !precedes((#[trigger] entries[i]).key, key),
        has_key(entries, key) <==> rank(entries, key) < entries.len() && entries[rank(
            entries,
            key,
        )].key == key,
    decreases entries.len(),
{
    let n = rank(entries, key);
    if entries.len() == 0 {
    } else if !precedes(entries[0].key, key) {
        assert forall|i: int| 0 <= i < entries.len() implies !precedes(
            (#[trigger] entries[i]).key,
            key,
        ) by {
            if i > 0 && precedes(entries[i].key, key) {
                assert(precedes(entries[0].key, entries[i].key));
                lemma_precedes_transitive(entries[0].key, entries[i].key, key);
            }
        }
        if has_key(entries, key) {
            let j = choose|j: int| 0 <= j < entries.len() && (#[trigger] entries[j]).key == key;
            if j > 0 {
                assert(precedes(entries[0].key, entries[j].key));
            }
        }
    } else {
        let rest = entries.drop_first();
        assert(ascending(rest)) by {
            assert forall|i: int, j: int|
                #![trigger rest[i], rest[j]]
                0 <= i < j < rest.len() implies precedes(rest[i].key, rest[j].key) by {
                assert(rest[i] == entries[i + 1] && rest[j] == entries[j + 1]);
            }
        }
        lemma_rank(rest, key);
        assert forall|i: int| 0 <= i < n implies precedes((#[trigger] entries[i]).key, key) by {
            if i > 0 {
                assert(entries[i] == rest[i - 1]);
            }
        }
        assert forall|i: int| n <= i < entries.len() implies !precedes(
            (#[trigger] entries[i]).key,
            key,
        ) by {
            assert(entries[i] == rest[i - 1]);
        }
        if has_key(entries, key) {
            let j = choose|j: int| 0 <= j < entries.len() && (#[trigger] entries[j]).key == key;
            lemma_order_same(entries[0].key, key);
            assert(j > 0);
            assert(rest[j - 1] == entries[j]);
            assert(has_key(rest, key));
        }
        if n < entries.len() && entries[n].key == key {
            assert(entries[n].key == key);
        }
    }
}

/// Storing a value under a key that a table has replaces the entry at the
/// key's place and moves nothing.
pub proof fn lemma_put_present(entries: Seq<Entry>, key: Text, value: Value)
    requires
        ascending(entries),
        has_key(entries, key),
    ensures
        0 <= rank(entries, key) < entries.len(),
        entries[rank(entries, key)].key == key,
        put(entries, key, value) == entries.update(rank(entries, key), Entry { key, value }),
        ascending(put(entries, key, value)),
{
    lemma_rank(entries, key);
    let n = rank(entries, key);
    let after = put(entries, key, value);
    assert forall|i: int, j: int|
        #![trigger after[i], after[j]]
        0 <= i < j < after.len() implies precedes(after[i].key, after[j].key) by {
        assert(precedes(entries[i].key, entries[j].key));
    }
}

/// Storing a value under a key that a table lacks inserts the entry at the
/// key's rank and moves the entries behind it by one place.
pub proof fn lemma_put_absent(entries: Seq<Entry>, key: Text, value: Value)
    requires
        ascending(entries),
        !has_key(entries, key),
    ensures
        0 <= rank(entries, key) <= entries.len(),
        put(entries, key, value) == entries.insert(rank(entries, key), Entry { key, value }),
        ascending(put(entries, key, value)),
{
    lemma_rank(entries, key);
    let n = rank(entries, key);
    let after = put(entries, key, value);
    assert forall|i: int, j: int|
        #![trigger after[i], after[j]]
        0 <= i < j < after.len() implies precedes(after[i].key, after[j].key) by {
        if i == n {
            assert(after[j] == entries[j - 1]);
            assert(!precedes(entries[j - 1].key, key));
            assert(entries[j - 1].key != key);
            lemma_order_same(entries[j - 1].key, key);
            lemma_order_flip(entries[j - 1].key, key);
        } else if j == n {
            assert(after[i] == entries[i]);
        } else if j < n {
            assert(after[i] == entries[i] && after[j] == entries[j]);
            assert(precedes(entries[i].key, entries[j].key));
        } else if i < n {
            assert(after[i] == entries[i] && after[j] == entries[j - 1]);
            assert(precedes(entries[i].key, entries[j - 1].key));
        } else {
            assert(after[i] == entries[i - 1] && after[j] == entries[j - 1]);
            assert(precedes(entries[i - 1].key, entries[j - 1].key));
        }
    }
}

/// Storing a value keeps an ascending sequence ascending and makes the
/// value the one found under its key.
pub proof fn lemma_put(entries: Seq<Entry>, key: Text, value: Value)
    requires
        ascending(entries),
    ensures
        ascending(put(entries, key, value)),
        has_key(put(entries, key, value), key),
        lookup(put(entries, key, value), key) == Some(value),
        has_key(entries, key) ==> put(entries, key, value).len() == entries.len(),
        !has_key(entries, key) ==> put(entries, key, value).len() == entries.len() + 1,
{
    let n = rank(entries, key);
    let after = put(entries, key, value);
    if has_key(entries, key) {
        lemma_put_present(entries, key, value);
    } else {
        lemma_put_absent(entries, key, value);
    }
    assert(after[n] == Entry { key, value });
    lemma_lookup_at(after, n);
}

/// Storing a value leaves what is found under every other key as it was.
pub proof fn lemma_put_other(entries: Seq<Entry>, key: Text, value: Value, other: Text)
    requires
        ascending(entries),
        other != key,
    ensures
        has_key(put(entries, key, value), other) == has_key(entries, other),
        lookup(put(entries, key, value), other) == lookup(entries, other),
{
    let n = rank(entries, key);
    let after = put(entries, key, value);
    let present = has_key(entries, key);
    if present {
        lemma_put_present(entries, key, value);
    } else {
        lemma_put_absent(entries, key, value);
    }
    if has_key(entries, other) {
        let i = choose|i: int| 0 <= i < entries.len() && (#[trigger] entries[i]).key == other;
        lemma_lookup_at(entries, i);
        let k = if present || i < n {
            i
        } else {
            i + 1
        };
        assert(after[k] == entries[i]);
        lemma_lookup_at(after, k);
    } else {
        assert(!has_key(after, other)) by {
            if has_key(after, other) {
                let k = choose|k: int| 0 <= k < after.len() && (#[trigger] after[k]).key == other;
                let i = if present || k < n {
                    k
                } else {
                    k - 1
                };
                assert(after[k] == entries[i]);
                assert(has_key(entries, other));
            }
        }
    }
}

/// Putting a child back where it was found changes nothing.
pub proof fn lemma_set_same(v: Value, key: Text)
    requires
        v is Table ==> ascending(v->Table_0),
        v.get(key) is Some,
    ensures
        v.set(key, v.get(key)->0) == v,
{
    match v {
        Value::Array(items) => {
            let i = index_of(key)->0 as int;
            assert(items.update(i, items[i]) =~= items);
        },
        Value::String(_) => {},
        Value::Table(entries) => {
            lemma_rank(entries, key);
            let n = rank(entries, key);
            lemma_lookup_at(entries, n);
            assert(entries.update(n, entries[n]) =~= entries);
        },
    }
}

/// A key that comes after every key of an ascending sequence is stored at
/// its end.
pub proof fn lemma_put_last(entries: Seq<Entry>, key: Text, value: Value)
    requires
        forall|i: int| 0 <= i < entries.len() ==> precedes((#[trigger] entries[i]).key, key),
    ensures
        !has_key(entries, key),
        put(entries, key, value) == entries.push(Entry { key, value }),
{
    lemma_rank_is(entries, key, entries.len() as int);
    if has_key(entries, key) {
        let j = choose|j: int| 0 <= j < entries.len() && (#[trigger] entries[j]).key == key;
        lemma_order_same(entries[j].key, key);
    }
    assert(entries.insert(entries.len() as int, Entry { key, value }) =~= entries.push(
        Entry { key, value },
    ));
}

} // verus!
