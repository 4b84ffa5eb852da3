//! The ACON value tree and the ways to walk it.

use crate::model::{
    ascending, digit_value, has_key, index_digits, index_of, is_digit, lemma_lookup_at, lemma_rank,
    lemma_rank_is, lemma_set_same, lookup, number, put, rank, Entry, Value,
};
use crate::text::{
    chars_of, lemma_order_flip, lemma_order_same, lemma_precedes_transitive, order, precedes,
    segments_of, split_segments, Order, Text,
};
use vstd::prelude::*;

verus! {

/// The elements of an array value.
pub type Array = Vec<Acon>;

/// A value of the format: an array, a string or a table.
#[derive(PartialEq, Debug)]
pub enum Acon {
    /// An ordered sequence of values.
    Array(Array),
    /// A text scalar.
    String(String),
    /// A table from keys to values.
    Table(Table),
}

/// A table from keys to values. No key occurs twice, and the entries are
/// kept and walked in the ascending order of their keys.
#[derive(PartialEq, Debug)]
pub struct Table {
    keys: Vec<String>,
    values: Vec<Acon>,
}

impl View for Acon {
    type V = Value;

    open spec fn view(&self) -> Value
        decreases self,
    {
        match self {
            Acon::Array(items) => Value::Array(
                Seq::new(
                    items@.len(),
                    |i: int|
                        if 0 <= i < items@.len() {
                            items@[i].view()
                        } else {
                            arbitrary()
                        },
                ),
            ),
            Acon::String(text) => Value::String(text@),
            Acon::Table(table) => Value::Table(table.view()),
        }
    }
}

impl View for Table {
    type V = Seq<Entry>;

    closed spec fn view(&self) -> Seq<Entry>
        decreases self,
    {
        if self.inv() {
            Seq::new(
                self.keys@.len(),
                |i: int|
                    if 0 <= i < self.keys@.len() && i < self.values@.len() {
                        Entry { key: self.keys@[i]@, value: self.values@[i].view() }
                    } else {
                        arbitrary()
                    },
            )
        } else {
            Seq::empty()
        }
    }
}

/// The values that a sequence of trees stands for.
pub open spec fn views(items: Seq<Acon>) -> Seq<Value> {
    Seq::new(items.len(), |i: int| items[i]@)
}

/// The view of an array is the sequence of the views of its elements.
pub proof fn lemma_array_view(a: Acon)
    requires
        a is Array,
    ensures
        a@ == Value::Array(views(a->Array_0@)),
        a@->Array_0.len() == a->Array_0@.len(),
        forall|i: int| 0 <= i < a->Array_0@.len() ==> #[trigger] a@->Array_0[i] == a->Array_0@[i]@,
{
    reveal_with_fuel(<Acon as View>::view, 2);
    assert(a@->Array_0 =~= views(a->Array_0@));
}

impl Table {
    /// What every table keeps to: a value for every key, and the keys in
    /// strictly ascending order.
    #[verifier::type_invariant]
    closed spec fn inv(&self) -> bool {
        &&& self.keys@.len() == self.values@.len()
        &&& forall|i: int, j: int|
            #![trigger self.keys@[i], self.keys@[j]]
            0 <= i < j < self.keys@.len() ==> precedes(self.keys@[i]@, self.keys@[j]@)
    }

    /// The view of a table is made of its keys and the views of its
    /// values, place by place.
    proof fn lemma_view(&self)
        requires
            self.inv(),
        ensures
            self@.len() == self.keys@.len(),
            forall|i: int|
                0 <= i < self.keys@.len() ==> (#[trigger] self@[i]) == (Entry {
                    key: self.keys@[i]@,
                    value: self.values@[i]@,
                }),
            ascending(self@),
    {
        assert forall|i: int, j: int|
            #![trigger self@[i], self@[j]]
            0 <= i < j < self@.len() implies precedes(self@[i].key, self@[j].key) by {
            assert(precedes(self.keys@[i]@, self.keys@[j]@));
        }
    }

    /// What stands at a place of the view is the view of the value kept
    /// there.
    proof fn lemma_value_at(&self, i: int)
        requires
            0 <= i < self@.len(),
        ensures
            i < self.values@.len(),
            self@[i].value == self.values@[i]@,
    {
    }

    /// The entries of a table stand in the ascending order of their keys.
    pub proof fn lemma_ascending(&self)
        ensures
            ascending(self@),
    {
        if self.inv() {
            self.lemma_view();
        }
    }

    /// A table without entries.
    pub fn new() -> (r: Table)
        ensures
            r@ == Seq::<Entry>::empty(),
    {
        let r = Table { keys: Vec::new(), values: Vec::new() };
        assert(r@ =~= Seq::<Entry>::empty());
        r
    }

    /// The number of entries.
    pub fn len(&self) -> (r: usize)
        ensures
            r == self@.len(),
    {
        proof {
            use_type_invariant(self);
        }
        self.keys.len()
    }

    /// Whether the table has no entries.
    pub fn is_empty(&self) -> (r: bool)
        ensures
            r == (self@.len() == 0),
    {
        proof {
            use_type_invariant(self);
        }
        self.keys.len() == 0
    }

    /// The key of the entry at position `i` in the order of the keys.
    pub fn key(&self, i: usize) -> (r: &String)
        requires
            i < self@.len(),
        ensures
            r@ == self@[i as int].key,
    {
        proof {
            use_type_invariant(self);
            self.lemma_view();
        }
        &self.keys[i]
    }

    /// The value of the entry at position `i` in the order of the keys.
    pub fn value(&self, i: usize) -> (r: &Acon)
        requires
            i < self@.len(),
        ensures
            r@ == self@[i as int].value,
            decreases_to!(self => r),
    {
        proof {
            use_type_invariant(self);
            self.lemma_view();
        }
        &self.values[i]
    }

    /// Where `key` stands among the keys: `Ok` with its position where the
    /// table has it, `Err` with the position at which it belongs where not.
    fn find(&self, key: &str) -> (r: Result<usize, usize>)
        ensures
            match r {
                Ok(i) => i < self@.len() && self@[i as int].key == key@ && i == rank(self@, key@),
                Err(i) => i <= self@.len() && !has_key(self@, key@) && i == rank(self@, key@),
            },
    {
        proof {
            use_type_invariant(self);
            self.lemma_view();
        }
        let mut low: usize = 0;
        let mut high: usize = self.keys.len();
        while low < high
            invariant
                self.inv(),
                low <= high <= self.keys@.len(),
                forall|i: int| 0 <= i < low ==> precedes(#[trigger] self.keys@[i]@, key@),
                forall|i: int|
                    high <= i < self.keys@.len() ==> precedes(key@, #[trigger] self.keys@[i]@),
            decreases high - low,
        {
            let middle = low + (high - low) / 2;
            let probe = &self.keys[middle];
            match order(probe.as_str(), key) {
                Order::Before => {
                    assert forall|i: int| 0 <= i < middle + 1 implies precedes(
                        #[trigger] self.keys@[i]@,
                        key@,
                    ) by {
                        if i < middle {
                            assert(precedes(self.keys@[i]@, self.keys@[middle as int]@));
                            lemma_precedes_transitive(self.keys@[i]@, probe@, key@);
                        }
                    }
                    low = middle + 1;
                },
                Order::Same => {
                    proof {
                        self.lemma_view();
                        lemma_order_same(probe@, key@);
                        assert forall|i: int| 0 <= i < middle implies precedes(
                            (#[trigger] self@[i]).key,
                            key@,
                        ) by {
                            assert(precedes(self.keys@[i]@, self.keys@[middle as int]@));
                        }
                        lemma_rank_is(self@, key@, middle as int);
                    }
                    return Ok(middle);
                },
                Order::After => {
                    proof {
                        lemma_order_flip(probe@, key@);
                    }
                    assert forall|i: int| middle <= i < self.keys@.len() implies precedes(
                        key@,
                        #[trigger] self.keys@[i]@,
                    ) by {
                        if middle < i {
                            assert(precedes(self.keys@[middle as int]@, self.keys@[i]@));
                            lemma_precedes_transitive(key@, probe@, self.keys@[i]@);
                        }
                    }
                    high = middle;
                },
            }
        }
        proof {
            self.lemma_view();
            assert forall|i: int| 0 <= i < low implies precedes((#[trigger] self@[i]).key, key@) by {
                assert(precedes(self.keys@[i]@, key@));
            }
            if low < self@.len() {
                lemma_order_flip(key@, self@[low as int].key);
                assert(precedes(key@, self.keys@[low as int]@));
            }
            lemma_rank_is(self@, key@, low as int);
            if has_key(self@, key@) {
                let j = choose|j: int| 0 <= j < self@.len() && (#[trigger] self@[j]).key == key@;
                lemma_order_same(self@[j].key, key@);
                if j < low {
                    assert(precedes(self.keys@[j]@, key@));
                } else {
                    assert(precedes(key@, self.keys@[j]@));
                    lemma_order_flip(key@, self@[j].key);
                }
            }
        }
        Err(low)
    }

    /// Whether the table has an entry with the key.
    pub fn contains_key(&self, key: &str) -> (r: bool)
        ensures
            r == has_key(self@, key@),
    {
        match self.find(key) {
            Ok(i) => {
                assert(self@[i as int].key == key@);
                true
            },
            Err(_) => false,
        }
    }

    /// The value stored under the key, if there is one.
    pub fn get(&self, key: &str) -> (r: Option<&Acon>)
        ensures
            match r {
                Some(value) => lookup(self@, key@) == Some(value@),
                None => lookup(self@, key@) is None,
            },
    {
        proof {
            use_type_invariant(self);
            self.lemma_view();
        }
        match self.find(key) {
            Ok(i) => {
                proof {
                    lemma_lookup_at(self@, i as int);
                }
                Some(&self.values[i])
            },
            Err(_) => None,
        }
    }

    /// The value stored under the key, if there is one, for writing. The
    /// table then holds whatever is written in its place.
    pub fn get_mut(&mut self, key: &str) -> (r: Option<&mut Acon>)
        ensures
            match r {
                Some(value) => lookup(old(self)@, key@) == Some(value@) && final(self)@ == put(
                    old(self)@,
                    key@,
                    final(value)@,
                ),
                None => lookup(old(self)@, key@) is None && *final(self) == *old(self),
            },
    {
        proof {
            use_type_invariant(&*self);
            self.lemma_view();
        }
        match self.find(key) {
            Ok(i) => {
                proof {
                    lemma_lookup_at(self@, i as int);
                }
                let slot = &mut self.values[i];
                Some(slot)
            },
            Err(_) => None,
        }
    }

    /// Stores `value` under `key` and returns the value that the key had
    /// before, if it had one.
    pub fn insert(&mut self, key: String, value: Acon) -> (r: Option<Acon>)
        ensures
            final(self)@ == put(old(self)@, key@, value@),
            match r {
                Some(before) => lookup(old(self)@, key@) == Some(before@),
                None => lookup(old(self)@, key@) is None,
            },
    {
        proof {
            use_type_invariant(&*self);
            self.lemma_view();
        }
        match self.find(key.as_str()) {
            Ok(i) => {
                proof {
                    lemma_lookup_at(self@, i as int);
                }
                let mut value = value;
                std::mem::swap(&mut self.values[i], &mut value);
                proof {
                    use_type_invariant(&*self);
                    self.lemma_view();
                    assert(self@ =~= put(old(self)@, key@, self.values@[i as int]@));
                }
                Some(value)
            },
            Err(i) => {
                let ghost before = self@;
                let mut whole = Table::new();
                std::mem::swap(self, &mut whole);
                let Table { keys, values } = whole;
                let mut keys = keys;
                let mut values = values;
                let ghost old_keys = keys@;
                keys.insert(i, key);
                values.insert(i, value);
                proof {
                    lemma_rank(before, key@);
                    assert forall|a: int, b: int|
                        #![trigger keys@[a], keys@[b]]
                        0 <= a < b < keys@.len() implies precedes(keys@[a]@, keys@[b]@) by {
                        let x = if a < i {
                            a
                        } else {
                            a - 1
                        };
                        let y = if b < i {
                            b
                        } else {
                            b - 1
                        };
                        if a == i {
                            assert(keys@[b] == old_keys[b - 1]);
                            assert(before[b - 1].key == old_keys[b - 1]@);
                            lemma_order_same(before[b - 1].key, key@);
                            lemma_order_flip(before[b - 1].key, key@);
                        } else if b == i {
                            assert(keys@[a] == old_keys[a]);
                            assert(before[a].key == old_keys[a]@);
                        } else {
                            assert(keys@[a] == old_keys[x] && keys@[b] == old_keys[y]);
                            assert(precedes(old_keys[x]@, old_keys[y]@));
                        }
                    }
                }
                *self = Table { keys, values };
                proof {
                    use_type_invariant(&*self);
                    self.lemma_view();
                    assert(self@ =~= put(before, key@, value@));
                }
                None
            },
        }
    }
}

impl Clone for Table {
    fn clone(&self) -> (r: Table)
        ensures
            r@ == self@,
        decreases self,
    {
        proof {
            use_type_invariant(self);
            self.lemma_view();
        }
        let mut keys: Vec<String> = Vec::new();
        let mut values: Vec<Acon> = Vec::new();
        let mut i: usize = 0;
        while i < self.keys.len()
            invariant
                self.inv(),
                i <= self.keys@.len(),
                keys@.len() == i,
                values@.len() == i,
                forall|j: int| 0 <= j < i ==> (#[trigger] keys@[j])@ == self.keys@[j]@,
                forall|j: int| 0 <= j < i ==> (#[trigger] values@[j])@ == self.values@[j]@,
            decreases self.keys@.len() - i,
        {
            keys.push(self.keys[i].clone());
            let item = &self.values[i];
            values.push(item.clone());
            i += 1;
        }
        proof {
            assert forall|a: int, b: int|
                #![trigger keys@[a], keys@[b]]
                0 <= a < b < keys@.len() implies precedes(keys@[a]@, keys@[b]@) by {
                assert(precedes(self.keys@[a]@, self.keys@[b]@));
            }
        }
        let r = Table { keys, values };
        proof {
            r.lemma_view();
            assert(r@ =~= self@);
        }
        r
    }
}

impl Clone for Acon {
    fn clone(&self) -> (r: Acon)
        ensures
            r@ == self@,
        decreases self,
    {
        match self {
            Acon::Array(items) => {
                let mut copy: Vec<Acon> = Vec::new();
                let mut i: usize = 0;
                while i < items.len()
                    invariant
                        *self == Acon::Array(*items),
                        i <= items@.len(),
                        copy@.len() == i,
                        forall|j: int| 0 <= j < i ==> (#[trigger] copy@[j])@ == items@[j]@,
                    decreases items@.len() - i,
                {
                    let item = &items[i];
                    assert(decreases_to!(self => self->Array_0));
                    copy.push(item.clone());
                    i += 1;
                }
                let r = Acon::Array(copy);
                proof {
                    lemma_array_view(r);
                    lemma_array_view(*self);
                    assert(r@->Array_0 =~= self@->Array_0);
                }
                r
            },
            Acon::String(text) => Acon::String(text.clone()),
            Acon::Table(table) => Acon::Table(table.clone()),
        }
    }
}

/// Every table of the tree that an `Acon` stands for has its keys in
/// ascending order.
pub proof fn lemma_wf(a: Acon)
    ensures
        a@.wf(),
    decreases a,
{
    reveal_with_fuel(<Acon as View>::view, 2);
    match a {
        Acon::Array(items) => {
            lemma_array_view(a);
            assert forall|i: int| 0 <= i < a@->Array_0.len() implies (#[trigger] a@->Array_0[i]).wf() by {
                lemma_wf(items@[i]);
            }
        },
        Acon::String(_) => {},
        Acon::Table(table) => {
            table.lemma_ascending();
            assert forall|i: int| 0 <= i < table@.len() implies (#[trigger] table@[i]).value.wf() by {
                table.lemma_value_at(i);
                lemma_wf(table.values@[i]);
            }
        },
    }
}

/// The number that an ASCII digit stands for.
fn digit(c: char) -> (r: u8)
    requires
        is_digit(c),
    ensures
        r == digit_value(c),
        r <= 9,
{
    if c == '1' {
        1
    } else if c == '2' {
        2
    } else if c == '3' {
        3
    } else if c == '4' {
        4
    } else if c == '5' {
        5
    } else if c == '6' {
        6
    } else if c == '7' {
        7
    } else if c == '8' {
        8
    } else if c == '9' {
        9
    } else {
        0
    }
}

/// A run of digits stands for a number no smaller than any of its prefixes
/// does.
proof fn lemma_number_grows(digits: Text, k: int)
    requires
        0 <= k <= digits.len(),
    ensures
        number(digits.take(k)) <= number(digits),
    decreases digits.len() - k,
{
    if k < digits.len() {
        lemma_number_grows(digits, k + 1);
        assert(digits.take(k + 1).drop_last() == digits.take(k));
    } else {
        assert(digits.take(k) == digits);
    }
}

/// The index that `key` denotes, where it is below `len`.
fn index_below(key: &str, len: usize) -> (r: Option<usize>)
    ensures
        match r {
            Some(i) => i < len && index_of(key@) == Some(i as nat),
            None => index_of(key@) matches Some(i) ==> i >= len,
        },
{
    let chars = chars_of(key);
    let start: usize = if chars.len() > 0 && chars[0] == '+' {
        1
    } else {
        0
    };
    let ghost digits = index_digits(key@);
    assert(digits == key@.skip(start as int));
    if start == chars.len() {
        return None;
    }
    let mut value: usize = 0;
    let mut i: usize = start;
    while i < chars.len()
        invariant
            chars@ == key@,
            digits == index_digits(key@),
            digits == key@.skip(start as int),
            start <= i <= chars@.len(),
            start < chars@.len(),
            forall|j: int| 0 <= j < i - start ==> is_digit(#[trigger] digits[j]),
            value == number(digits.take(i - start)),
            i > start ==> value < len,
        decreases chars@.len() - i,
    {
        let c = chars[i];
        assert(digits[i - start] == c);
        if !('0' <= c && c <= '9') {
            assert(!is_digit(digits[i - start]));
            return None;
        }
        proof {
            let longer = digits.take(i - start + 1);
            assert(longer.drop_last() == digits.take(i - start));
            assert(longer.last() == c);
            assert(number(longer) == value * 10 + digit_value(c));
            lemma_number_grows(digits, i - start + 1);
            lemma_number_grows(digits, i - start);
        }
        if value >= len {
            return None;
        }
        let next: u128 = (value as u128) * 10 + (digit(c) as u128);
        if next >= len as u128 {
            return None;
        }
        value = next as usize;
        i += 1;
    }
    assert(digits.take(i - start) == digits);
    Some(value)
}

impl Acon {
    /// The elements of an array value.
    pub fn array(&self) -> (r: &Array)
        requires
            self is Array,
        ensures
            *r == self->Array_0,
    {
        match self {
            Acon::Array(items) => items,
            _ => vstd::pervasive::unreached(),
        }
    }

    /// The text of a string value.
    pub fn string(&self) -> (r: &String)
        requires
            self is String,
        ensures
            *r == self->String_0,
    {
        match self {
            Acon::String(text) => text,
            _ => vstd::pervasive::unreached(),
        }
    }

    /// The table of a table value.
    pub fn table(&self) -> (r: &Table)
        requires
            self is Table,
        ensures
            *r == self->Table_0,
    {
        match self {
            Acon::Table(table) => table,
            _ => vstd::pervasive::unreached(),
        }
    }

    /// The child found under `key`: in a table the value stored under that
    /// key, in an array the element at the index that the key denotes. There
    /// is none where the key is not in the table, where it denotes no index
    /// or one beyond the end of the array, and in a string.
    pub fn get(&self, key: &str) -> (r: Option<&Acon>)
        ensures
            match r {
                Some(child) => self@.get(key@) == Some(child@),
                None => self@.get(key@) is None,
            },
    {
        match self {
            Acon::Array(items) => {
                proof {
                    lemma_array_view(*self);
                }
                match index_below(key, items.len()) {
                    Some(i) => Some(&items[i]),
                    None => None,
                }
            },
            Acon::String(_) => None,
            Acon::Table(table) => table.get(key),
        }
    }

    /// The child found under `key`, as `get` finds it, for writing. The tree
    /// then holds whatever is written in the child's place.
    pub fn get_mut(&mut self, key: &str) -> (r: Option<&mut Acon>)
        ensures
            match r {
                Some(child) => old(self)@.get(key@) == Some(child@) && final(self)@ == old(self)@.set(key@, final(child)@),
                None => old(self)@.get(key@) is None && *final(self) == *old(self),
            },
    {
        match self {
            Acon::Array(items) => {
                proof {
                    lemma_array_view(Acon::Array(*items));
                }
                match index_below(key, items.len()) {
                    Some(i) => {
                        proof {
                            let before = Acon::Array(*items);
                            assert forall|after: Acon|
                                after is Array && after->Array_0@ == items@.update(
                                    i as int,
                                    after->Array_0@[i as int],
                                ) implies #[trigger] after@ == before@.set(
                                key@,
                                after->Array_0@[i as int]@,
                            ) by {
                                lemma_array_view(after);
                                assert(after@->Array_0 =~= before@->Array_0.update(
                                    i as int,
                                    after->Array_0@[i as int]@,
                                ));
                            }
                        }
                        Some(&mut items[i])
                    },
                    None => None,
                }
            },
            Acon::String(_) => None,
            Acon::Table(table) => {
                proof {
                    table.lemma_ascending();
                }
                table.get_mut(key)
            },
        }
    }

    /// The value reached by a dotted path: the path is cut at its full stops
    /// and `get` is taken with each piece in turn. There is none as soon as
    /// one `get` finds nothing.
    pub fn path(&self, path: &str) -> (r: Option<&Acon>)
        ensures
            match r {
                Some(found) => self@.path(path@) == Some(found@),
                None => self@.path(path@) is None,
            },
    {
        let chars = chars_of(path);
        let segments = split_segments(chars.as_slice());
        let mut current = self;
        let mut i: usize = 0;
        assert(segments.deep_view().skip(0) == segments.deep_view());
        while i < segments.len()
            invariant
                i <= segments.len(),
                segments.deep_view() == segments_of(path@),
                self@.path(path@) == current@.descend(segments.deep_view().skip(i as int)),
            decreases segments.len() - i,
        {
            let ghost rest = segments.deep_view().skip(i as int);
            assert(rest[0] == segments[i as int]@);
            assert(rest.drop_first() == segments.deep_view().skip(i + 1));
            match current.get(segments[i].as_str()) {
                Some(child) => {
                    current = child;
                },
                None => {
                    return None;
                },
            }
            i += 1;
        }
        Some(current)
    }

    /// The value reached by a dotted path, as `path` finds it, for writing.
    /// The tree then holds whatever is written in its place.
    pub fn path_mut(&mut self, path: &str) -> (r: Option<&mut Acon>)
        ensures
            match r {
                Some(found) => old(self)@.path(path@) == Some(found@) && final(self)@ == old(self)@.graft(segments_of(path@), final(found)@),
                None => old(self)@.path(path@) is None && final(self)@ == old(self)@,
            },
    {
        let chars = chars_of(path);
        let segments = split_segments(chars.as_slice());
        assert(segments.deep_view().skip(0) == segments.deep_view());
        self.descend_mut(&segments, 0)
    }

    /// The value reached by taking the keys `keys[from..]` one after the
    /// other, for writing.
    fn descend_mut<'a>(&'a mut self, keys: &Vec<String>, from: usize) -> (r: Option<&'a mut Acon>)
        requires
            from <= keys.len(),
        ensures
            match r {
                Some(found) => old(self)@.descend(keys.deep_view().skip(from as int)) == Some(
                    found@,
                ) && final(self)@ == old(self)@.graft(
                    keys.deep_view().skip(from as int),
                    final(found)@,
                ),
                None => old(self)@.descend(keys.deep_view().skip(from as int)) is None && final(self)@ == old(self)@,
            },
        decreases keys.len() - from,
    {
        if from == keys.len() {
            Some(self)
        } else {
            let ghost rest = keys.deep_view().skip(from as int);
            assert(rest[0] == keys[from as int]@);
            assert(rest.drop_first() == keys.deep_view().skip(from + 1));
            proof {
                lemma_wf(*self);
                if self@.get(rest[0]) is Some {
                    lemma_set_same(self@, rest[0]);
                }
            }
            match self.get_mut(keys[from].as_str()) {
                Some(child) => child.descend_mut(keys, from + 1),
                None => None,
            }
        }
    }
}

} // verus!
