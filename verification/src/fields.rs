//! Ordered text fields with distinct keys.

use vstd::prelude::*;

use crate::text::{same_text, text_of};

verus! {

broadcast use vstd::string::group_string_axioms;

/// A key and its value.
pub type Field = (Seq<char>, Seq<char>);

/// Whether one of the fields has the key `key`.
pub open spec fn has_key(fields: Seq<Field>, key: Seq<char>) -> bool {
    exists|i: int| 0 <= i < fields.len() && (#[trigger] fields[i]).0 == key
}

/// Whether no key occurs twice.
pub open spec fn distinct_keys(fields: Seq<Field>) -> bool {
    forall|i: int, j: int|
        0 <= i < j < fields.len() ==> (#[trigger] fields[i]).0 != (#[trigger] fields[j]).0
}

/// The value of the last field with the key `key`.
pub open spec fn last_value(fields: Seq<Field>, key: Seq<char>) -> Option<Seq<char>>
    decreases fields.len(),
{
    if fields.len() == 0 {
        None
    } else if fields.last().0 == key {
        Some(fields.last().1)
    } else {
        last_value(fields.drop_last(), key)
    }
}

/// The fields with `value` in place of every value of `key`.
pub open spec fn replaced(fields: Seq<Field>, key: Seq<char>, value: Seq<char>) -> Seq<Field> {
    fields.map_values(
        |f: Field|
            if f.0 == key {
                (key, value)
            } else {
                f
            },
    )
}

/// The fields after `key` is set to `value`: in its place if it is there, else at the end.
pub open spec fn with_field(fields: Seq<Field>, key: Seq<char>, value: Seq<char>) -> Seq<Field> {
    if has_key(fields, key) {
        replaced(fields, key, value)
    } else {
        fields.push((key, value))
    }
}

/// The fields whose key is not `key`, in order.
pub open spec fn without_field(fields: Seq<Field>, key: Seq<char>) -> Seq<Field> {
    fields.filter(|f: Field| f.0 != key)
}

/// A map from text to text that keeps its keys in the order of their insertion.
#[derive(Debug)]
pub struct FieldMap {
    fields: Vec<(String, String)>,
}

/// The view of one stored field.
pub closed spec fn field_view(f: (String, String)) -> Field {
    (f.0@, f.1@)
}

impl View for FieldMap {
    type V = Seq<Field>;

    closed spec fn view(&self) -> Seq<Field> {
        self.fields@.map_values(|f: (String, String)| field_view(f))
    }
}

/// The index of the first field with the key `key`, or the number of fields if none has it.
fn position(fields: &Vec<(String, String)>, key: &str) -> (r: usize)
    ensures
        r <= fields@.len(),
        forall|j: int| 0 <= j < r ==> (#[trigger] field_view(fields@[j])).0 != key@,
        r < fields@.len() ==> field_view(fields@[r as int]).0 == key@,
{
    let mut i: usize = 0;
    while i < fields.len()
        invariant
            i <= fields@.len(),
            forall|j: int| 0 <= j < i ==> (#[trigger] field_view(fields@[j])).0 != key@,
        decreases fields@.len() - i,
    {
        if same_text(fields[i].0.as_str(), key) {
            return i;
        }
        i = i + 1;
    }
    i
}

impl FieldMap {
    #[verifier::type_invariant]
    spec fn well_formed(self) -> bool {
        distinct_keys(self@)
    }

    /// A map without fields.
    pub fn new() -> (r: Self)
        ensures
            r@ == Seq::<Field>::empty(),
    {
        let r = FieldMap { fields: Vec::new() };
        assert(r@ =~= Seq::empty());
        r
    }

    /// The number of fields.
    pub fn len(&self) -> (r: usize)
        ensures
            r == self@.len(),
            distinct_keys(self@),
    {
        proof {
            use_type_invariant(self);
        }
        self.fields.len()
    }

    /// The key of the field at `i`.
    pub fn key(&self, i: usize) -> (r: &str)
        requires
            i < self@.len(),
        ensures
            r@ == self@[i as int].0,
    {
        self.fields[i].0.as_str()
    }

    /// The value of the field at `i`.
    pub fn value(&self, i: usize) -> (r: &str)
        requires
            i < self@.len(),
        ensures
            r@ == self@[i as int].1,
    {
        self.fields[i].1.as_str()
    }

    /// The value of the key `key`.
    pub fn get(&self, key: &str) -> (r: Option<&str>)
        ensures
            text_of(r) == last_value(self@, key@),
    {
        let mut i: usize = self.fields.len();
        assert(self@.take(i as int) =~= self@);
        while i > 0
            invariant
                i <= self@.len(),
                self@.len() == self.fields@.len(),
                last_value(self@.take(i as int), key@) == last_value(self@, key@),
            decreases i,
        {
            assert(self@.take(i as int).drop_last() =~= self@.take(i - 1));
            if same_text(self.key(i - 1), key) {
                return Some(self.value(i - 1));
            }
            i = i - 1;
        }
        None
    }

    /// Sets `key` to `value`.
    pub fn insert(&mut self, key: String, value: String)
        ensures
            final(self)@ == with_field(old(self)@, key@, value@),
    {
        proof {
            use_type_invariant(&*self);
        }
        let ghost before = self@;
        let mut fields: Vec<(String, String)> = Vec::new();
        assert(fields@.map_values(|f: (String, String)| field_view(f)) =~= Seq::empty());
        std::mem::swap(&mut fields, &mut self.fields);
        let i: usize = position(&fields, key.as_str());
        assert forall|j: int| 0 <= j < before.len() implies #[trigger] before[j] == field_view(
            fields@[j],
        ) by {}
        let ghost k = key@;
        let ghost v = value@;
        if i < fields.len() {
            assert(before[i as int].0 == k);
            fields.set(i, (key, value));
            assert(fields@.map_values(|f: (String, String)| field_view(f)) =~= with_field(
                before,
                k,
                v,
            )) by {
                assert forall|j: int| 0 <= j < before.len() && j != i implies (#[trigger] before[j]).0
                    != k by {
                    assert(before[i as int].0 == k);
                }
            }
        } else {
            fields.push((key, value));
            assert(fields@.map_values(|f: (String, String)| field_view(f)) =~= before.push((k, v)));
        }
        proof {
            lemma_with_field(before, k, v);
        }
        self.fields = fields;
    }

    /// Drops `key` and its value.
    pub fn remove(&mut self, key: &str)
        ensures
            final(self)@ == without_field(old(self)@, key@),
    {
        proof {
            use_type_invariant(&*self);
        }
        let ghost before = self@;
        let mut fields: Vec<(String, String)> = Vec::new();
        assert(fields@.map_values(|f: (String, String)| field_view(f)) =~= Seq::empty());
        std::mem::swap(&mut fields, &mut self.fields);
        proof {
            lemma_without_field(before, key@);
            lemma_without_absent(before, key@);
        }
        let i: usize = position(&fields, key);
        if i < fields.len() {
            let dropped: (String, String) = fields.remove(i);
            assert(fields@.map_values(|f: (String, String)| field_view(f)) =~= before.remove(
                i as int,
            ));
            proof {
                lemma_without_one(before, i as int);
            }
        }
        self.fields = fields;
    }
}

/// Setting a key changes its value and no other, and keeps the keys distinct.
pub proof fn lemma_with_field(fields: Seq<Field>, key: Seq<char>, value: Seq<char>)
    ensures
        last_value(with_field(fields, key, value), key) == Some(value),
        forall|other: Seq<char>|
            other != key ==> #[trigger] last_value(with_field(fields, key, value), other)
                == last_value(fields, other),
        distinct_keys(fields) ==> distinct_keys(with_field(fields, key, value)),
{
    let set = with_field(fields, key, value);
    if has_key(fields, key) {
        lemma_replaced(fields, key, value);
        if distinct_keys(fields) {
            assert forall|i: int, j: int| 0 <= i < j < set.len() implies (#[trigger] set[i]).0 != (
            #[trigger] set[j]).0 by {
                assert(fields[i].0 != fields[j].0);
            }
        }
    } else {
        assert(set.drop_last() =~= fields);
        if distinct_keys(fields) {
            assert forall|i: int, j: int| 0 <= i < j < set.len() implies (#[trigger] set[i]).0 != (
            #[trigger] set[j]).0 by {
                assert(set[i] == fields[i]);
                if j < fields.len() {
                    assert(set[j] == fields[j]);
                }
            }
        }
    }
}

/// Replacing the value of a key in its place.
proof fn lemma_replaced(fields: Seq<Field>, key: Seq<char>, value: Seq<char>)
    ensures
        ({
            let set = replaced(fields, key, value);
            &&& has_key(fields, key) ==> last_value(set, key) == Some(value)
            &&& forall|other: Seq<char>|
                other != key ==> #[trigger] last_value(set, other) == last_value(fields, other)
        }),
    decreases fields.len(),
{
    let set = replaced(fields, key, value);
    if fields.len() > 0 {
        let front = fields.drop_last();
        lemma_replaced(front, key, value);
        assert(set.drop_last() =~= replaced(front, key, value));
        if has_key(fields, key) && fields.last().0 != key {
            let i = choose|i: int| 0 <= i < fields.len() && (#[trigger] fields[i]).0 == key;
            assert(front[i].0 == key);
        }
        assert forall|other: Seq<char>| other != key implies #[trigger] last_value(set, other)
            == last_value(fields, other) by {
            assert(last_value(replaced(front, key, value), other) == last_value(front, other));
        }
    }
}

/// Dropping a key drops its value and no other, and keeps the keys distinct.
pub proof fn lemma_without_field(fields: Seq<Field>, key: Seq<char>)
    ensures
        !has_key(without_field(fields, key), key),
        forall|k: Seq<char>|
            has_key(without_field(fields, key), k) ==> #[trigger] has_key(fields, k),
        last_value(without_field(fields, key), key) is None,
        forall|other: Seq<char>|
            other != key ==> #[trigger] last_value(without_field(fields, key), other)
                == last_value(fields, other),
        distinct_keys(fields) ==> distinct_keys(without_field(fields, key)),
    decreases fields.len(),
{
    reveal(Seq::filter);
    let left = without_field(fields, key);
    if fields.len() > 0 {
        let front = fields.drop_last();
        let front_left = without_field(front, key);
        lemma_without_field(front, key);
        assert forall|k: Seq<char>| has_key(left, k) implies #[trigger] has_key(fields, k) by {
            let i = choose|i: int| 0 <= i < left.len() && (#[trigger] left[i]).0 == k;
            if i < front_left.len() {
                assert(front_left[i].0 == k);
                assert(has_key(front, k));
                let j = choose|j: int| 0 <= j < front.len() && (#[trigger] front[j]).0 == k;
                assert(fields[j].0 == k);
            } else {
                assert(fields[fields.len() - 1].0 == k);
            }
        }
        if has_key(left, key) {
            let i = choose|i: int| 0 <= i < left.len() && (#[trigger] left[i]).0 == key;
            if i < front_left.len() {
                assert(front_left[i].0 == key);
            }
        }
        if fields.last().0 != key {
            assert(left.drop_last() =~= front_left);
        }
        assert forall|other: Seq<char>| other != key implies #[trigger] last_value(left, other)
            == last_value(fields, other) by {
            assert(last_value(front_left, other) == last_value(front, other));
        }
        if distinct_keys(fields) {
            assert forall|i: int, j: int| 0 <= i < j < front.len() implies (#[trigger] front[i]).0
                != (#[trigger] front[j]).0 by {
                assert(fields[i].0 != fields[j].0);
            }
            assert forall|i: int, j: int| 0 <= i < j < left.len() implies (#[trigger] left[i]).0
                != (#[trigger] left[j]).0 by {
                assert(left[i] == front_left[i]);
                if j < front_left.len() {
                    assert(left[j] == front_left[j]);
                } else {
                    assert(has_key(front_left, left[i].0));
                    assert(has_key(front, left[i].0));
                    let m = choose|m: int|
                        0 <= m < front.len() && (#[trigger] front[m]).0 == left[i].0;
                    assert(fields[m].0 != fields[fields.len() - 1].0);
                }
            }
        }
    }
}

/// Dropping a key that is not there changes nothing.
pub proof fn lemma_without_absent(fields: Seq<Field>, key: Seq<char>)
    ensures
        !has_key(fields, key) ==> without_field(fields, key) == fields,
    decreases fields.len(),
{
    reveal(Seq::filter);
    if fields.len() == 0 {
        assert(without_field(fields, key) =~= fields);
    } else if !has_key(fields, key) {
        let front = fields.drop_last();
        assert(fields[fields.len() - 1].0 != key);
        assert(!has_key(front, key)) by {
            assert forall|i: int| 0 <= i < front.len() implies (#[trigger] front[i]).0 != key by {
                assert(front[i] == fields[i]);
            }
        }
        lemma_without_absent(front, key);
        assert(front.push(fields.last()) =~= fields);
    }
}

/// Among distinct keys, dropping the key at `i` drops the field at `i`.
proof fn lemma_without_one(fields: Seq<Field>, i: int)
    requires
        distinct_keys(fields),
        0 <= i < fields.len(),
    ensures
        without_field(fields, fields[i].0) == fields.remove(i),
    decreases fields.len(),
{
    reveal(Seq::filter);
    let key = fields[i].0;
    let front = fields.drop_last();
    assert forall|a: int, b: int| 0 <= a < b < front.len() implies (#[trigger] front[a]).0 != (
    #[trigger] front[b]).0 by {
        assert(fields[a].0 != fields[b].0);
    }
    if i < front.len() {
        lemma_without_one(front, i);
        assert(front[i].0 == key);
        assert(fields[fields.len() - 1].0 != key);
        assert(front.remove(i).push(fields.last()) =~= fields.remove(i));
    } else {
        assert(!has_key(front, key)) by {
            assert forall|a: int| 0 <= a < front.len() implies (#[trigger] front[a]).0 != key by {
                assert(fields[a].0 != fields[i].0);
            }
        }
        lemma_without_absent(front, key);
        assert(front =~= fields.remove(i));
    }
}

/// A key has a value exactly if one of the fields has it.
pub proof fn lemma_last_value_has(fields: Seq<Field>, key: Seq<char>)
    ensures
        last_value(fields, key) is Some <==> has_key(fields, key),
    decreases fields.len(),
{
    if fields.len() > 0 {
        let front = fields.drop_last();
        lemma_last_value_has(front, key);
        if fields.last().0 == key {
            assert(fields[fields.len() - 1].0 == key);
        } else if has_key(fields, key) {
            let i = choose|i: int| 0 <= i < fields.len() && (#[trigger] fields[i]).0 == key;
            assert(front[i].0 == key);
        } else if has_key(front, key) {
            let i = choose|i: int| 0 <= i < front.len() && (#[trigger] front[i]).0 == key;
            assert(fields[i].0 == key);
        }
    }
}

} // verus!
