//! What cutting text does, and what setting and dropping fields does.

use vstd::prelude::*;

use crate::bls_laws::{lemma_first_index, lemma_lacks_index};
use crate::fields::{
    has_key, last_value, lemma_last_value_has, lemma_without_absent, with_field, without_field,
    Field,
};
use crate::text::{
    after_last, first_index, lacks, split_on, string_of, text_of, trimmed, trimmed_end,
    trimmed_start, white_space, without_prefix, without_suffix,
};

verus! {

broadcast use vstd::string::group_string_axioms;

/// White space, by code point.
pub proof fn law_white_space(c: char)
    ensures
        white_space(c) <==> ({
            let n = c as u32;
            ||| 9 <= n <= 13
            ||| n == 0x20 || n == 0x85 || n == 0xa0 || n == 0x1680
            ||| 0x2000 <= n <= 0x200a
            ||| n == 0x2028 || n == 0x2029 || n == 0x202f || n == 0x205f || n == 0x3000
        }),
{
}

/// Every character of `s` is white space.
pub open spec fn blank(s: Seq<char>) -> bool {
    forall|i: int| 0 <= i < s.len() ==> white_space(#[trigger] s[i])
}

/// Leading white space is dropped.
proof fn lemma_trimmed_start_add(w: Seq<char>, s: Seq<char>)
    requires
        blank(w),
    ensures
        trimmed_start(w + s) == trimmed_start(s),
    decreases w.len(),
{
    if w.len() == 0 {
        assert(w + s =~= s);
    } else {
        let all = w + s;
        assert(all[0] == w[0]);
        assert(blank(w.skip(1))) by {
            assert forall|i: int| 0 <= i < w.skip(1).len() implies white_space(
                #[trigger] w.skip(1)[i],
            ) by {
                assert(w.skip(1)[i] == w[i + 1]);
            }
        }
        lemma_trimmed_start_add(w.skip(1), s);
        assert(all.skip(1) =~= w.skip(1) + s);
    }
}

/// Trailing white space is dropped.
proof fn lemma_trimmed_end_add(s: Seq<char>, w: Seq<char>)
    requires
        blank(w),
    ensures
        trimmed_end(s + w) == trimmed_end(s),
    decreases w.len(),
{
    if w.len() == 0 {
        assert(s + w =~= s);
    } else {
        let all = s + w;
        assert(white_space(w[w.len() - 1]));
        assert(all.last() == w[w.len() - 1]);
        assert(blank(w.drop_last())) by {
            assert forall|i: int| 0 <= i < w.drop_last().len() implies white_space(
                #[trigger] w.drop_last()[i],
            ) by {
                assert(w.drop_last()[i] == w[i]);
            }
        }
        lemma_trimmed_end_add(s, w.drop_last());
        assert(all.drop_last() =~= s + w.drop_last());
    }
}

/// Trimming drops the white space at both ends and nothing else: a text that neither begins nor
/// ends with white space is what is left of it between any white space.
pub proof fn law_trimmed(before: Seq<char>, s: Seq<char>, after: Seq<char>)
    requires
        blank(before),
        blank(after),
        s.len() > 0 ==> !white_space(s[0]) && !white_space(s.last()),
    ensures
        trimmed(before + s + after) == s,
{
    let rest = s + after;
    assert(before + s + after =~= before + rest);
    lemma_trimmed_start_add(before, rest);
    if s.len() > 0 {
        assert(rest[0] == s[0]);
        lemma_trimmed_end_add(s, after);
    } else {
        assert(rest =~= after + Seq::empty());
        lemma_trimmed_start_add(after, Seq::empty());
        assert(trimmed_start(Seq::empty()) =~= Seq::empty());
        assert(trimmed_end(Seq::empty()) =~= s);
    }
}

/// The pieces of a text on both sides of a separator are those of the two sides; a text without
/// separators is one piece.
pub proof fn law_split(a: Seq<char>, b: Seq<char>, sep: char)
    ensures
        split_on(a.push(sep) + b, sep) == split_on(a, sep) + split_on(b, sep),
        split_on(b, sep).len() > 0,
        lacks(b, sep) ==> split_on(b, sep) == seq![b],
    decreases b.len(),
{
    let all = a.push(sep) + b;
    if b.len() == 0 {
        assert(all =~= a.push(sep));
        assert(a.push(sep).drop_last() =~= a);
        assert(split_on(a, sep).push(Seq::empty()) =~= split_on(a, sep) + split_on(b, sep));
        assert(b =~= Seq::empty());
        assert(split_on(b, sep) == seq![b]);
    } else {
        let front = b.drop_last();
        law_split(a, front, sep);
        assert(all.drop_last() =~= a.push(sep) + front);
        assert(split_on(all, sep) =~= split_on(a, sep) + split_on(b, sep));
        if lacks(b, sep) {
            assert(b[b.len() - 1] != sep);
            assert forall|i: int| 0 <= i < front.len() implies #[trigger] front[i] != sep by {
                assert(front[i] == b[i]);
            }
            assert(front.push(b.last()) =~= b);
            assert(split_on(b, sep) =~= seq![b]);
        }
    }
}

/// A text is cut where a character first occurs, and behind where it last occurs.
pub proof fn law_cut(a: Seq<char>, b: Seq<char>, c: char)
    ensures
        lacks(a, c) ==> first_index(a.push(c) + b, c) == a.len(),
        lacks(a, c) ==> first_index(a, c) == a.len(),
        lacks(b, c) ==> after_last(a.push(c) + b, c) == b,
        lacks(b, c) ==> after_last(b, c) == b,
    decreases b.len(),
{
    if lacks(a, c) {
        lemma_first_index(a, c, b);
        lemma_lacks_index(a, c);
    }
    if lacks(b, c) {
        let all = a.push(c) + b;
        if b.len() == 0 {
            assert(all.last() == c);
            assert(after_last(all, c) =~= b);
            assert(after_last(b, c) =~= b);
        } else {
            let front = b.drop_last();
            assert(b[b.len() - 1] != c);
            assert forall|i: int| 0 <= i < front.len() implies #[trigger] front[i] != c by {
                assert(front[i] == b[i]);
            }
            law_cut(a, front, c);
            assert(all.drop_last() =~= a.push(c) + front);
            assert(front.push(b.last()) =~= b);
        }
    }
}

/// Behind a prefix and in front of a suffix stands all the rest of a text, and only a text that
/// starts or ends so has such a rest.
pub proof fn law_affixes(s: Seq<char>, p: Seq<char>)
    ensures
        without_prefix(p + s, p) == Some(s),
        without_suffix(s + p, p) == Some(s),
        without_prefix(s, p) matches Some(rest) ==> s == p + rest,
        without_suffix(s, p) matches Some(rest) ==> s == rest + p,
{
    assert(p.is_prefix_of(p + s));
    assert((p + s).skip(p.len() as int) =~= s);
    assert(p.is_suffix_of(s + p));
    assert((s + p).take(s.len() as int) =~= s);
    if p.is_prefix_of(s) {
        assert(s =~= p + s.skip(p.len() as int));
    }
    if p.is_suffix_of(s) {
        assert(s =~= s.take(s.len() - p.len()) + p);
    }
}

/// An optional text is there or not, as it is.
pub proof fn law_optional_texts(t: &str, s: String)
    ensures
        text_of(Some(t)) == Some(t@),
        text_of(None) is None,
        string_of(Some(s)) == Some(s@),
        string_of(None) is None,
{
}

/// The value of a key is that of the last field with this key.
pub proof fn law_last_value(fields: Seq<Field>, key: Seq<char>, value: Seq<char>)
    ensures
        last_value(fields, key) == Some(value) <==> exists|i: int|
            0 <= i < fields.len() && #[trigger] fields[i] == (key, value) && forall|j: int|
                i < j < fields.len() ==> (#[trigger] fields[j]).0 != key,
        last_value(fields, key) is None <==> forall|i: int|
            0 <= i < fields.len() ==> (#[trigger] fields[i]).0 != key,
{
    lemma_last_value_has(fields, key);
    if last_value(fields, key) is Some {
        let i = lemma_last_value_at(fields, key);
        assert(fields[i] == (key, last_value(fields, key)->0));
    }
    if exists|i: int|
        0 <= i < fields.len() && #[trigger] fields[i] == (key, value) && forall|j: int|
            i < j < fields.len() ==> (#[trigger] fields[j]).0 != key {
        let i = choose|i: int|
            0 <= i < fields.len() && #[trigger] fields[i] == (key, value) && forall|j: int|
                i < j < fields.len() ==> (#[trigger] fields[j]).0 != key;
        assert(has_key(fields, key));
        let k = lemma_last_value_at(fields, key);
        assert(i == k);
    }
}

/// Where the last field with a key is.
proof fn lemma_last_value_at(fields: Seq<Field>, key: Seq<char>) -> (i: int)
    requires
        last_value(fields, key) is Some,
    ensures
        0 <= i < fields.len(),
        fields[i] == (key, last_value(fields, key)->0),
        forall|j: int| i < j < fields.len() ==> (#[trigger] fields[j]).0 != key,
    decreases fields.len(),
{
    if fields.last().0 == key {
        fields.len() - 1
    } else {
        let front = fields.drop_last();
        let i = lemma_last_value_at(front, key);
        assert forall|j: int| i < j < fields.len() implies (#[trigger] fields[j]).0 != key by {
            if j < front.len() {
                assert(fields[j] == front[j]);
            }
        }
        i
    }
}

/// A field that is set takes the place of the one with its key, or comes behind all others.
pub proof fn law_field_set(fields: Seq<Field>, key: Seq<char>, value: Seq<char>)
    ensures
        (forall|i: int| 0 <= i < fields.len() ==> (#[trigger] fields[i]).0 != key) ==> with_field(
            fields,
            key,
            value,
        ) == fields.push((key, value)),
        (exists|i: int| 0 <= i < fields.len() && (#[trigger] fields[i]).0 == key) ==> {
            let set = with_field(fields, key, value);
            &&& set.len() == fields.len()
            &&& forall|i: int|
                0 <= i < fields.len() ==> #[trigger] set[i] == (if fields[i].0 == key {
                    (key, value)
                } else {
                    fields[i]
                })
        },
{
}

/// Dropping a key from two groups of fields.
proof fn lemma_without_add(a: Seq<Field>, b: Seq<Field>, key: Seq<char>)
    ensures
        without_field(a + b, key) == without_field(a, key) + without_field(b, key),
    decreases b.len(),
{
    reveal(Seq::filter);
    if b.len() == 0 {
        assert(a + b =~= a);
        assert(without_field(b, key) =~= Seq::empty());
        assert(without_field(a, key) + without_field(b, key) =~= without_field(a, key));
    } else {
        assert((a + b).drop_last() =~= a + b.drop_last());
        lemma_without_add(a, b.drop_last(), key);
        assert(without_field(a + b, key) =~= without_field(a, key) + without_field(b, key));
    }
}

/// A field that is dropped leaves the others as they were and in order.
pub proof fn law_field_dropped(a: Seq<Field>, f: Field, b: Seq<Field>)
    requires
        forall|i: int| 0 <= i < a.len() ==> (#[trigger] a[i]).0 != f.0,
        forall|i: int| 0 <= i < b.len() ==> (#[trigger] b[i]).0 != f.0,
    ensures
        without_field(a.push(f) + b, f.0) == a + b,
        without_field(a, f.0) == a,
{
    let one = seq![f];
    lemma_without_absent(a, f.0);
    lemma_without_absent(b, f.0);
    assert(without_field(one, f.0) =~= Seq::empty()) by {
        reveal(Seq::filter);
        assert(one.drop_last() =~= Seq::empty());
        assert(without_field(one.drop_last(), f.0) =~= Seq::empty());
    }
    lemma_without_add(a, one, f.0);
    lemma_without_add(a + one, b, f.0);
    assert(a + one =~= a.push(f));
    assert(a + Seq::<Field>::empty() =~= a);
}

} // verus!
