//! How command lines are read and what their parameters are.

use vstd::prelude::*;

use crate::bls_laws::{lemma_first_index, lemma_lacks_index};
use crate::cmdline::{
    dequoted, first_value, has_param, joined, lemma_scan_add, lemma_scan_behind,
    lemma_scan_param, param_key, param_value, params, quotes_closed, same_key, same_param, scan_from,
    scan_start, Scan,
};
use crate::text::lacks;

verus! {

/// The characters that end a parameter.
pub open spec fn ends_param(c: char) -> bool {
    c == ' ' || c == '\n' || c == '\r' || c == '\t' || c == '\u{c}'
}

/// No character of `s` ends a parameter.
pub open spec fn unbroken(s: Seq<char>) -> bool {
    forall|i: int| 0 <= i < s.len() ==> !ends_param(#[trigger] s[i])
}

/// The parameters on both sides of white space are those of the two sides, unless the white space
/// is quoted.
pub proof fn law_params_apart(a: Seq<char>, c: char, b: Seq<char>)
    requires
        quotes_closed(a),
        ends_param(c),
    ensures
        params(a.push(c) + b) == params(a) + params(b),
        quotes_closed(a.push(c) + b) == quotes_closed(b),
{
    assert(a.push(c).drop_last() =~= a);
    lemma_scan_add(scan_start(), a.push(c), b);
    lemma_scan_behind(params(a), scan_start(), b);
    assert(params(a) + Seq::<Seq<char>>::empty() =~= params(a));
    let st = scan_from(scan_start(), b);
    assert(params(a) + st.done.push(st.open) =~= (params(a) + st.done).push(st.open));
}

/// Quotes are closed if there is an even number of them.
pub proof fn law_quotes(text: Seq<char>, c: char)
    ensures
        quotes_closed(Seq::empty()),
        params(Seq::empty()).len() == 0,
        quotes_closed(text.push(c)) == (quotes_closed(text) != (c == '"')),
{
    assert(text.push(c).drop_last() =~= text);
}

/// Reading a text in which nothing ends a parameter.
proof fn lemma_scan_unbroken(st: Scan, p: Seq<char>)
    requires
        lacks(p, '"'),
        st.quoted || unbroken(p),
    ensures
        scan_from(st, p) == (Scan { done: st.done, open: st.open + p, quoted: st.quoted }),
    decreases p.len(),
{
    if p.len() == 0 {
        assert(st.open + p =~= st.open);
    } else {
        let front = p.drop_last();
        assert forall|i: int| 0 <= i < front.len() implies #[trigger] front[i] != '"' by {
            assert(front[i] == p[i]);
        }
        if !st.quoted {
            assert forall|i: int| 0 <= i < front.len() implies !ends_param(#[trigger] front[i]) by {
                assert(front[i] == p[i]);
            }
            assert(!ends_param(p[p.len() - 1]));
        }
        lemma_scan_unbroken(st, front);
        assert(p[p.len() - 1] != '"');
        assert((st.open + front).push(p.last()) =~= st.open + p);
    }
}

/// A text without white space and quotes is one parameter. A parameter goes on with what stands
/// between quotes behind it, white space and all, and with what follows them up to white space; a
/// quote that is left open goes on to the end.
pub proof fn law_one_param(a: Seq<char>, quoted: Seq<char>, b: Seq<char>)
    requires
        a.len() == 0 || (params(a) == seq![a] && quotes_closed(a)),
        lacks(quoted, '"'),
        lacks(b, '"') && unbroken(b),
    ensures
        b.len() > 0 ==> params(b) == seq![b] && quotes_closed(b),
        ({
            let p = a.push('"') + quoted.push('"') + b;
            params(p) == seq![p] && quotes_closed(p)
        }),
        ({
            let p = a.push('"') + quoted;
            params(p) == seq![p] && !quotes_closed(p)
        }),
{
    lemma_scan_unbroken(scan_start(), b);
    assert(Seq::<char>::empty() + b =~= b);
    if b.len() > 0 {
        assert(params(b) =~= seq![b]);
    }
    if a.len() > 0 {
        lemma_scan_param(Seq::empty(), a);
    }
    assert(scan_from(scan_start(), a).open =~= a);
    let opened = a.push('"');
    let closed = quoted.push('"');
    let p = opened + closed + b;
    assert(opened.drop_last() =~= a);
    let st1 = scan_from(scan_start(), opened);
    assert(st1.open =~= opened && st1.quoted);
    lemma_scan_unbroken(st1, quoted);
    lemma_scan_add(scan_start(), opened, quoted);
    assert(params(opened + quoted) =~= seq![opened + quoted]);
    assert(closed.drop_last() =~= quoted);
    let st2 = scan_from(st1, closed);
    assert(st2.open =~= opened + closed);
    assert(!st2.quoted);
    lemma_scan_unbroken(st2, b);
    lemma_scan_add(scan_start(), opened, closed);
    lemma_scan_add(scan_start(), opened + closed, b);
    assert(params(p) =~= seq![p]);
}

/// A parameter without quotes at its ends.
proof fn lemma_bare(p: Seq<char>)
    requires
        p.len() > 0 ==> p[0] != '"' && p.last() != '"',
    ensures
        dequoted(p) == p,
{
    let q = seq!['"'];
    if q.is_prefix_of(p) {
        assert(p[0] == q[0]);
    }
    if q.is_suffix_of(p) {
        assert(p.last() == q[0]);
    }
}

/// The key and the value of a parameter without quotes.
proof fn lemma_plain_parts(key: Seq<char>, value: Seq<char>)
    requires
        lacks(key, '=') && lacks(key, '"'),
        lacks(value, '"'),
    ensures
        param_key(key) == key && param_value(key) is None,
        dequoted(key.push('=') + value) == key.push('=') + value,
        param_key(key.push('=') + value) == key,
        param_value(key.push('=') + value) == Some(value),
{
    let q = seq!['"'];
    let plain = key.push('=') + value;
    if key.len() > 0 {
        assert(key[0] != '"' && key[key.len() - 1] != '"');
        assert(plain[0] == key[0]);
    } else {
        assert(plain[0] == '=');
    }
    if value.len() > 0 {
        assert(value[0] != '"' && value[value.len() - 1] != '"');
        assert(plain.last() == value[value.len() - 1]);
    } else {
        assert(plain.last() == '=');
    }
    lemma_bare(key);
    lemma_bare(plain);
    lemma_lacks_index(key, '=');
    lemma_first_index(key, '=', value);
    assert(key.take(key.len() as int) =~= key);
    assert(plain.take(key.len() as int) =~= key);
    assert(plain.skip(key.len() as int + 1) =~= value);
    if q.is_prefix_of(value) {
        assert(value[0] == q[0]);
    }
}

/// The key and the value of a parameter with quotes round its value.
proof fn lemma_quoted_value(key: Seq<char>, value: Seq<char>)
    requires
        lacks(key, '=') && lacks(key, '"'),
    ensures
        param_key(key.push('=') + value.push('"').insert(0, '"')) == key,
        param_value(key.push('=') + value.push('"').insert(0, '"')) == Some(value),
{
    let q = seq!['"'];
    let inner = key.push('=') + value.push('"').insert(0, '"');
    let opened = key.push('=') + value.insert(0, '"');
    if key.len() > 0 {
        assert(key[0] != '"');
        assert(inner[0] == key[0]);
    } else {
        assert(inner[0] == '=');
    }
    if q.is_prefix_of(inner) {
        assert(inner[0] == q[0]);
    }
    assert(inner =~= opened + q);
    assert(q.is_suffix_of(inner));
    assert(inner.take(inner.len() - 1) =~= opened);
    assert(dequoted(inner) == opened);
    lemma_first_index(key, '=', value.insert(0, '"'));
    assert(opened.take(key.len() as int) =~= key);
    assert(opened.skip(key.len() as int + 1) =~= q + value);
    assert(q.is_prefix_of(q + value));
    assert((q + value).skip(1) =~= value);
}

/// The quotes round a parameter do not count.
proof fn lemma_quoted(plain: Seq<char>)
    ensures
        dequoted(plain.push('"').insert(0, '"')) == plain,
{
    let q = seq!['"'];
    let outer = plain.push('"').insert(0, '"');
    assert(outer =~= q + plain + q);
    assert(q.is_prefix_of(outer));
    assert(outer.skip(1) =~= plain + q);
    assert(q.is_suffix_of(plain + q));
    assert((plain + q).take(plain.len() as int) =~= plain);
}

/// The key of a parameter is what precedes `=`, and the value what follows; quotes round the value
/// or round the whole parameter do not count. Without `=` there is no value.
pub proof fn law_param_parts(key: Seq<char>, value: Seq<char>)
    requires
        lacks(key, '=') && lacks(key, '"'),
        lacks(value, '"'),
    ensures
        param_key(key) == key && param_value(key) is None,
        param_key(key.push('=') + value) == key,
        param_value(key.push('=') + value) == Some(value),
        param_key(key.push('=') + value.push('"').insert(0, '"')) == key,
        param_value(key.push('=') + value.push('"').insert(0, '"')) == Some(value),
        param_key((key.push('=') + value).push('"').insert(0, '"')) == key,
        param_value((key.push('=') + value).push('"').insert(0, '"')) == Some(value),
{
    lemma_plain_parts(key, value);
    lemma_quoted_value(key, value);
    lemma_quoted(key.push('=') + value);
}

/// Keys are the same if they agree character by character, where a dash and an underscore count as
/// the same.
pub proof fn law_same_key(a: Seq<char>, b: Seq<char>)
    ensures
        same_key(a, b) <==> a.len() == b.len() && forall|i: int|
            0 <= i < a.len() ==> #[trigger] a[i] == b[i] || ((a[i] == '-' || a[i] == '_') && (b[i]
                == '-' || b[i] == '_')),
{
    let f = |c: char|
        if c == '-' {
            '_'
        } else {
            c
        };
    let x = a.map_values(f);
    let y = b.map_values(f);
    if same_key(a, b) {
        assert(x.len() == y.len());
        assert forall|i: int| 0 <= i < a.len() implies #[trigger] a[i] == b[i] || ((a[i] == '-'
            || a[i] == '_') && (b[i] == '-' || b[i] == '_')) by {
            assert(x[i] == y[i]);
        }
    }
    if a.len() == b.len() && forall|i: int|
        0 <= i < a.len() ==> #[trigger] a[i] == b[i] || ((a[i] == '-' || a[i] == '_') && (b[i]
            == '-' || b[i] == '_')) {
        assert(x =~= y);
    }
}

/// Parameters are the same if both their keys and their values are; values are compared character
/// by character. A list has a parameter if one of its elements is the same.
pub proof fn law_same_param(ps: Seq<Seq<char>>, p: Seq<char>)
    ensures
        forall|q: Seq<char>| #[trigger]
            same_param(q, p) <==> same_key(param_key(q), param_key(p)) && param_value(q)
                == param_value(p),
        has_param(ps, p) <==> exists|i: int| 0 <= i < ps.len() && same_param(#[trigger] ps[i], p),
{
}

/// The value of a key is that of the first parameter with this key, if that one has a value.
pub proof fn law_first_value(ps: Seq<Seq<char>>, key: Seq<char>, n: int)
    requires
        0 <= n <= ps.len(),
        forall|i: int| 0 <= i < n ==> !same_key(param_key(#[trigger] ps[i]), key),
    ensures
        n == ps.len() ==> first_value(ps, key) is None,
        n < ps.len() && same_key(param_key(ps[n]), key) ==> first_value(ps, key) == param_value(
            ps[n],
        ),
    decreases ps.len(),
{
    if n > 0 {
        let rest = ps.skip(1);
        assert(!same_key(param_key(ps[0]), key));
        assert forall|i: int| 0 <= i < n - 1 implies !same_key(
            param_key(#[trigger] rest[i]),
            key,
        ) by {
            assert(rest[i] == ps[i + 1]);
        }
        law_first_value(rest, key, n - 1);
    }
}

/// Joined parameters stand one behind the other with a space between them.
pub proof fn law_joined(ps: Seq<Seq<char>>, p: Seq<char>)
    ensures
        joined(Seq::empty()) == Seq::<char>::empty(),
        joined(seq![p]) == p,
        ps.len() > 0 ==> joined(ps.push(p)) == joined(ps) + " "@ + p,
{
    reveal_strlit(" ");
    assert(ps.push(p).drop_last() =~= ps);
    assert(joined(ps).push(' ') =~= joined(ps) + " "@);
}

} // verus!
