//! Kernel command lines, as the `linux_kernel_cmdline` crate reads and edits them.
//!
//! A command line is held as text. Its parameters are the pieces between white space, where
//! white space inside double quotes does not separate.

use linux_kernel_cmdline::utf8::{Cmdline, Parameter};
use vstd::prelude::*;

use crate::text::{first_index, lacks, without_prefix, without_suffix};

verus! {

broadcast use vstd::string::group_string_axioms;

/// The ASCII white space that separates parameters.
pub open spec fn separator(c: char) -> bool {
    c == ' ' || c == '\t' || c == '\n' || c == '\u{c}' || c == '\r'
}

/// How far a command line has been read from the left.
#[verifier::ext_equal]
pub struct Scan {
    /// The parameters that have ended.
    pub done: Seq<Seq<char>>,
    /// The parameter that is being read; empty between parameters.
    pub open: Seq<char>,
    /// Whether a double quote has been opened and not closed.
    pub quoted: bool,
}

/// Nothing has been read.
pub open spec fn scan_start() -> Scan {
    Scan { done: Seq::empty(), open: Seq::empty(), quoted: false }
}

/// One more character is read.
pub open spec fn scan_step(st: Scan, c: char) -> Scan {
    if separator(c) && !st.quoted {
        Scan { done: scan_params(st), open: Seq::empty(), quoted: false }
    } else {
        Scan { done: st.done, open: st.open.push(c), quoted: (c == '"') != st.quoted }
    }
}

/// All of `s` is read, starting from `st`.
pub open spec fn scan_from(st: Scan, s: Seq<char>) -> Scan
    decreases s.len(),
{
    if s.len() == 0 {
        st
    } else {
        scan_step(scan_from(st, s.drop_last()), s.last())
    }
}

/// The parameters read so far, the open one among them.
pub open spec fn scan_params(st: Scan) -> Seq<Seq<char>> {
    if st.open.len() == 0 {
        st.done
    } else {
        st.done.push(st.open)
    }
}

/// The parameters of a command line, in order, with their quotes.
pub open spec fn params(text: Seq<char>) -> Seq<Seq<char>> {
    scan_params(scan_from(scan_start(), text))
}

/// Whether `text` closes every double quote that it opens.
pub open spec fn quotes_closed(text: Seq<char>) -> bool {
    !scan_from(scan_start(), text).quoted
}

/// Whether `p` is the text of exactly one parameter.
pub open spec fn is_param(p: Seq<char>) -> bool {
    params(p) == seq![p]
}

/// A parameter without the double quotes at its very ends.
pub open spec fn dequoted(p: Seq<char>) -> Seq<char> {
    let q = match without_prefix(p, seq!['"']) {
        Some(rest) => rest,
        None => p,
    };
    match without_suffix(q, seq!['"']) {
        Some(rest) => rest,
        None => q,
    }
}

/// The key of a parameter: what precedes the first `=`.
pub open spec fn param_key(p: Seq<char>) -> Seq<char> {
    let d = dequoted(p);
    d.take(first_index(d, '='))
}

/// The value of a parameter: what follows the first `=` and a double quote behind it.
pub open spec fn param_value(p: Seq<char>) -> Option<Seq<char>> {
    let d = dequoted(p);
    let i = first_index(d, '=');
    if i == d.len() {
        None
    } else {
        match without_prefix(d.skip(i + 1), seq!['"']) {
            Some(rest) => Some(rest),
            None => Some(d.skip(i + 1)),
        }
    }
}

/// Whether two keys are the same, with dashes and underscores equivalent.
pub open spec fn same_key(a: Seq<char>, b: Seq<char>) -> bool {
    a.map_values(|c: char| if c == '-' { '_' } else { c })
        == b.map_values(|c: char| if c == '-' { '_' } else { c })
}

/// Whether two parameters have the same key and the same value.
pub open spec fn same_param(a: Seq<char>, b: Seq<char>) -> bool {
    same_key(param_key(a), param_key(b)) && param_value(a) == param_value(b)
}

/// Whether `ps` has a parameter with the key and the value of `p`.
pub open spec fn has_param(ps: Seq<Seq<char>>, p: Seq<char>) -> bool {
    exists|i: int| 0 <= i < ps.len() && same_param(#[trigger] ps[i], p)
}

/// Parameters written one after the other, with one space between two.
pub open spec fn joined(ps: Seq<Seq<char>>) -> Seq<char>
    decreases ps.len(),
{
    if ps.len() == 0 {
        Seq::empty()
    } else if ps.len() == 1 {
        ps[0]
    } else {
        joined(ps.drop_last()).push(' ') + ps.last()
    }
}

/// The parameters of `ps` that differ from `p`.
pub open spec fn other_params(ps: Seq<Seq<char>>, p: Seq<char>) -> Seq<Seq<char>> {
    ps.filter(|q: Seq<char>| !same_param(q, p))
}

/// `text` after every parameter that equals `p` is taken out of it.
pub open spec fn without_param(text: Seq<char>, p: Seq<char>) -> Seq<char> {
    if has_param(params(text), p) {
        joined(other_params(params(text), p))
    } else {
        text
    }
}

/// `text` with `p` written behind it.
pub open spec fn appended(text: Seq<char>, p: Seq<char>) -> Seq<char> {
    if text.len() > 0 && !separator(text.last()) {
        text.push(' ') + p
    } else {
        text + p
    }
}

/// `text` after `p` is added to it, unless it has that parameter already.
pub open spec fn with_param(text: Seq<char>, p: Seq<char>) -> Seq<char> {
    if has_param(params(text), p) {
        text
    } else {
        appended(text, p)
    }
}

/// The value of the first parameter of `ps` that has the key `key`.
pub open spec fn first_value(ps: Seq<Seq<char>>, key: Seq<char>) -> Option<Seq<char>>
    decreases ps.len(),
{
    if ps.len() == 0 {
        None
    } else if same_key(param_key(ps[0]), key) {
        param_value(ps[0])
    } else {
        first_value(ps.skip(1), key)
    }
}

/// `Cmdline::iter_str`: the texts of the parameters of a command line, in order. Parameters
/// end at ASCII white space outside double quotes.
#[verifier::external_body]
pub(crate) fn param_texts(text: &str) -> (r: Vec<String>)
    ensures
        r@.map_values(|p: String| p@) == params(text@),
{
    Cmdline::from(text).iter_str().map(str::to_owned).collect()
}

/// `Cmdline::remove_exact`: drops every parameter whose key and value are those of `param`.
/// What stays is written anew with single spaces; if nothing was dropped, the text is kept.
#[verifier::external_body]
pub(crate) fn remove_exact(text: &str, param: &str) -> (r: String)
    requires
        is_param(param@),
    ensures
        r@ == without_param(text@, param@),
{
    let mut cmdline = Cmdline::from(text);
    let param = Parameter::parse(param).unwrap();
    cmdline.remove_exact(&param);
    cmdline.to_string()
}

/// `Cmdline::add`: writes `param` behind the command line, with a space before it unless white
/// space or nothing precedes. If its key and value are there already, the text is kept.
#[verifier::external_body]
pub(crate) fn add_param(text: &str, param: &str) -> (r: String)
    requires
        is_param(param@),
    ensures
        r@ == with_param(text@, param@),
{
    let mut cmdline = Cmdline::from(text);
    let param = Parameter::parse(param).unwrap();
    cmdline.add(&param);
    cmdline.to_string()
}

/// `Cmdline::value_of`: the value of the first parameter with the given key; none if there is
/// no such parameter, or if the first one has no value.
#[verifier::external_body]
pub(crate) fn value_of(text: &str, key: &str) -> (r: Option<String>)
    ensures
        crate::text::string_of(r) == first_value(params(text@), key@),
{
    Cmdline::from(text).value_of(key).map(str::to_owned)
}

/// Every text of the sequence is one parameter, and only the last may leave a quote open.
pub open spec fn param_list(ps: Seq<Seq<char>>) -> bool {
    forall|i: int|
        0 <= i < ps.len() ==> is_param(#[trigger] ps[i]) && (i < ps.len() - 1 ==> quotes_closed(
            ps[i],
        ))
}

/// Reading `a` and then `b` is reading them as one text.
pub proof fn lemma_scan_add(st: Scan, a: Seq<char>, b: Seq<char>)
    ensures
        scan_from(st, a + b) == scan_from(scan_from(st, a), b),
    decreases b.len(),
{
    if b.len() == 0 {
        assert(a + b =~= a);
    } else {
        assert((a + b).drop_last() =~= a + b.drop_last());
        lemma_scan_add(st, a, b.drop_last());
    }
}

/// The parameters that have ended do not affect what is read behind them.
pub proof fn lemma_scan_behind(done: Seq<Seq<char>>, st: Scan, s: Seq<char>)
    ensures
        ({
            let r = scan_from(st, s);
            scan_from(Scan { done: done + st.done, ..st }, s) == (Scan {
                done: done + r.done,
                ..r
            })
        }),
    decreases s.len(),
{
    if s.len() > 0 {
        lemma_scan_behind(done, st, s.drop_last());
        let r = scan_from(st, s.drop_last());
        assert(done + r.done.push(r.open) =~= (done + r.done).push(r.open));
    }
}

/// Of a text that was read from the start: every ended parameter is one parameter with its
/// quotes closed, and the open one stands alone.
spec fn scan_sound(st: Scan) -> bool {
    &&& forall|i: int|
        0 <= i < st.done.len() ==> is_param(#[trigger] st.done[i]) && quotes_closed(st.done[i])
    &&& scan_from(scan_start(), st.open) == (Scan {
        done: Seq::empty(),
        open: st.open,
        quoted: st.quoted,
    })
}

proof fn lemma_scan_sound(s: Seq<char>)
    ensures
        scan_sound(scan_from(scan_start(), s)),
    decreases s.len(),
{
    if s.len() > 0 {
        lemma_scan_sound(s.drop_last());
        let st = scan_from(scan_start(), s.drop_last());
        let c = s.last();
        if separator(c) && !st.quoted {
            if st.open.len() > 0 {
                assert(params(st.open) =~= seq![st.open]);
            }
        } else {
            assert(st.open.push(c).drop_last() =~= st.open);
        }
    }
}

/// The parameters of a text are each one parameter; quotes stay open in the last one only, and
/// there exactly if the text leaves them open.
pub proof fn lemma_params_list(text: Seq<char>)
    ensures
        param_list(params(text)),
        params(text).len() > 0 && !quotes_closed(text) ==> !quotes_closed(params(text).last()),
        quotes_closed(text) ==> forall|i: int|
            0 <= i < params(text).len() ==> quotes_closed(#[trigger] params(text)[i]),
        params(text).len() == 0 ==> quotes_closed(text),
{
    lemma_scan_sound(text);
    let st = scan_from(scan_start(), text);
    if st.open.len() > 0 {
        assert(params(st.open) =~= seq![st.open]);
    }
}

/// What is read of one parameter that starts at a parameter boundary.
pub proof fn lemma_scan_param(done: Seq<Seq<char>>, p: Seq<char>)
    requires
        is_param(p),
    ensures
        p.len() > 0,
        scan_from(Scan { done, open: Seq::empty(), quoted: false }, p) == (Scan {
            done,
            open: p,
            quoted: !quotes_closed(p),
        }),
{
    lemma_scan_short(p);
    let st = scan_from(scan_start(), p);
    assert(params(p)[0] == p);
    if st.done.len() > 0 {
        assert(params(p)[0] == st.done[0]);
    }
    assert(st.open == p);
    lemma_scan_behind(done, scan_start(), p);
    assert(done + Seq::<Seq<char>>::empty() =~= done);
    assert(st.done =~= Seq::empty());
}

/// A parameter that has ended is shorter than the text that was read.
proof fn lemma_scan_short(s: Seq<char>)
    ensures
        ({
            let st = scan_from(scan_start(), s);
            st.open.len() <= s.len() && forall|i: int|
                0 <= i < st.done.len() ==> (#[trigger] st.done[i]).len() < s.len()
        }),
    decreases s.len(),
{
    if s.len() > 0 {
        lemma_scan_short(s.drop_last());
    }
}

/// A parameter is no longer than the text that it is read from.
pub proof fn lemma_params_shorter(text: Seq<char>)
    ensures
        forall|i: int| 0 <= i < params(text).len() ==> (#[trigger] params(text)[i]).len()
            <= text.len(),
{
    lemma_scan_short(text);
}

/// A parameter has only characters of the text that it is read from.
pub proof fn lemma_params_lack(text: Seq<char>, c: char)
    requires
        lacks(text, c),
    ensures
        forall|i: int| 0 <= i < params(text).len() ==> lacks(#[trigger] params(text)[i], c),
{
    lemma_scan_lacks(text, c);
}

proof fn lemma_scan_lacks(s: Seq<char>, c: char)
    requires
        lacks(s, c),
    ensures
        ({
            let st = scan_from(scan_start(), s);
            lacks(st.open, c) && forall|i: int|
                0 <= i < st.done.len() ==> lacks(#[trigger] st.done[i], c)
        }),
    decreases s.len(),
{
    if s.len() > 0 {
        let front = s.drop_last();
        assert forall|i: int| 0 <= i < front.len() implies #[trigger] front[i] != c by {
            assert(front[i] == s[i]);
        }
        lemma_scan_lacks(front, c);
        assert(s[s.len() - 1] != c);
    }
}

/// A separator behind a text ends its last parameter, unless quotes are open.
pub proof fn lemma_trailing_separator(text: Seq<char>)
    requires
        text.len() > 0,
        separator(text.last()),
        quotes_closed(text),
    ensures
        params(text) == params(text.drop_last()),
{
}

/// A parameter written behind a text whose quotes are closed is one more parameter of it.
pub proof fn lemma_appended(text: Seq<char>, p: Seq<char>)
    requires
        quotes_closed(text),
        is_param(p),
    ensures
        params(appended(text, p)) == params(text).push(p),
        quotes_closed(appended(text, p)) == quotes_closed(p),
{
    let st = scan_from(scan_start(), text);
    if text.len() > 0 && !separator(text.last()) {
        assert(text.push(' ').drop_last() =~= text);
        lemma_scan_add(scan_start(), text.push(' '), p);
    } else {
        if text.len() > 0 {
            let before = scan_from(scan_start(), text.drop_last());
            assert(!before.quoted);
        }
        lemma_scan_add(scan_start(), text, p);
    }
    lemma_scan_param(params(text), p);
}

/// Reading joined parameters gives them back.
pub proof fn lemma_joined(ps: Seq<Seq<char>>)
    requires
        param_list(ps),
    ensures
        params(joined(ps)) == ps,
        quotes_closed(joined(ps)) == (ps.len() > 0 ==> quotes_closed(ps.last())),
    decreases ps.len(),
{
    if ps.len() == 0 {
        assert(params(joined(ps)) =~= ps);
    } else if ps.len() == 1 {
        assert(is_param(ps[0]));
        assert(ps =~= seq![ps[0]]);
    } else {
        let front = ps.drop_last();
        assert forall|i: int| 0 <= i < front.len() implies is_param(#[trigger] front[i])
            && quotes_closed(front[i]) by {
            assert(front[i] == ps[i]);
        }
        lemma_joined(front);
        let text = joined(front);
        assert(is_param(ps.last()));
        lemma_scan_add(scan_start(), text.push(' '), ps.last());
        assert(text.push(' ').drop_last() =~= text);
        lemma_scan_param(front, ps.last());
        assert(front.push(ps.last()) =~= ps);
    }
}

/// What holds of every element of a sequence holds of those that a filter keeps, and so does
/// the filter's predicate.
pub proof fn lemma_filter_keeps(
    ps: Seq<Seq<char>>,
    keep: spec_fn(Seq<char>) -> bool,
    holds: spec_fn(Seq<char>) -> bool,
)
    requires
        forall|i: int| 0 <= i < ps.len() ==> holds(#[trigger] ps[i]),
    ensures
        forall|i: int|
            0 <= i < ps.filter(keep).len() ==> holds(#[trigger] ps.filter(keep)[i]) && keep(
                ps.filter(keep)[i],
            ),
    decreases ps.len(),
{
    reveal(Seq::filter);
    if ps.len() > 0 {
        let front = ps.drop_last();
        assert forall|i: int| 0 <= i < front.len() implies holds(#[trigger] front[i]) by {
            assert(front[i] == ps[i]);
        }
        lemma_filter_keeps(front, keep, holds);
        assert(holds(ps[ps.len() - 1]));
        let kept = front.filter(keep);
        assert forall|i: int| 0 <= i < ps.filter(keep).len() implies holds(
            #[trigger] ps.filter(keep)[i],
        ) && keep(ps.filter(keep)[i]) by {
            if i < kept.len() {
                assert(ps.filter(keep)[i] == kept[i]);
            }
        }
    }
}

/// Parameters that are taken out of a parameter list leave a parameter list.
proof fn lemma_filter_list(ps: Seq<Seq<char>>, keep: spec_fn(Seq<char>) -> bool)
    requires
        param_list(ps),
    ensures
        param_list(ps.filter(keep)),
    decreases ps.len(),
{
    reveal(Seq::filter);
    if ps.len() > 0 {
        let front = ps.drop_last();
        assert forall|i: int| 0 <= i < front.len() implies is_param(#[trigger] front[i])
            && quotes_closed(front[i]) by {
            assert(front[i] == ps[i]);
        }
        lemma_filter_keeps(front, keep, |q: Seq<char>| is_param(q) && quotes_closed(q));
        assert(is_param(ps[ps.len() - 1]));
        let kept = front.filter(keep);
        assert forall|i: int| 0 <= i < ps.filter(keep).len() implies is_param(
            #[trigger] ps.filter(keep)[i],
        ) && (i < ps.filter(keep).len() - 1 ==> quotes_closed(ps.filter(keep)[i])) by {
            if i < kept.len() {
                assert(ps.filter(keep)[i] == kept[i]);
            }
        }
    }
}

/// A filter that keeps every element changes nothing.
pub proof fn lemma_filter_all(ps: Seq<Seq<char>>, keep: spec_fn(Seq<char>) -> bool)
    requires
        forall|i: int| 0 <= i < ps.len() ==> keep(#[trigger] ps[i]),
    ensures
        ps.filter(keep) == ps,
    decreases ps.len(),
{
    reveal(Seq::filter);
    if ps.len() > 0 {
        let front = ps.drop_last();
        assert forall|i: int| 0 <= i < front.len() implies keep(#[trigger] front[i]) by {
            assert(front[i] == ps[i]);
        }
        lemma_filter_all(front, keep);
        assert(keep(ps[ps.len() - 1]));
        assert(front.push(ps.last()) =~= ps);
    } else {
        assert(ps.filter(keep) =~= ps);
    }
}

/// Removing a parameter takes out exactly the parameters that equal it, and opens no quote.
pub proof fn lemma_without_param(text: Seq<char>, p: Seq<char>)
    ensures
        params(without_param(text, p)) == other_params(params(text), p),
        quotes_closed(text) ==> quotes_closed(without_param(text, p)),
{
    let ps = params(text);
    let keep = |q: Seq<char>| !same_param(q, p);
    lemma_params_list(text);
    if has_param(ps, p) {
        lemma_filter_list(ps, keep);
        lemma_joined(other_params(ps, p));
        if quotes_closed(text) {
            lemma_filter_keeps(ps, keep, |q: Seq<char>| quotes_closed(q));
        }
    } else {
        assert forall|i: int| 0 <= i < ps.len() implies keep(#[trigger] ps[i]) by {
            assert(!same_param(ps[i], p));
        }
        lemma_filter_all(ps, keep);
    }
}

} // verus!
