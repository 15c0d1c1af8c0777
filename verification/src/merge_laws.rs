//! What merging the arguments of a source does to the parameters of a command line.

use vstd::prelude::*;

use crate::cmdline::{
    appended, has_param, is_param, joined, lemma_appended, lemma_filter_all, lemma_filter_keeps,
    lemma_joined, lemma_params_lack, lemma_params_list, lemma_params_shorter,
    lemma_trailing_separator, lemma_without_param, other_params, param_list, params, quotes_closed, same_param, separator,
    with_param, without_param,
};
use crate::cmdline_laws::{ends_param, law_params_apart};
use crate::source::{given, merged_options, with_params, without_params};
use crate::text::lacks;

verus! {

/// The parameters of `list` that equal none of `ps`, in order.
pub open spec fn params_outside(list: Seq<Seq<char>>, ps: Seq<Seq<char>>) -> Seq<Seq<char>> {
    list.filter(|q: Seq<char>| !has_param(ps, q))
}

/// `list` with those of `ps` behind it that it lacks, each once.
pub open spec fn params_plus(list: Seq<Seq<char>>, ps: Seq<Seq<char>>) -> Seq<Seq<char>>
    decreases ps.len(),
{
    if ps.len() == 0 {
        list
    } else {
        let front = params_plus(list, ps.drop_last());
        if has_param(front, ps.last()) {
            front
        } else {
            front.push(ps.last())
        }
    }
}

/// The command line that is left when a source gives up what it owned.
pub open spec fn released(current: Seq<char>, owned: Option<Seq<char>>) -> Seq<char> {
    merged_options(current, owned, None)
}

/// The parameters of an optional command line.
pub open spec fn optional_params(text: Option<Seq<char>>) -> Seq<Seq<char>> {
    match text {
        Some(v) => params(v),
        None => Seq::empty(),
    }
}

/// Whether a merge writes nothing behind a quote that is left open: no quote is, or every
/// parameter that the source is given is there already.
pub open spec fn quotes_allow(
    current: Seq<char>,
    owned: Option<Seq<char>>,
    new: Option<Seq<char>>,
) -> bool {
    ||| quotes_closed(released(current, owned))
    ||| forall|i: int|
        0 <= i < optional_params(given(new)).len() ==> has_param(
            params(released(current, owned)),
            #[trigger] optional_params(given(new))[i],
        )
}

/// Two filters in turn keep what both keep.
proof fn lemma_filter_twice(
    list: Seq<Seq<char>>,
    f: spec_fn(Seq<char>) -> bool,
    g: spec_fn(Seq<char>) -> bool,
    both: spec_fn(Seq<char>) -> bool,
)
    requires
        forall|q: Seq<char>| #[trigger] both(q) == (f(q) && g(q)),
    ensures
        list.filter(f).filter(g) == list.filter(both),
    decreases list.len(),
{
    reveal(Seq::filter);
    if list.len() == 0 {
        assert(list.filter(f).filter(g) =~= list.filter(both));
    } else {
        let front = list.drop_last();
        let q = list.last();
        lemma_filter_twice(front, f, g, both);
        assert(both(q) == (f(q) && g(q)));
        if f(q) {
            assert(list.filter(f).drop_last() =~= front.filter(f));
            assert(list.filter(f).last() == q);
        }
    }
}

/// Removing parameters one after the other takes out exactly those that equal one of them, and
/// opens no quote.
pub proof fn lemma_without_params(text: Seq<char>, ps: Seq<Seq<char>>)
    ensures
        params(without_params(text, ps)) == params_outside(params(text), ps),
        quotes_closed(text) ==> quotes_closed(without_params(text, ps)),
    decreases ps.len(),
{
    let list = params(text);
    if ps.len() == 0 {
        lemma_filter_all(list, |q: Seq<char>| !has_param(ps, q));
    } else {
        let front = ps.drop_last();
        lemma_without_params(text, front);
        lemma_without_param(without_params(text, front), ps.last());
        let f = |q: Seq<char>| !has_param(front, q);
        let g = |q: Seq<char>| !same_param(q, ps.last());
        let both = |q: Seq<char>| !has_param(ps, q);
        assert forall|q: Seq<char>| #[trigger] both(q) == (f(q) && g(q)) by {
            lemma_has_param_last(ps, q);
        }
        lemma_filter_twice(list, f, g, both);
    }
}

/// A list has a parameter if its front has it or it is the last.
proof fn lemma_has_param_last(ps: Seq<Seq<char>>, q: Seq<char>)
    requires
        ps.len() > 0,
    ensures
        has_param(ps, q) == (has_param(ps.drop_last(), q) || same_param(q, ps.last())),
{
    let front = ps.drop_last();
    if has_param(ps, q) {
        let i = choose|i: int| 0 <= i < ps.len() && same_param(#[trigger] ps[i], q);
        if i < front.len() {
            assert(same_param(front[i], q));
        }
    }
    if has_param(front, q) {
        let i = choose|i: int| 0 <= i < front.len() && same_param(#[trigger] front[i], q);
        assert(same_param(ps[i], q));
    }
    if same_param(q, ps.last()) {
        assert(same_param(ps[ps.len() - 1], q));
    }
}

/// Adding parameters to a command line with closed quotes adds them to its parameters.
pub proof fn lemma_with_params(text: Seq<char>, ps: Seq<Seq<char>>)
    requires
        quotes_closed(text),
        param_list(ps),
    ensures
        params(with_params(text, ps)) == params_plus(params(text), ps),
        ps.len() > 0 && !quotes_closed(with_params(text, ps)) ==> !quotes_closed(ps.last()),
        ps.len() == 0 ==> quotes_closed(with_params(text, ps)),
    decreases ps.len(),
{
    if ps.len() > 0 {
        let front = ps.drop_last();
        assert forall|i: int| 0 <= i < front.len() implies is_param(#[trigger] front[i])
            && quotes_closed(front[i]) by {
            assert(front[i] == ps[i]);
        }
        lemma_with_params(text, front);
        let before = with_params(text, front);
        assert(quotes_closed(before));
        assert(is_param(ps[ps.len() - 1]));
        lemma_appended(before, ps.last());
    }
}

/// Adding parameters never shortens a command line, and keeps one that has them all.
proof fn lemma_with_params_kept(text: Seq<char>, ps: Seq<Seq<char>>)
    ensures
        with_params(text, ps).len() >= text.len(),
        (forall|i: int| 0 <= i < ps.len() ==> has_param(params(text), #[trigger] ps[i])) ==> {
            &&& with_params(text, ps) == text
            &&& params_plus(params(text), ps) == params(text)
        },
    decreases ps.len(),
{
    if ps.len() > 0 {
        let front = ps.drop_last();
        lemma_with_params_kept(text, front);
        if forall|i: int| 0 <= i < ps.len() ==> has_param(params(text), #[trigger] ps[i]) {
            assert forall|i: int| 0 <= i < front.len() implies has_param(
                params(text),
                #[trigger] front[i],
            ) by {
                assert(front[i] == ps[i]);
            }
            assert(has_param(params(text), ps[ps.len() - 1]));
        }
    }
}

/// After a merge the parameters of the command line are, in order: those that the source did
/// not own, then those that it is given, each once and only where it is not there yet. This
/// fails only where a new parameter would be written behind a quote that is left open.
pub proof fn law_merged_params(current: Seq<char>, owned: Option<Seq<char>>, new: Option<Seq<char>>)
    requires
        quotes_allow(current, owned, new),
    ensures
        params(merged_options(current, owned, new)) == params_plus(
            params_outside(params(current), optional_params(owned)),
            optional_params(given(new)),
        ),
{
    let rest = released(current, owned);
    lemma_without_params(current, optional_params(owned));
    assert(rest == without_params(current, optional_params(owned)));
    match given(new) {
        Some(v) => {
            lemma_params_list(v);
            lemma_with_params_kept(rest, params(v));
            if quotes_closed(rest) {
                lemma_with_params(rest, params(v));
            }
        },
        None => {},
    }
}

/// A list of parameters that is added to keeps what it has, in front, and gets what it is
/// given.
proof fn lemma_params_plus(list: Seq<Seq<char>>, ps: Seq<Seq<char>>)
    ensures
        list.is_prefix_of(params_plus(list, ps)),
        forall|i: int| 0 <= i < ps.len() ==> has_param(params_plus(list, ps), #[trigger] ps[i]),
    decreases ps.len(),
{
    if ps.len() > 0 {
        let front = ps.drop_last();
        lemma_params_plus(list, front);
        let before = params_plus(list, front);
        let after = params_plus(list, ps);
        assert forall|i: int| 0 <= i < ps.len() implies has_param(after, #[trigger] ps[i]) by {
            if i < front.len() {
                assert(front[i] == ps[i]);
                let j = choose|j: int| 0 <= j < before.len() && same_param(#[trigger] before[j], ps[i]);
                assert(after[j] == before[j]);
            } else if !has_param(before, ps.last()) {
                assert(after[after.len() - 1] == ps.last());
            }
        }
    } else {
        assert(list.is_prefix_of(list));
    }
}

/// A merge keeps every parameter that the source did not own, in order and in front.
pub proof fn law_merge_keeps_others(
    current: Seq<char>,
    owned: Option<Seq<char>>,
    new: Option<Seq<char>>,
)
    requires
        quotes_allow(current, owned, new),
    ensures
        params_outside(params(current), optional_params(owned)).is_prefix_of(
            params(merged_options(current, owned, new)),
        ),
{
    law_merged_params(current, owned, new);
    lemma_params_plus(
        params_outside(params(current), optional_params(owned)),
        optional_params(given(new)),
    );
}

/// After a merge the command line has every parameter that the source is given.
pub proof fn law_merge_adds_given(
    current: Seq<char>,
    owned: Option<Seq<char>>,
    new: Seq<char>,
    i: int,
)
    requires
        quotes_allow(current, owned, Some(new)),
        0 <= i < params(new).len(),
    ensures
        has_param(params(merged_options(current, owned, Some(new))), params(new)[i]),
{
    if new.len() == 0 {
        assert(params(new).len() == 0);
    }
    law_merged_params(current, owned, Some(new));
    lemma_params_plus(
        params_outside(params(current), optional_params(owned)),
        optional_params(given(Some(new))),
    );
}

/// After a source gives up what it owned, the command line has none of it.
pub proof fn law_release_removes_owned(current: Seq<char>, owned: Seq<char>, i: int)
    requires
        0 <= i < params(owned).len(),
    ensures
        !has_param(params(released(current, Some(owned))), params(owned)[i]),
{
    lemma_without_params(current, params(owned));
    let ps = params(owned);
    let keep = |q: Seq<char>| !has_param(ps, q);
    let left = params(current).filter(keep);
    lemma_filter_keeps(params(current), keep, |q: Seq<char>| true);
    if has_param(left, ps[i]) {
        let j = choose|j: int| 0 <= j < left.len() && same_param(#[trigger] left[j], ps[i]);
        assert(keep(left[j]));
        assert(same_param(ps[i], left[j]));
    }
}

/// Removing parameters writes what is left with single spaces if it takes anything out, and
/// keeps the text otherwise.
proof fn lemma_without_params_text(text: Seq<char>, ps: Seq<Seq<char>>)
    ensures
        (exists|i: int| 0 <= i < ps.len() && has_param(params(text), #[trigger] ps[i]))
            ==> without_params(text, ps) == joined(params_outside(params(text), ps)),
        !(exists|i: int| 0 <= i < ps.len() && has_param(params(text), #[trigger] ps[i]))
            ==> without_params(text, ps) == text,
    decreases ps.len(),
{
    let list = params(text);
    if ps.len() > 0 {
        let front = ps.drop_last();
        let before = without_params(text, front);
        lemma_without_params_text(text, front);
        lemma_without_params(text, front);
        lemma_without_params(text, ps);
        lemma_without_param(before, ps.last());
        assert(params_outside(list, ps) == other_params(params(before), ps.last()));
        let hit = exists|i: int| 0 <= i < front.len() && has_param(list, #[trigger] front[i]);
        if hit {
            let i = choose|i: int| 0 <= i < front.len() && has_param(list, #[trigger] front[i]);
            assert(has_param(list, ps[i]));
            if !has_param(params(before), ps.last()) {
                assert(without_params(text, ps) == before);
                assert(params(before) == params_outside(list, ps));
            }
        } else {
            assert(before == text);
            if has_param(list, ps.last()) {
                assert(has_param(list, ps[ps.len() - 1]));
            }
            if exists|i: int| 0 <= i < ps.len() && has_param(list, #[trigger] ps[i]) {
                let i = choose|i: int| 0 <= i < ps.len() && has_param(list, #[trigger] ps[i]);
                if i < front.len() {
                    assert(has_param(list, front[i]));
                }
            }
        }
    }
}

/// Every text of the sequence is one parameter that closes its quotes.
pub open spec fn closed_params(list: Seq<Seq<char>>) -> bool {
    forall|i: int|
        0 <= i < list.len() ==> is_param(#[trigger] list[i]) && quotes_closed(list[i])
}

/// A parameter behind joined ones is joined to them.
proof fn lemma_joined_push(list: Seq<Seq<char>>, p: Seq<char>)
    requires
        closed_params(list),
    ensures
        appended(joined(list), p) == joined(list.push(p)),
{
    assert(list.push(p).drop_last() =~= list);
    if list.len() == 0 {
        assert(appended(joined(list), p) =~= p);
    } else {
        let last = list[list.len() - 1];
        assert(is_param(last) && quotes_closed(last));
        lemma_param_end(last);
        assert(joined(list).last() == last.last());
        assert(joined(list).len() > 0);
    }
}

/// A parameter that closes its quotes ends in no separator.
proof fn lemma_param_end(p: Seq<char>)
    requires
        is_param(p),
        quotes_closed(p),
    ensures
        p.len() > 0,
        !separator(p.last()),
{
    if p.len() == 0 {
        assert(params(p).len() == 0);
    } else if separator(p.last()) {
        lemma_trailing_separator(p);
        let front = p.drop_last();
        assert(params(p)[0] == p);
        lemma_params_shorter(front);
    }
}

/// A list that is added to stays one of parameters.
proof fn lemma_plus_list(list: Seq<Seq<char>>, ps: Seq<Seq<char>>)
    requires
        closed_params(list),
        param_list(ps),
    ensures
        param_list(params_plus(list, ps)),
        closed_params(ps) ==> closed_params(params_plus(list, ps)),
    decreases ps.len(),
{
    if ps.len() > 0 {
        let front = ps.drop_last();
        assert forall|i: int| 0 <= i < front.len() implies is_param(#[trigger] front[i])
            && quotes_closed(front[i]) by {
            assert(front[i] == ps[i]);
        }
        lemma_plus_list(list, front);
        assert(is_param(ps[ps.len() - 1]));
    }
}

/// Adding parameters to joined ones joins them.
proof fn lemma_with_params_joined(list: Seq<Seq<char>>, ps: Seq<Seq<char>>)
    requires
        closed_params(list),
        param_list(ps),
    ensures
        with_params(joined(list), ps) == joined(params_plus(list, ps)),
    decreases ps.len(),
{
    if ps.len() > 0 {
        let front = ps.drop_last();
        assert forall|i: int| 0 <= i < front.len() implies is_param(#[trigger] front[i])
            && quotes_closed(front[i]) by {
            assert(front[i] == ps[i]);
        }
        lemma_with_params_joined(list, front);
        lemma_plus_list(list, front);
        let before = params_plus(list, front);
        lemma_joined(before);
        lemma_joined_push(before, ps.last());
    }
}

/// What is added to a list is gone again when it is taken out.
proof fn lemma_outside_plus(list: Seq<Seq<char>>, ps: Seq<Seq<char>>, qs: Seq<Seq<char>>)
    requires
        forall|i: int| 0 <= i < ps.len() ==> has_param(qs, #[trigger] ps[i]),
    ensures
        params_outside(params_plus(list, ps), qs) == params_outside(list, qs),
    decreases ps.len(),
{
    if ps.len() > 0 {
        let front = ps.drop_last();
        assert forall|i: int| 0 <= i < front.len() implies has_param(qs, #[trigger] front[i]) by {
            assert(front[i] == ps[i]);
        }
        lemma_outside_plus(list, front, qs);
        let before = params_plus(list, front);
        assert(has_param(qs, ps[ps.len() - 1]));
        assert(before.push(ps.last()).drop_last() =~= before);
        reveal(Seq::filter);
    }
}

/// Parameters that are added to a list that has none of them come behind it, each once.
proof fn lemma_plus_behind(list: Seq<Seq<char>>, ps: Seq<Seq<char>>)
    requires
        forall|i: int| 0 <= i < ps.len() ==> !has_param(list, #[trigger] ps[i]),
    ensures
        params_plus(list, ps) == list + params_plus(Seq::empty(), ps),
    decreases ps.len(),
{
    if ps.len() == 0 {
        assert(list + Seq::<Seq<char>>::empty() =~= list);
    } else {
        let front = ps.drop_last();
        let p = ps.last();
        assert forall|i: int| 0 <= i < front.len() implies !has_param(list, #[trigger] front[i]) by {
            assert(front[i] == ps[i]);
        }
        lemma_plus_behind(list, front);
        assert(!has_param(list, ps[ps.len() - 1]));
        let own = params_plus(Seq::empty(), front);
        let all = list + own;
        if has_param(own, p) {
            let i = choose|i: int| 0 <= i < own.len() && same_param(#[trigger] own[i], p);
            assert(all[list.len() + i] == own[i]);
        } else if has_param(all, p) {
            let i = choose|i: int| 0 <= i < all.len() && same_param(#[trigger] all[i], p);
            if i < list.len() {
                assert(all[i] == list[i]);
            } else {
                assert(all[i] == own[i - list.len()]);
            }
        }
        assert(all.push(p) =~= list + own.push(p));
    }
}

/// Parameters outside `ps` are none of `ps`.
proof fn lemma_outside_has_none(list: Seq<Seq<char>>, ps: Seq<Seq<char>>)
    ensures
        forall|i: int| 0 <= i < ps.len() ==> !has_param(
            params_outside(list, ps),
            #[trigger] ps[i],
        ),
        closed_params(list) ==> closed_params(params_outside(list, ps)),
{
    let keep = |q: Seq<char>| !has_param(ps, q);
    let left = list.filter(keep);
    lemma_filter_keeps(list, keep, |q: Seq<char>| true);
    assert forall|i: int| 0 <= i < ps.len() implies !has_param(left, #[trigger] ps[i]) by {
        if has_param(left, ps[i]) {
            let j = choose|j: int| 0 <= j < left.len() && same_param(#[trigger] left[j], ps[i]);
            assert(keep(left[j]));
            assert(same_param(ps[i], left[j]));
        }
    }
    if closed_params(list) {
        lemma_filter_keeps(list, keep, |q: Seq<char>| is_param(q) && quotes_closed(q));
    }
}

/// A list without any of `ps` is not shortened by taking `ps` out.
proof fn lemma_outside_none(list: Seq<Seq<char>>, ps: Seq<Seq<char>>)
    requires
        forall|i: int| 0 <= i < ps.len() ==> !has_param(list, #[trigger] ps[i]),
    ensures
        params_outside(list, ps) == list,
{
    assert forall|j: int| 0 <= j < list.len() implies !has_param(ps, #[trigger] list[j]) by {
        if has_param(ps, list[j]) {
            let i = choose|i: int| 0 <= i < ps.len() && same_param(#[trigger] ps[i], list[j]);
            assert(same_param(list[j], ps[i]));
        }
    }
    lemma_filter_all(list, |q: Seq<char>| !has_param(ps, q));
}

/// Giving a source arguments and taking them away again restores the command line. For that it
/// has to be written with single spaces, to close its quotes and to have none of the given
/// parameters, or no parameter is given.
pub proof fn law_set_then_release(current: Seq<char>, new: Seq<char>)
    requires
        params(new).len() > 0 ==> {
            &&& quotes_closed(current)
            &&& joined(params(current)) == current
            &&& forall|i: int|
                0 <= i < params(new).len() ==> !has_param(
                    params(current),
                    #[trigger] params(new)[i],
                )
        },
    ensures
        released(merged_options(current, None, Some(new)), given(Some(new))) == current,
{
    if new.len() > 0 {
        let ps = params(new);
        let list = params(current);
        let set = with_params(current, ps);
        if ps.len() > 0 {
            lemma_params_list(new);
            lemma_with_params(current, ps);
            lemma_params_plus(list, ps);
            assert forall|i: int| 0 <= i < ps.len() implies has_param(ps, #[trigger] ps[i]) by {
                assert(same_param(ps[i], ps[i]));
            }
            lemma_outside_plus(list, ps, ps);
            lemma_outside_none(list, ps);
            assert(has_param(params(set), ps[0]));
            lemma_without_params_text(set, ps);
        }
    }
}

/// What is left when a source gives up what it was just given.
proof fn lemma_set_then_release(rest: Seq<char>, ps: Seq<Seq<char>>)
    requires
        quotes_closed(rest),
        param_list(ps),
        ps.len() > 0,
    ensures
        without_params(with_params(rest, ps), ps) == joined(params_outside(params(rest), ps)),
        closed_params(params_outside(params(rest), ps)),
{
    let merged = with_params(rest, ps);
    lemma_params_list(rest);
    lemma_with_params(rest, ps);
    lemma_params_plus(params(rest), ps);
    assert(has_param(params(merged), ps[0]));
    lemma_without_params_text(merged, ps);
    assert forall|i: int| 0 <= i < ps.len() implies has_param(ps, #[trigger] ps[i]) by {
        assert(same_param(ps[i], ps[i]));
    }
    lemma_outside_plus(params(rest), ps, ps);
    lemma_outside_has_none(params(rest), ps);
}

/// When a request is repeated, the command line is written anew with single spaces: what the
/// source does not own, then what it is given, each parameter once.
pub proof fn law_repeated_merge(current: Seq<char>, owned: Option<Seq<char>>, new: Seq<char>)
    requires
        quotes_closed(released(current, owned)),
        params(new).len() > 0,
    ensures
        ({
            let merged = merged_options(current, owned, Some(new));
            merged_options(merged, Some(new), Some(new)) == joined(
                params_outside(params(released(current, owned)), params(new)) + params_plus(
                    Seq::empty(),
                    params(new),
                ),
            )
        }),
{
    let rest = released(current, owned);
    let ps = params(new);
    lemma_nonempty(new);
    lemma_params_list(new);
    lemma_set_then_release(rest, ps);
    let left = params_outside(params(rest), ps);
    lemma_outside_has_none(params(rest), ps);
    lemma_with_params_joined(left, ps);
    lemma_plus_behind(left, ps);
}

/// A text with a parameter is not empty.
proof fn lemma_nonempty(text: Seq<char>)
    ensures
        params(text).len() > 0 ==> text.len() > 0,
{
}

/// A request that has been made twice changes nothing the third time.
pub proof fn law_third_merge(current: Seq<char>, owned: Option<Seq<char>>, new: Seq<char>)
    requires
        quotes_closed(released(current, owned)) || params(new).len() == 0,
    ensures
        ({
            let once = merged_options(current, owned, Some(new));
            let twice = merged_options(once, given(Some(new)), Some(new));
            merged_options(twice, given(Some(new)), Some(new)) == twice
        }),
{
    let once = merged_options(current, owned, Some(new));
    let ps = params(new);
    if new.len() > 0 && ps.len() > 0 {
        let rest = released(current, owned);
        let left = params_outside(params(rest), ps);
        lemma_params_list(new);
        lemma_set_then_release(rest, ps);
        assert(released(once, Some(new)) == joined(left));
        lemma_joined(left);
        lemma_outside_has_none(params(rest), ps);
        lemma_outside_none(left, ps);
        law_repeated_merge(current, owned, new);
        law_repeated_merge(once, Some(new), new);
    }
}

/// Joined parameters have no character that none of them has, but for spaces.
proof fn lemma_joined_lacks(ps: Seq<Seq<char>>, c: char)
    requires
        c != ' ',
        forall|i: int| 0 <= i < ps.len() ==> lacks(#[trigger] ps[i], c),
    ensures
        lacks(joined(ps), c),
    decreases ps.len(),
{
    if ps.len() == 1 {
        assert(lacks(ps[0], c));
    } else if ps.len() > 1 {
        let front = ps.drop_last();
        assert forall|i: int| 0 <= i < front.len() implies lacks(#[trigger] front[i], c) by {
            assert(front[i] == ps[i]);
        }
        lemma_joined_lacks(front, c);
        assert(lacks(ps[ps.len() - 1], c));
        let head = joined(front);
        let all = joined(ps);
        assert forall|i: int| 0 <= i < all.len() implies #[trigger] all[i] != c by {
            if i < head.len() {
                assert(all[i] == head[i]);
            } else if i > head.len() {
                assert(all[i] == ps.last()[i - head.len() - 1]);
            }
        }
    }
}

/// Removing parameters brings no character.
proof fn lemma_without_params_lacks(text: Seq<char>, ps: Seq<Seq<char>>, c: char)
    requires
        c != ' ',
        lacks(text, c),
    ensures
        lacks(without_params(text, ps), c),
    decreases ps.len(),
{
    if ps.len() > 0 {
        let before = without_params(text, ps.drop_last());
        let p = ps.last();
        lemma_without_params_lacks(text, ps.drop_last(), c);
        if has_param(params(before), p) {
            lemma_params_lack(before, c);
            lemma_filter_keeps(
                params(before),
                |q: Seq<char>| !same_param(q, p),
                |q: Seq<char>| lacks(q, c),
            );
            lemma_joined_lacks(other_params(params(before), p), c);
        }
    }
}

/// Adding parameters brings only their characters, and spaces.
proof fn lemma_with_params_lacks(text: Seq<char>, ps: Seq<Seq<char>>, c: char)
    requires
        c != ' ',
        lacks(text, c),
        forall|i: int| 0 <= i < ps.len() ==> lacks(#[trigger] ps[i], c),
    ensures
        lacks(with_params(text, ps), c),
    decreases ps.len(),
{
    if ps.len() > 0 {
        let front = ps.drop_last();
        assert forall|i: int| 0 <= i < front.len() implies lacks(#[trigger] front[i], c) by {
            assert(front[i] == ps[i]);
        }
        let before = with_params(text, front);
        lemma_with_params_lacks(text, front, c);
        assert(lacks(ps[ps.len() - 1], c));
        let all = appended(before, ps.last());
        assert forall|i: int| 0 <= i < all.len() implies #[trigger] all[i] != c by {
            if i < before.len() {
                assert(all[i] == before[i]);
            } else if before.len() > 0 && !separator(before.last()) {
                if i > before.len() {
                    assert(all[i] == ps.last()[i - before.len() - 1]);
                }
            } else {
                assert(all[i] == ps.last()[i - before.len()]);
            }
        }
    }
}

/// A merged command line has only characters of the one before and of the given arguments, and
/// spaces.
pub proof fn law_merge_brings_no_character(
    current: Seq<char>,
    owned: Option<Seq<char>>,
    new: Option<Seq<char>>,
    c: char,
)
    requires
        c != ' ',
        lacks(current, c),
        given(new) matches Some(v) ==> lacks(v, c),
    ensures
        lacks(merged_options(current, owned, new), c),
{
    let rest = released(current, owned);
    match owned {
        Some(v) => {
            lemma_without_params_lacks(current, params(v), c);
        },
        None => {},
    }
    match given(new) {
        Some(v) => {
            lemma_params_lack(v, c);
            lemma_with_params_lacks(rest, params(v), c);
        },
        None => {},
    }
}

/// Removing two groups of parameters is removing one after the other.
proof fn lemma_without_params_add(text: Seq<char>, ps: Seq<Seq<char>>, qs: Seq<Seq<char>>)
    ensures
        without_params(text, ps + qs) == without_params(without_params(text, ps), qs),
    decreases qs.len(),
{
    if qs.len() == 0 {
        assert(ps + qs =~= ps);
    } else {
        assert((ps + qs).drop_last() =~= ps + qs.drop_last());
        lemma_without_params_add(text, ps, qs.drop_last());
    }
}

/// Adding two groups of parameters is adding one after the other.
proof fn lemma_with_params_add(text: Seq<char>, ps: Seq<Seq<char>>, qs: Seq<Seq<char>>)
    ensures
        with_params(text, ps + qs) == with_params(with_params(text, ps), qs),
    decreases qs.len(),
{
    if qs.len() == 0 {
        assert(ps + qs =~= ps);
    } else {
        assert((ps + qs).drop_last() =~= ps + qs.drop_last());
        lemma_with_params_add(text, ps, qs.drop_last());
    }
}

/// A merge takes away what was owned and then adds what is given. To be given an empty text is to
/// be given nothing, and where nothing is owned or given the command line is kept as it is
/// written.
pub proof fn law_merge_in_turn(current: Seq<char>, owned: Option<Seq<char>>, new: Option<Seq<char>>)
    ensures
        merged_options(current, owned, new) == merged_options(
            merged_options(current, owned, None),
            None,
            new,
        ),
        merged_options(current, owned, Some(Seq::empty())) == merged_options(current, owned, None),
        merged_options(current, None, None) == current,
        merged_options(current, Some(Seq::empty()), new) == merged_options(current, None, new),
{
    assert(params(Seq::empty()) =~= Seq::empty());
}

/// To own or to be given two texts, with white space between them, is to own or be given one after
/// the other.
pub proof fn law_merge_piecewise(current: Seq<char>, a: Seq<char>, c: char, b: Seq<char>)
    requires
        quotes_closed(a),
        ends_param(c),
    ensures
        merged_options(current, Some(a.push(c) + b), None) == merged_options(
            merged_options(current, Some(a), None),
            Some(b),
            None,
        ),
        merged_options(current, None, Some(a.push(c) + b)) == merged_options(
            merged_options(current, None, Some(a)),
            None,
            Some(b),
        ),
{
    law_params_apart(a, c, b);
    lemma_without_params_add(current, params(a), params(b));
    lemma_with_params_add(current, params(a), params(b));
    assert((a.push(c) + b).len() > 0);
    if a.len() == 0 {
        assert(params(a) =~= Seq::empty());
    }
    if b.len() == 0 {
        assert(params(b) =~= Seq::empty());
    }
}

/// To take away one parameter is to write the others anew, in order and with single spaces, or to
/// keep the command line as it is written if it has no such parameter.
pub proof fn law_release_one(current: Seq<char>, p: Seq<char>)
    requires
        params(p) == seq![p],
    ensures
        (forall|i: int|
            0 <= i < params(current).len() ==> !same_param(#[trigger] params(current)[i], p))
            ==> merged_options(current, Some(p), None) == current,
        (exists|i: int|
            0 <= i < params(current).len() && same_param(#[trigger] params(current)[i], p))
            ==> merged_options(current, Some(p), None) == joined(
            params(current).filter(|q: Seq<char>| !same_param(q, p)),
        ),
{
    lemma_one_step(current, p);
}

/// To add one parameter is to write it behind the command line, with a space before it unless
/// nothing or white space precedes, or to keep the command line if it has such a parameter.
pub proof fn law_add_one(current: Seq<char>, p: Seq<char>)
    requires
        params(p) == seq![p],
    ensures
        (exists|i: int|
            0 <= i < params(current).len() && same_param(#[trigger] params(current)[i], p))
            ==> merged_options(current, None, Some(p)) == current,
        (forall|i: int|
            0 <= i < params(current).len() ==> !same_param(#[trigger] params(current)[i], p))
            ==> merged_options(current, None, Some(p)) == (if current.len() == 0 || ends_param(
            current.last(),
        ) {
            current + p
        } else {
            current + " "@ + p
        }),
{
    reveal_strlit(" ");
    lemma_one_step(current, p);
    lemma_nonempty(p);
    assert(current.push(' ') =~= current + " "@);
}

/// One parameter is removed or added in one step.
proof fn lemma_one_step(current: Seq<char>, p: Seq<char>)
    requires
        params(p) == seq![p],
    ensures
        without_params(current, params(p)) == without_param(current, p),
        with_params(current, params(p)) == with_param(current, p),
{
    let ps = params(p);
    assert(ps.drop_last() =~= Seq::empty());
    assert(without_params(current, ps.drop_last()) == current);
    assert(with_params(current, ps.drop_last()) == current);
}

} // verus!
