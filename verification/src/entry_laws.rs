//! What changing the arguments of a source does to an entry.

use vstd::prelude::*;

use crate::bls::{
    config_text, config_verity, parsed_config, standard_key, ConfigView, TypeView,
    COMPOSEFS_CMDLINE,
};
use crate::bls_laws::{
    config_valid, extra_valid, key_text, law_config_round_trip, lemma_extra_with_field,
    lemma_extra_without_field, lemma_standard_keys, lemma_trimmed_ends, settled, value_text,
};
use crate::cmdline::{
    first_value, has_param, joined, param_key, param_value, params, quotes_closed, same_key,
    same_param,
};
use crate::entries::{applied, current_options, owned_options};
use crate::error::{BlsError, ErrorView};
use crate::fields::{
    has_key, last_value, lemma_last_value_has, lemma_with_field,
    lemma_without_absent, lemma_without_field, with_field, without_field, Field,
};
use crate::merge_laws::{
    law_merge_brings_no_character, law_merged_params, law_repeated_merge, law_set_then_release,
    law_third_merge, optional_params, params_outside, params_plus, quotes_allow, released,
};
use crate::source::{
    given, merged_options, source_key, source_name_char, valid_source_name,
    OPTIONS_SOURCE_KEY_PREFIX,
};
use crate::text::trimmed;

verus! {

/// The entry that is there after a request: changed, or as it was.
pub open spec fn config_after(
    cfg: ConfigView,
    name: Seq<char>,
    new: Option<Seq<char>>,
) -> ConfigView {
    match applied(cfg, name, new) {
        Ok(Some(changed)) => changed,
        _ => cfg,
    }
}

/// The command line of an entry; empty if it has none.
pub open spec fn config_options(cfg: ConfigView) -> Seq<char> {
    match cfg.cfg_type {
        TypeView::NonEFI { options, .. } => current_options(options),
        _ => Seq::empty(),
    }
}

/// Source names give different keys.
proof fn lemma_source_keys(a: Seq<char>, b: Seq<char>)
    ensures
        source_key(a) == source_key(b) ==> a == b,
{
    let n = OPTIONS_SOURCE_KEY_PREFIX@.len() as int;
    assert(source_key(a).skip(n) =~= a);
    assert(source_key(b).skip(n) =~= b);
}

/// After a request the source owns what it is given, and the command line is the merged one.
/// Every other field is as it was, and so is what every other source owns.
pub proof fn law_request_result(cfg: ConfigView, name: Seq<char>, new: Option<Seq<char>>)
    requires
        cfg.cfg_type is NonEFI,
        valid_source_name(name),
    ensures
        ({
            let after = config_after(cfg, name, new);
            &&& applied(cfg, name, new) is Ok
            &&& after.cfg_type is NonEFI
            &&& config_options(after) == merged_options(
                config_options(cfg),
                owned_options(cfg.extra, name),
                new,
            )
            &&& owned_options(after.extra, name) == given(new)
            &&& after.cfg_type->linux == cfg.cfg_type->linux
            &&& after.cfg_type->initrd == cfg.cfg_type->initrd
            &&& after.title == cfg.title
            &&& after.version == cfg.version
            &&& after.machine_id == cfg.machine_id
            &&& after.sort_key == cfg.sort_key
            &&& forall|key: Seq<char>|
                key != source_key(name) ==> #[trigger] last_value(after.extra, key) == last_value(
                    cfg.extra,
                    key,
                )
            &&& forall|other: Seq<char>|
                other != name ==> #[trigger] owned_options(after.extra, other) == owned_options(
                    cfg.extra,
                    other,
                )
        }),
{
    let after = config_after(cfg, name, new);
    let key = source_key(name);
    match given(new) {
        Some(v) => {
            lemma_with_field(cfg.extra, key, v);
        },
        None => {
            lemma_without_field(cfg.extra, key);
        },
    }
    assert forall|other: Seq<char>| other != name implies #[trigger] owned_options(
        after.extra,
        other,
    ) == owned_options(cfg.extra, other) by {
        lemma_source_keys(other, name);
        assert(last_value(after.extra, source_key(other)) == last_value(
            cfg.extra,
            source_key(other),
        ));
    }
}

/// After a request the parameters of the entry are those that the source did not own, in
/// order, and then those that it is given, as far as they were not there. No parameter may have
/// to be written behind an open quote.
pub proof fn law_request_params(cfg: ConfigView, name: Seq<char>, new: Option<Seq<char>>)
    requires
        cfg.cfg_type is NonEFI,
        valid_source_name(name),
        quotes_allow(config_options(cfg), owned_options(cfg.extra, name), new),
    ensures
        params(config_options(config_after(cfg, name, new))) == params_plus(
            params_outside(
                params(config_options(cfg)),
                optional_params(owned_options(cfg.extra, name)),
            ),
            optional_params(given(new)),
        ),
{
    law_request_result(cfg, name, new);
    law_merged_params(config_options(cfg), owned_options(cfg.extra, name), new);
}

/// A source that owns nothing and is given nothing changes nothing.
pub proof fn law_nothing_given(cfg: ConfigView, name: Seq<char>, new: Option<Seq<char>>)
    requires
        cfg.cfg_type is NonEFI,
        owned_options(cfg.extra, name) is None,
        given(new) is None,
    ensures
        applied(cfg, name, new) == Ok::<_, ErrorView>(None::<ConfigView>),
{
}

/// Taking its arguments from a source a second time changes nothing.
pub proof fn law_clear_twice(cfg: ConfigView, name: Seq<char>, new: Option<Seq<char>>)
    requires
        cfg.cfg_type is NonEFI,
        valid_source_name(name),
        given(new) is None,
    ensures
        applied(config_after(cfg, name, new), name, new) == Ok::<_, ErrorView>(None::<ConfigView>),
{
    law_request_result(cfg, name, new);
    law_nothing_given(config_after(cfg, name, new), name, new);
}

/// Repeating a request changes nothing exactly if its result is already written as a repetition
/// writes it: with single spaces, and with the parameters of the source at the end, each once.
pub proof fn law_repeat(cfg: ConfigView, name: Seq<char>, new: Seq<char>)
    requires
        cfg.cfg_type is NonEFI,
        valid_source_name(name),
        quotes_closed(released(config_options(cfg), owned_options(cfg.extra, name)))
            || params(new).len() == 0,
    ensures
        ({
            let after = config_after(cfg, name, Some(new));
            let rest = released(config_options(cfg), owned_options(cfg.extra, name));
            applied(after, name, Some(new)) == Ok::<_, ErrorView>(None::<ConfigView>) <==> (
            params(new).len() == 0 || config_options(after) == joined(
                params_outside(params(rest), params(new)) + params_plus(
                    Seq::empty(),
                    params(new),
                ),
            ))
        }),
{
    let current = config_options(cfg);
    let owned = owned_options(cfg.extra, name);
    let after = config_after(cfg, name, Some(new));
    law_request_result(cfg, name, Some(new));
    if params(new).len() > 0 {
        assert(new.len() > 0) by {
            if new.len() == 0 {
                assert(params(new).len() == 0);
            }
        }
        law_repeated_merge(current, owned, new);
    }
}

/// A request that has been made twice changes nothing the third time.
pub proof fn law_third_request(cfg: ConfigView, name: Seq<char>, new: Seq<char>)
    requires
        cfg.cfg_type is NonEFI,
        valid_source_name(name),
        quotes_closed(released(config_options(cfg), owned_options(cfg.extra, name)))
            || params(new).len() == 0,
    ensures
        ({
            let once = config_after(cfg, name, Some(new));
            let twice = config_after(once, name, Some(new));
            applied(twice, name, Some(new)) == Ok::<_, ErrorView>(None::<ConfigView>)
        }),
{
    let once = config_after(cfg, name, Some(new));
    let twice = config_after(once, name, Some(new));
    law_request_result(cfg, name, Some(new));
    law_request_result(once, name, Some(new));
    law_third_merge(config_options(cfg), owned_options(cfg.extra, name), new);
}

/// Dropping a field that was just set behind the others restores them.
proof fn lemma_set_then_drop(fields: Seq<Field>, key: Seq<char>, value: Seq<char>)
    requires
        !has_key(fields, key),
    ensures
        without_field(with_field(fields, key, value), key) == fields,
{
    reveal(Seq::filter);
    let set = with_field(fields, key, value);
    assert(set.drop_last() =~= fields);
    lemma_without_absent(fields, key);
}

/// Giving a source arguments for the first time and taking them away again restores the entry.
/// For that its command line has to be written with single spaces, to close its quotes and to
/// have none of the given parameters, or no parameter is given.
pub proof fn law_set_then_clear(cfg: ConfigView, name: Seq<char>, new: Seq<char>)
    requires
        cfg.cfg_type is NonEFI,
        valid_source_name(name),
        !has_key(cfg.extra, source_key(name)),
        params(new).len() > 0 ==> {
            &&& quotes_closed(config_options(cfg))
            &&& joined(params(config_options(cfg))) == config_options(cfg)
            &&& forall|i: int|
                0 <= i < params(new).len() ==> !has_param(
                    params(config_options(cfg)),
                    #[trigger] params(new)[i],
                )
        },
    ensures
        ({
            let back = config_after(config_after(cfg, name, Some(new)), name, None);
            &&& config_options(back) == config_options(cfg)
            &&& back == (ConfigView { cfg_type: back.cfg_type, ..cfg })
            &&& back.cfg_type->linux == cfg.cfg_type->linux
            &&& back.cfg_type->initrd == cfg.cfg_type->initrd
        }),
{
    let key = source_key(name);
    let set = config_after(cfg, name, Some(new));
    let back = config_after(set, name, None);
    lemma_last_value_has(cfg.extra, key);
    law_request_result(cfg, name, Some(new));
    law_request_result(set, name, None);
    law_set_then_release(config_options(cfg), new);
    if new.len() > 0 {
        lemma_set_then_drop(cfg.extra, key, new);
        assert(set.extra == with_field(cfg.extra, key, new));
        assert(back.extra == without_field(set.extra, key));
    }
}

/// The key of a source can stand as a key, and has no meaning of its own.
proof fn lemma_source_key(name: Seq<char>)
    requires
        valid_source_name(name),
    ensures
        key_text(source_key(name)),
        !standard_key(source_key(name)),
{
    let prefix = OPTIONS_SOURCE_KEY_PREFIX@;
    let key = source_key(name);
    reveal_strlit("x-options-source-");
    lemma_standard_keys();
    assert(key[0] == 'x');
    assert forall|i: int| 0 <= i < key.len() implies #[trigger] key[i] != ' ' && key[i] != '\n' by {
        if i < prefix.len() {
            assert(key[i] == prefix[i]);
        } else {
            assert(key[i] == name[i - prefix.len()]);
            assert(source_name_char(name[i - prefix.len()]));
        }
    }
}

/// An entry that a request changed can be written and read back. For that the given arguments
/// have to be one line without white space at its ends, and so does the merged command line.
proof fn lemma_after_valid(cfg: ConfigView, name: Seq<char>, new: Option<Seq<char>>)
    requires
        config_valid(cfg),
        cfg.cfg_type is NonEFI,
        valid_source_name(name),
        given(new) matches Some(v) ==> value_text(v),
        trimmed(config_options(config_after(cfg, name, new))) == config_options(
            config_after(cfg, name, new),
        ),
    ensures
        config_valid(settled(config_after(cfg, name, new))),
{
    let after = config_after(cfg, name, new);
    let key = source_key(name);
    let merged = config_options(after);
    law_request_result(cfg, name, new);
    lemma_source_key(name);
    match given(new) {
        Some(v) => {
            lemma_extra_with_field(cfg.extra, key, v);
        },
        None => {
            lemma_extra_without_field(cfg.extra, key);
        },
    }
    assert(extra_valid(after.extra));
    law_merge_brings_no_character(
        config_options(cfg),
        owned_options(cfg.extra, name),
        new,
        '\n',
    );
    if merged.len() > 0 {
        lemma_trimmed_ends(merged);
    }
}

/// What a request wrote is what is read afterwards: the merged command line, the arguments of
/// the source under its key, and every other field as it was. For that the given arguments have
/// to be one line without white space at its ends, and the merged command line may have none
/// there either. An empty command line is read back as none.
pub proof fn law_written_entry_reads_back(
    cfg: ConfigView,
    name: Seq<char>,
    new: Option<Seq<char>>,
)
    requires
        config_valid(cfg),
        cfg.cfg_type is NonEFI,
        valid_source_name(name),
        given(new) matches Some(v) ==> value_text(v),
        trimmed(config_options(config_after(cfg, name, new))) == config_options(
            config_after(cfg, name, new),
        ),
    ensures
        parsed_config(config_text(config_after(cfg, name, new))) == Ok::<ConfigView, BlsError>(
            settled(config_after(cfg, name, new)),
        ),
        owned_options(settled(config_after(cfg, name, new)).extra, name) == given(new),
        config_options(settled(config_after(cfg, name, new))) == merged_options(
            config_options(cfg),
            owned_options(cfg.extra, name),
            new,
        ),
{
    let after = config_after(cfg, name, new);
    law_request_result(cfg, name, new);
    lemma_after_valid(cfg, name, new);
    law_config_round_trip(after);
    lemma_settled(after);
}

/// An entry without kernel arguments in place of empty ones has the same command line.
proof fn lemma_settled(cfg: ConfigView)
    ensures
        config_options(settled(cfg)) == config_options(cfg),
        settled(cfg).extra == cfg.extra,
{
    assert(config_options(settled(cfg)) =~= config_options(cfg));
}

/// Whether one of the parameters has the key `key`.
pub open spec fn has_key_param(ps: Seq<Seq<char>>, key: Seq<char>) -> bool {
    exists|i: int| 0 <= i < ps.len() && same_key(param_key(#[trigger] ps[i]), key)
}

/// The first value with a key when one more parameter comes behind.
proof fn lemma_first_value_push(ps: Seq<Seq<char>>, p: Seq<char>, key: Seq<char>)
    ensures
        first_value(ps.push(p), key) == (if has_key_param(ps, key) {
            first_value(ps, key)
        } else if same_key(param_key(p), key) {
            param_value(p)
        } else {
            None
        }),
        !has_key_param(ps, key) ==> first_value(ps, key) is None,
    decreases ps.len(),
{
    let all = ps.push(p);
    if ps.len() == 0 {
        assert(all.skip(1) =~= Seq::empty());
        assert(first_value(all.skip(1), key) is None);
    } else {
        let rest = ps.skip(1);
        assert(all.skip(1) =~= rest.push(p));
        lemma_first_value_push(rest, p, key);
        if same_key(param_key(ps[0]), key) {
        } else if has_key_param(ps, key) {
            let i = choose|i: int|
                0 <= i < ps.len() && same_key(param_key(#[trigger] ps[i]), key);
            assert(rest[i - 1] == ps[i]);
        } else if has_key_param(rest, key) {
            let i = choose|i: int|
                0 <= i < rest.len() && same_key(param_key(#[trigger] rest[i]), key);
            assert(ps[i + 1] == rest[i]);
        }
    }
}

/// Parameters without a key that are taken out do not change the first value with it.
proof fn lemma_first_value_filter(
    ps: Seq<Seq<char>>,
    keep: spec_fn(Seq<char>) -> bool,
    key: Seq<char>,
)
    requires
        forall|i: int|
            0 <= i < ps.len() && same_key(param_key(#[trigger] ps[i]), key) ==> keep(ps[i]),
    ensures
        first_value(ps.filter(keep), key) == first_value(ps, key),
        has_key_param(ps.filter(keep), key) == has_key_param(ps, key),
    decreases ps.len(),
{
    reveal(Seq::filter);
    if ps.len() > 0 {
        let front = ps.drop_last();
        let p = ps.last();
        assert forall|i: int|
            0 <= i < front.len() && same_key(param_key(#[trigger] front[i]), key) implies keep(
            front[i],
        ) by {
            assert(front[i] == ps[i]);
        }
        lemma_first_value_filter(front, keep, key);
        let kept = front.filter(keep);
        lemma_first_value_push(front, p, key);
        lemma_first_value_push(kept, p, key);
        lemma_has_key_push(front, p, key);
        lemma_has_key_push(kept, p, key);
        assert(front.push(p) =~= ps);
        assert(same_key(param_key(ps[ps.len() - 1]), key) ==> keep(p));
    }
}

/// A key occurs among parameters if it occurs in front or in the last.
proof fn lemma_has_key_push(ps: Seq<Seq<char>>, p: Seq<char>, key: Seq<char>)
    ensures
        has_key_param(ps.push(p), key) == (has_key_param(ps, key) || same_key(param_key(p), key)),
{
    let all = ps.push(p);
    if has_key_param(ps, key) {
        let i = choose|i: int| 0 <= i < ps.len() && same_key(param_key(#[trigger] ps[i]), key);
        assert(all[i] == ps[i]);
    }
    if same_key(param_key(p), key) {
        assert(all[ps.len() as int] == p);
    }
    if has_key_param(all, key) {
        let i = choose|i: int| 0 <= i < all.len() && same_key(param_key(#[trigger] all[i]), key);
        if i < ps.len() {
            assert(ps[i] == all[i]);
        }
    }
}

/// Parameters that come behind do not change the first value with a key that occurs.
proof fn lemma_first_value_plus(list: Seq<Seq<char>>, ps: Seq<Seq<char>>, key: Seq<char>)
    requires
        has_key_param(list, key),
    ensures
        has_key_param(params_plus(list, ps), key),
        first_value(params_plus(list, ps), key) == first_value(list, key),
    decreases ps.len(),
{
    if ps.len() > 0 {
        let before = params_plus(list, ps.drop_last());
        lemma_first_value_plus(list, ps.drop_last(), key);
        lemma_first_value_push(before, ps.last(), key);
        lemma_has_key_push(before, ps.last(), key);
    }
}

/// An entry still carries its composefs digest after a request of a source that owned no
/// parameter with that key. No parameter may have to be written behind an open quote.
pub proof fn law_digest_kept(
    cfg: ConfigView,
    name: Seq<char>,
    new: Option<Seq<char>>,
    digest: Seq<char>,
)
    requires
        cfg.cfg_type is NonEFI,
        valid_source_name(name),
        config_verity(cfg.cfg_type) == Ok::<Seq<char>, BlsError>(digest),
        quotes_allow(config_options(cfg), owned_options(cfg.extra, name), new),
        forall|i: int|
            0 <= i < optional_params(owned_options(cfg.extra, name)).len() ==> !same_key(
                param_key(#[trigger] optional_params(owned_options(cfg.extra, name))[i]),
                COMPOSEFS_CMDLINE@,
            ),
    ensures
        config_verity(settled(config_after(cfg, name, new)).cfg_type) == Ok::<
            Seq<char>,
            BlsError,
        >(digest),
{
    let key = COMPOSEFS_CMDLINE@;
    let list = params(config_options(cfg));
    let owned = optional_params(owned_options(cfg.extra, name));
    let added = optional_params(given(new));
    let after = config_after(cfg, name, new);
    law_request_result(cfg, name, new);
    law_request_params(cfg, name, new);
    let keep = |q: Seq<char>| !has_param(owned, q);
    assert forall|i: int|
        0 <= i < list.len() && same_key(param_key(#[trigger] list[i]), key) implies keep(list[i]) by {
        if has_param(owned, list[i]) {
            let j = choose|j: int| 0 <= j < owned.len() && same_param(#[trigger] owned[j], list[i]);
            assert(same_key(param_key(owned[j]), key));
        }
    }
    lemma_first_value_push(list, Seq::empty(), key);
    assert(has_key_param(list, key));
    lemma_first_value_filter(list, keep, key);
    lemma_first_value_plus(list.filter(keep), added, key);
    let merged = config_options(after);
    assert(first_value(params(merged), key) == first_value(list, key));
    assert(merged.len() > 0) by {
        if merged.len() == 0 {
            assert(params(merged).len() == 0);
        }
    }
}

/// A source has a name of at least one character, and a name has ASCII letters, digits, dashes and
/// underscores alone.
pub proof fn law_source_names(name: Seq<char>)
    ensures
        valid_source_name(name) <==> name.len() > 0 && forall|i: int|
            0 <= i < name.len() ==> {
                ||| '0' <= (#[trigger] name[i]) <= '9'
                ||| 'A' <= name[i] <= 'Z'
                ||| 'a' <= name[i] <= 'z'
                ||| name[i] == '-' || name[i] == '_'
            },
{
    assert forall|i: int| 0 <= i < name.len() implies (source_name_char(#[trigger] name[i]) <==> {
        ||| '0' <= name[i] <= '9'
        ||| 'A' <= name[i] <= 'Z'
        ||| 'a' <= name[i] <= 'z'
        ||| name[i] == '-' || name[i] == '_'
    }) by {}
}

/// What a text says, if it says anything.
pub open spec fn nonempty(text: Option<Seq<char>>) -> Option<Seq<char>> {
    if text matches Some(v) && v.len() > 0 {
        text
    } else {
        None
    }
}

/// What the fields of an entry record of the source `name`: the value under its key, verbatim.
pub open spec fn recorded(extra: Seq<Field>, name: Seq<char>) -> Option<Seq<char>> {
    nonempty(last_value(extra, "x-options-source-"@ + name))
}

/// What a source owns is, character for character, the value under its key. The key is the name
/// behind `x-options-source-`; without a name there is no source.
pub proof fn law_owned_is_recorded(extra: Seq<Field>, name: Seq<char>)
    ensures
        source_key(name) == "x-options-source-"@ + name,
        name.len() > 0 ==> owned_options(extra, name) == recorded(extra, name),
        name.len() == 0 ==> owned_options(extra, name) is None,
{
}

/// Whether `after` is what a request of the source `name` for `new` makes of the entry `before`:
/// its command line is the merge of the one before, what the source owned and what it is given;
/// the value under the key of the source is exactly what is given; all else is as it was.
pub open spec fn request_made(
    before: ConfigView,
    after: ConfigView,
    name: Seq<char>,
    new: Option<Seq<char>>,
) -> bool {
    let key = "x-options-source-"@ + name;
    &&& match (before.cfg_type, after.cfg_type) {
        (
            TypeView::NonEFI { linux, initrd, options },
            TypeView::NonEFI { linux: linux_after, initrd: initrd_after, options: options_after },
        ) => {
            &&& linux_after == linux
            &&& initrd_after == initrd
            &&& (match options_after {
                Some(v) => v,
                None => Seq::empty(),
            }) == merged_options(
                match options {
                    Some(v) => v,
                    None => Seq::empty(),
                },
                recorded(before.extra, name),
                new,
            )
        },
        _ => false,
    }
    &&& after.title == before.title
    &&& after.version == before.version
    &&& after.machine_id == before.machine_id
    &&& after.sort_key == before.sort_key
    &&& match new {
        Some(v) => if v.len() > 0 {
            last_value(after.extra, key) == Some(v)
        } else {
            recorded(after.extra, name) is None
        },
        None => recorded(after.extra, name) is None,
    }
    &&& forall|other: Seq<char>|
        other != key ==> #[trigger] last_value(after.extra, other) == last_value(
            before.extra,
            other,
        )
}

/// A request succeeds on every entry with a command line of its own, and makes of it what the
/// request says: the entry that it returns, or the entry as it was if it returns none.
pub proof fn law_request_made(cfg: ConfigView, name: Seq<char>, new: Option<Seq<char>>)
    requires
        cfg.cfg_type is NonEFI,
        name.len() > 0,
    ensures
        match applied(cfg, name, new) {
            Ok(Some(after)) => request_made(cfg, after, name, new),
            Ok(None) => request_made(cfg, cfg, name, new),
            Err(_) => false,
        },
{
    let key = source_key(name);
    match given(new) {
        Some(v) => {
            lemma_with_field(cfg.extra, key, v);
        },
        None => {
            lemma_without_field(cfg.extra, key);
        },
    }
}

/// A request changes nothing exactly if the command line is already the merged one and the record
/// already is what is given; otherwise it changes the command line or the record. An entry that
/// boots an EFI program, or nothing known, is refused.
pub proof fn law_when_changed(cfg: ConfigView, name: Seq<char>, new: Option<Seq<char>>)
    requires
        name.len() > 0,
    ensures
        cfg.cfg_type is EFI ==> applied(cfg, name, new) == Err::<Option<ConfigView>, _>(
            ErrorView::UkiEntry,
        ),
        cfg.cfg_type is Unknown ==> applied(cfg, name, new) == Err::<Option<ConfigView>, _>(
            ErrorView::UnknownEntryType,
        ),
        cfg.cfg_type matches TypeView::NonEFI { options, .. } ==> {
            let line = match options {
                Some(v) => v,
                None => Seq::empty(),
            };
            applied(cfg, name, new) == Ok::<_, ErrorView>(None::<ConfigView>) <==> (
            merged_options(line, recorded(cfg.extra, name), new) == line && recorded(
                cfg.extra,
                name,
            ) == nonempty(new))
        },
        applied(cfg, name, new) matches Ok(Some(after)) ==> {
            ||| after.cfg_type->options != Some(current_line(cfg))
            ||| recorded(after.extra, name) != recorded(cfg.extra, name)
        },
{
    if cfg.cfg_type is NonEFI {
        law_request_made(cfg, name, new);
    }
}

/// The command line of an entry as it is written; empty if there is none.
pub open spec fn current_line(cfg: ConfigView) -> Seq<char> {
    match cfg.cfg_type {
        TypeView::NonEFI { options: Some(v), .. } => v,
        _ => Seq::empty(),
    }
}

/// The record of a source takes the place of its earlier one, or comes behind all other fields;
/// where nothing is given it is gone. The other fields stay in order. The merged command line is
/// written even if it is empty.
pub proof fn law_record_in_place(cfg: ConfigView, name: Seq<char>, new: Option<Seq<char>>)
    requires
        name.len() > 0,
        applied(cfg, name, new) matches Ok(Some(_)),
    ensures
        ({
            let key = "x-options-source-"@ + name;
            let extra = (applied(cfg, name, new)->Ok_0->0).extra;
            match nonempty(new) {
                Some(v) => extra == with_field(cfg.extra, key, v),
                None => extra == without_field(cfg.extra, key),
            }
        }),
        (applied(cfg, name, new)->Ok_0->0).cfg_type->options == Some(
            merged_options(current_line(cfg), recorded(cfg.extra, name), new),
        ),
{
    law_request_made(cfg, name, new);
}

} // verus!
