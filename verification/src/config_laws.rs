//! How the lines of an entry are read and written, and which digest an entry carries.

use vstd::prelude::*;

use crate::bls::{
    all_values, config_of_fields, config_text, config_verity, digest_of_uki, entry_fields,
    extra_fields, fields_text, line_field, lines_fields, parsed_config, repeated_field, ConfigView,
    EfiKey, TypeView, EFI_EXT, UKI_NAME_PREFIX,
};
use crate::bls_laws::lemma_standard_keys;
use crate::cmdline::{param_key, param_value, params, quotes_closed, same_key};
use crate::cmdline_laws::{
    ends_param, law_first_value, law_one_param, law_param_parts, law_params_apart, law_quotes,
    law_same_key, unbroken,
};
use crate::error::BlsError;
use crate::fields::{
    distinct_keys, has_key, last_value, lemma_last_value_has, lemma_with_field, with_field, Field,
};
use crate::text::{after_last, lacks, split_on, white_space, without_prefix, without_suffix};
use crate::text_laws::{blank, law_affixes, law_cut, law_split, law_trimmed};

verus! {

/// A line holds the field whose key is its first word and whose value is the rest, without the
/// white space round them.
pub proof fn law_line_field(
    before: Seq<char>,
    key: Seq<char>,
    between: Seq<char>,
    value: Seq<char>,
    after: Seq<char>,
)
    requires
        blank(before) && blank(between) && blank(after),
        key.len() > 0 && lacks(key, ' '),
        !white_space(key[0]) && key[0] != '#',
        value.len() > 0 && !white_space(value[0]) && !white_space(value.last()),
    ensures
        line_field(before + key + " "@ + between + value + after) == Some((key, value)),
{
    reveal_strlit(" ");
    let t = key.push(' ') + (between + value);
    let line = before + key + " "@ + between + value + after;
    assert(line =~= before + t + after);
    assert(t[0] == key[0]);
    assert(t.last() == value.last());
    law_trimmed(before, t, after);
    law_cut(key, between + value, ' ');
    assert(t.take(key.len() as int) =~= key);
    assert(t.skip(key.len() as int + 1) =~= between + value + Seq::empty());
    law_trimmed(between, value, Seq::empty());
}

/// A blank line, a comment and a line of one word hold no field.
pub proof fn law_line_without_field(before: Seq<char>, rest: Seq<char>, after: Seq<char>)
    requires
        blank(before) && blank(after),
        rest.len() > 0 ==> !white_space(rest[0]) && !white_space(rest.last()),
        rest.len() == 0 || rest[0] == '#' || lacks(rest, ' '),
    ensures
        line_field(before + rest + after) is None,
{
    law_trimmed(before, rest, after);
    if lacks(rest, ' ') {
        law_cut(rest, Seq::empty(), ' ');
    }
}

/// The fields on two groups of lines.
proof fn lemma_lines_add(a: Seq<Seq<char>>, b: Seq<Seq<char>>)
    ensures
        lines_fields(a + b) == lines_fields(a) + lines_fields(b),
    decreases b.len(),
{
    if b.len() == 0 {
        assert(a + b =~= a);
        assert(lines_fields(a) + lines_fields(b) =~= lines_fields(a));
    } else {
        assert((a + b).drop_last() =~= a + b.drop_last());
        lemma_lines_add(a, b.drop_last());
        assert(lines_fields(a + b) =~= lines_fields(a) + lines_fields(b));
    }
}

/// The fields of an entry are those of its lines, one after the other.
pub proof fn law_entry_lines(a: Seq<char>, b: Seq<char>)
    ensures
        entry_fields(a + "\n"@ + b) == entry_fields(a) + entry_fields(b),
        lacks(b, '\n') ==> entry_fields(b) == (match line_field(b) {
            Some(f) => seq![f],
            None => Seq::empty(),
        }),
{
    reveal_strlit("\n");
    assert(a + "\n"@ + b =~= a.push('\n') + b);
    law_split(a, b, '\n');
    lemma_lines_add(split_on(a, '\n'), split_on(b, '\n'));
    if lacks(b, '\n') {
        let lines = seq![b];
        assert(lines.drop_last() =~= Seq::empty());
        assert(lines_fields(lines.drop_last()) =~= Seq::empty());
        assert(entry_fields(b) =~= (match line_field(b) {
            Some(f) => seq![f],
            None => Seq::empty(),
        }));
    }
}

/// Every value of a key counts, in order.
pub proof fn law_all_values(fields: Seq<Field>, f: Field, key: Seq<char>)
    ensures
        all_values(Seq::empty(), key) == Seq::<Seq<char>>::empty(),
        f.0 == key ==> all_values(fields.push(f), key) == all_values(fields, key).push(f.1),
        f.0 != key ==> all_values(fields.push(f), key) == all_values(fields, key),
{
    assert(fields.push(f).drop_last() =~= fields);
}

/// The keys that have a meaning of their own.
pub open spec fn meaning(key: Seq<char>) -> bool {
    seq![
        "title"@,
        "version"@,
        "linux"@,
        "initrd"@,
        "options"@,
        "efi"@,
        "uki"@,
        "machine-id"@,
        "sort-key"@,
    ].contains(key)
}

/// The keys with a meaning, one by one.
proof fn lemma_meaning(key: Seq<char>)
    ensures
        meaning(key) <==> (key == "title"@ || key == "version"@ || key == "linux"@ || key
            == "initrd"@ || key == "options"@ || key == "efi"@ || key == "uki"@ || key
            == "machine-id"@ || key == "sort-key"@),
{
    let keys = seq![
        "title"@,
        "version"@,
        "linux"@,
        "initrd"@,
        "options"@,
        "efi"@,
        "uki"@,
        "machine-id"@,
        "sort-key"@,
    ];
    assert(keys[0] == "title"@);
    assert(keys[1] == "version"@);
    assert(keys[2] == "linux"@);
    assert(keys[3] == "initrd"@);
    assert(keys[4] == "options"@);
    assert(keys[5] == "efi"@);
    assert(keys[6] == "uki"@);
    assert(keys[7] == "machine-id"@);
    assert(keys[8] == "sort-key"@);
}

/// What is read of a text is what its fields say: of a key that occurs more than once the last
/// value counts, and of `initrd` every value. The fields whose keys have no meaning are kept, each
/// key once.
pub proof fn law_parsed_fields(text: Seq<char>)
    ensures
        ({
            let fields = entry_fields(text);
            match parsed_config(text) {
                Ok(cfg) => {
                    &&& cfg.title == last_value(fields, "title"@)
                    &&& last_value(fields, "version"@) == Some(cfg.version)
                    &&& cfg.machine_id == last_value(fields, "machine-id"@)
                    &&& cfg.sort_key == last_value(fields, "sort-key"@)
                    &&& match cfg.cfg_type {
                        TypeView::NonEFI { linux, initrd, options } => {
                            &&& last_value(fields, "linux"@) == Some(linux)
                            &&& initrd == all_values(fields, "initrd"@)
                            &&& options == last_value(fields, "options"@)
                        },
                        TypeView::EFI { key, efi } => last_value(
                            fields,
                            if key == EfiKey::Efi {
                                "efi"@
                            } else {
                                "uki"@
                            },
                        ) == Some(efi),
                        TypeView::Unknown => false,
                    }
                    &&& distinct_keys(cfg.extra)
                    &&& forall|k: Seq<char>| #[trigger]
                        last_value(cfg.extra, k) == (if meaning(k) {
                            None
                        } else {
                            last_value(fields, k)
                        })
                },
                Err(_) => true,
            }
        }),
{
    lemma_extra_values(entry_fields(text));
}

/// The fields without a meaning, by key.
proof fn lemma_extra_values(fields: Seq<Field>)
    ensures
        distinct_keys(extra_fields(fields)),
        forall|k: Seq<char>| #[trigger]
            last_value(extra_fields(fields), k) == (if meaning(k) {
                None
            } else {
                last_value(fields, k)
            }),
    decreases fields.len(),
{
    if fields.len() > 0 {
        let front = fields.drop_last();
        let (key, value) = fields.last();
        lemma_extra_values(front);
        lemma_meaning(key);
        lemma_with_field(extra_fields(front), key, value);
        assert forall|k: Seq<char>| #[trigger] last_value(extra_fields(fields), k) == (if meaning(
            k,
        ) {
            None
        } else {
            last_value(fields, k)
        }) by {
            lemma_meaning(k);
            assert(last_value(extra_fields(front), k) == (if meaning(k) {
                None
            } else {
                last_value(front, k)
            }));
        }
    }
}

/// A text holds an entry if it has a version and exactly one of the fields that say what to boot.
pub proof fn law_when_parsed(text: Seq<char>)
    ensures
        ({
            let fields = entry_fields(text);
            let version = last_value(fields, "version"@) is Some;
            let linux = last_value(fields, "linux"@) is Some;
            let efi = last_value(fields, "efi"@) is Some;
            let uki = last_value(fields, "uki"@) is Some;
            match parsed_config(text) {
                Ok(cfg) => {
                    ||| version && linux && !efi && !uki && cfg.cfg_type is NonEFI
                    ||| version && !linux && efi && !uki && cfg.cfg_type is EFI
                        && cfg.cfg_type->key == EfiKey::Efi
                    ||| version && !linux && !efi && uki && cfg.cfg_type is EFI
                        && cfg.cfg_type->key == EfiKey::Uki
                },
                Err(BlsError::MissingVersion) => !version,
                Err(BlsError::MissingKernel) => version && !linux && !efi && !uki,
                Err(BlsError::ConflictingKernels) => version && (linux && efi || linux && uki || efi
                    && uki),
                Err(_) => false,
            }
        }),
{
}

/// One more line behind an entry, for a field whose key has no meaning, sets that field among the
/// others: in the place of the one with its key, or behind them all.
pub proof fn law_line_behind(text: Seq<char>, key: Seq<char>, value: Seq<char>)
    requires
        parsed_config(text) is Ok,
        key.len() > 0 && lacks(key, ' ') && lacks(key, '\n'),
        !white_space(key[0]) && key[0] != '#',
        !meaning(key),
        value.len() > 0 && lacks(value, '\n'),
        !white_space(value[0]) && !white_space(value.last()),
    ensures
        ({
            let cfg = parsed_config(text)->Ok_0;
            parsed_config(text + "\n"@ + (key + " "@ + value)) == Ok::<_, BlsError>(
                ConfigView { extra: with_field(cfg.extra, key, value), ..cfg },
            )
        }),
{
    reveal_strlit(" ");
    let line = key + " "@ + value;
    let fields = entry_fields(text);
    let none = Seq::<char>::empty();
    law_line_field(none, key, none, value, none);
    assert(none + key + " "@ + none + value + none =~= line);
    assert forall|i: int| 0 <= i < line.len() implies #[trigger] line[i] != '\n' by {
        if i < key.len() {
            assert(line[i] == key[i]);
        } else if i > key.len() {
            assert(line[i] == value[i - key.len() - 1]);
        }
    }
    law_entry_lines(text, line);
    let all = fields.push((key, value));
    assert(fields + seq![(key, value)] =~= all);
    assert(all.drop_last() =~= fields);
    lemma_meaning(key);
    law_all_values(fields, (key, value), "initrd"@);
    assert(config_of_fields(all) == Ok::<_, BlsError>(
        ConfigView {
            extra: with_field(parsed_config(text)->Ok_0.extra, key, value),
            ..parsed_config(text)->Ok_0
        },
    ));
}

/// One more line behind an entry, for a field whose key has a meaning, leaves the other fields
/// alone.
pub proof fn law_meaning_line_behind(text: Seq<char>, line: Seq<char>)
    requires
        lacks(line, '\n'),
        line_field(line) matches Some(f) && meaning(f.0),
        parsed_config(text) is Ok,
        parsed_config(text + "\n"@ + line) is Ok,
    ensures
        parsed_config(text + "\n"@ + line)->Ok_0.extra == parsed_config(text)->Ok_0.extra,
{
    let fields = entry_fields(text);
    let f = line_field(line)->0;
    law_entry_lines(text, line);
    lemma_meaning(f.0);
    assert(fields + seq![f] =~= fields.push(f));
    assert(fields.push(f).drop_last() =~= fields);
}

/// Lines without fields do not matter: texts with the same fields hold the same entry.
pub proof fn law_only_fields_matter(a: Seq<char>, b: Seq<char>)
    requires
        entry_fields(a) == entry_fields(b),
    ensures
        parsed_config(a) == parsed_config(b),
{
}

/// The fields whose keys have no meaning are kept in the order in which their keys first occur.
pub proof fn law_extra_in_order(text: Seq<char>, i: int, j: int)
    requires
        parsed_config(text) is Ok,
        0 <= i < j < parsed_config(text)->Ok_0.extra.len(),
    ensures
        ({
            let extra = parsed_config(text)->Ok_0.extra;
            occurs_first(entry_fields(text), extra[i].0, extra[j].0)
        }),
{
    lemma_extra_order(entry_fields(text), i, j);
}

/// A field with the key `a` comes before every field with the key `b`.
pub open spec fn occurs_first(fields: Seq<Field>, a: Seq<char>, b: Seq<char>) -> bool {
    exists|n: int|
        0 <= n < fields.len() && (#[trigger] fields[n]).0 == a && forall|m: int|
            0 <= m <= n ==> (#[trigger] fields[m]).0 != b
}

/// The fields without a meaning, in the order of their keys.
proof fn lemma_extra_order(fields: Seq<Field>, i: int, j: int)
    requires
        0 <= i < j < extra_fields(fields).len(),
    ensures
        occurs_first(fields, extra_fields(fields)[i].0, extra_fields(fields)[j].0),
    decreases fields.len(),
{
    let front = fields.drop_last();
    let before = extra_fields(front);
    let extra = extra_fields(fields);
    let (key, value) = fields.last();
    lemma_meaning(key);
    if j < before.len() {
        lemma_extra_order(front, i, j);
        assert(extra[i].0 == before[i].0 && extra[j].0 == before[j].0);
        let (a, b) = (before[i].0, before[j].0);
        let n = choose|n: int|
            0 <= n < front.len() && (#[trigger] front[n]).0 == a && forall|m: int|
                0 <= m <= n ==> (#[trigger] front[m]).0 != b;
        assert(fields[n].0 == a);
        assert forall|m: int| 0 <= m <= n implies (#[trigger] fields[m]).0 != b by {
            assert(fields[m] == front[m]);
        }
    } else {
        assert(extra == before.push((key, value)));
        assert(!has_key(before, key));
        let a = before[i].0;
        lemma_extra_values(front);
        assert(has_key(before, a));
        lemma_last_value_has(before, a);
        lemma_last_value_has(before, key);
        assert(last_value(front, a) is Some && last_value(front, key) is None);
        lemma_last_value_has(front, a);
        lemma_last_value_has(front, key);
        let n = choose|n: int| 0 <= n < front.len() && (#[trigger] front[n]).0 == a;
        assert(fields[n].0 == a);
        assert forall|m: int| 0 <= m <= n implies (#[trigger] fields[m]).0 != key by {
            assert(fields[m] == front[m]);
        }
    }
}

/// Fields are written one line each: the key, a space, the value, verbatim.
pub proof fn law_written_lines(fields: Seq<Field>, f: Field)
    ensures
        fields_text(Seq::empty()) == Seq::<char>::empty(),
        fields_text(fields.push(f)) == fields_text(fields) + f.0 + " "@ + f.1 + "\n"@,
{
    reveal_strlit(" ");
    reveal_strlit("\n");
    assert(fields.push(f).drop_last() =~= fields);
    assert(fields_text(fields.push(f)) =~= fields_text(fields) + f.0 + " "@ + f.1 + "\n"@);
}

/// A field, or none.
pub open spec fn field_if(key: Seq<char>, value: Option<Seq<char>>) -> Seq<Field> {
    match value {
        Some(v) => seq![(key, v)],
        None => seq![],
    }
}

/// An entry is written as its fields: title, version, what it boots, machine, sort key, and then
/// every other field in order.
pub proof fn law_written_entry(cfg: ConfigView)
    ensures
        config_text(cfg) == fields_text(
            field_if("title"@, cfg.title) + seq![("version"@, cfg.version)] + (match cfg.cfg_type {
                TypeView::NonEFI { linux, initrd, options } => seq![("linux"@, linux)] + Seq::new(
                    initrd.len(),
                    |i: int| ("initrd"@, initrd[i]),
                ) + field_if("options"@, options),
                TypeView::EFI { key, efi } => if key == EfiKey::Efi {
                    seq![("efi"@, efi)]
                } else {
                    seq![("uki"@, efi)]
                },
                TypeView::Unknown => seq![],
            }) + field_if("machine-id"@, cfg.machine_id) + field_if("sort-key"@, cfg.sort_key)
                + cfg.extra,
        ),
{
    match cfg.cfg_type {
        TypeView::NonEFI { linux, initrd, options } => {
            assert(Seq::new(initrd.len(), |i: int| ("initrd"@, initrd[i])) =~= repeated_field(
                "initrd"@,
                initrd,
            ));
        },
        _ => {},
    }
}

/// The digest of an entry is the value of its first `composefs` parameter, all of it but for one
/// leading `?`. Without such a parameter, or where the first has no value, there is none.
pub proof fn law_digest_of_options(t: TypeView, options: Seq<char>, n: int, digest: Seq<char>)
    requires
        t matches TypeView::NonEFI { options: o, .. } && o == Some(options),
        0 <= n <= params(options).len(),
        forall|i: int|
            0 <= i < n ==> !same_key(param_key(#[trigger] params(options)[i]), "composefs"@),
        n < params(options).len() ==> same_key(param_key(params(options)[n]), "composefs"@),
    ensures
        ({
            let value = if n < params(options).len() {
                param_value(params(options)[n])
            } else {
                None
            };
            &&& value is None ==> config_verity(t) == Err::<Seq<char>, _>(BlsError::MissingDigest)
            &&& value == Some("?"@ + digest) ==> config_verity(t) == Ok::<_, BlsError>(digest)
            &&& value == Some(digest) && (digest.len() == 0 || digest[0] != '?')
                ==> config_verity(t) == Ok::<_, BlsError>(digest)
        }),
{
    reveal_strlit("?");
    law_first_value(params(options), "composefs"@, n);
    law_affixes(digest, "?"@);
    if n < params(options).len() {
        if let Some(v) = param_value(params(options)[n]) {
            if "?"@.is_prefix_of(v) {
                assert(v[0] == "?"@[0]);
            }
        }
    }
}

/// An entry on whose command line `composefs=` and a digest stand as a parameter, the first with
/// that key, carries that digest: all of its characters, however many. A `?` before it does not
/// count.
pub proof fn law_digest_found(
    t: TypeView,
    before: Seq<char>,
    mark: Seq<char>,
    digest: Seq<char>,
    after: Seq<char>,
)
    requires
        t matches TypeView::NonEFI { options, .. } && options == Some(
            before + ("composefs="@ + mark + digest) + after,
        ),
        quotes_closed(before),
        before.len() > 0 ==> ends_param(before.last()),
        forall|i: int|
            0 <= i < params(before).len() ==> !same_key(
                param_key(#[trigger] params(before)[i]),
                "composefs"@,
            ),
        mark.len() == 0 || mark == "?"@,
        unbroken(digest) && lacks(digest, '"'),
        mark.len() == 0 && digest.len() > 0 ==> digest[0] != '?',
        after.len() > 0 ==> ends_param(after[0]),
    ensures
        config_verity(t) == Ok::<Seq<char>, BlsError>(digest),
{
    reveal_strlit("composefs=");
    reveal_strlit("composefs");
    reveal_strlit("?");
    let value = mark + digest;
    let p = "composefs="@ + mark + digest;
    let options = before + p + after;
    let none = Seq::<char>::empty();
    assert("composefs"@.push('=') =~= "composefs="@);
    assert(p =~= "composefs"@.push('=') + value);
    assert(lacks("composefs"@, '=') && lacks("composefs"@, '"'));
    assert(lacks(value, '"')) by {
        assert forall|i: int| 0 <= i < value.len() implies #[trigger] value[i] != '"' by {
            if i >= mark.len() {
                assert(value[i] == digest[i - mark.len()]);
            }
        }
    }
    assert forall|i: int| 0 <= i < p.len() implies #[trigger] p[i] != '"' && !ends_param(p[i]) by {
        if i < 10 {
            assert(p[i] == "composefs="@[i]);
        } else if i < 10 + mark.len() {
            assert(p[i] == mark[i - 10]);
        } else {
            assert(p[i] == digest[i - 10 - mark.len()]);
        }
    }
    law_param_parts("composefs"@, value);
    law_same_key("composefs"@, "composefs"@);
    law_one_param(none, none, p);
    let rest = p + after;
    lemma_leading_param(p, after);
    lemma_behind_separator(before, rest);
    assert(options =~= before + rest);
    let list = params(options);
    let n = params(before).len() as int;
    assert(list == params(before) + params(rest));
    assert(list[n] == p);
    assert forall|i: int| 0 <= i < n implies !same_key(
        param_key(#[trigger] list[i]),
        "composefs"@,
    ) by {
        assert(list[i] == params(before)[i]);
    }
    law_digest_of_options(t, options, n, digest);
    if mark.len() == 0 {
        assert(value =~= digest);
    }
}

/// A parameter at the start of a text is its first one.
proof fn lemma_leading_param(p: Seq<char>, after: Seq<char>)
    requires
        params(p) == seq![p],
        quotes_closed(p),
        after.len() > 0 ==> ends_param(after[0]),
    ensures
        params(p + after).len() > 0,
        params(p + after)[0] == p,
{
    if after.len() == 0 {
        assert(p + after =~= p);
    } else {
        law_params_apart(p, after[0], after.skip(1));
        assert(p + after =~= p.push(after[0]) + after.skip(1));
    }
}

/// The parameters of a text that ends at white space come before those of what follows.
proof fn lemma_behind_separator(before: Seq<char>, rest: Seq<char>)
    requires
        quotes_closed(before),
        before.len() > 0 ==> ends_param(before.last()),
    ensures
        params(before + rest) == params(before) + params(rest),
{
    if before.len() == 0 {
        assert(before + rest =~= rest);
        assert(params(before) =~= Seq::empty());
        assert(params(before) + params(rest) =~= params(rest));
    } else {
        let front = before.drop_last();
        let c = before.last();
        let none = Seq::<char>::empty();
        assert(front.push(c) =~= before);
        law_quotes(front, c);
        law_params_apart(front, c, rest);
        law_params_apart(front, c, none);
        assert(front.push(c) + none =~= before);
        assert(params(none) =~= Seq::empty());
        assert(params(front) + params(none) =~= params(front));
    }
}

/// An entry that boots `bootc_composefs-`, a digest and `.efi`, in any directory, carries that
/// digest; one that boots an EFI program of another name carries none. Neither does an entry
/// without a command line.
pub proof fn law_digest_of_uki(key: EfiKey, dir: Seq<char>, digest: Seq<char>)
    requires
        lacks(digest, '/'),
    ensures
        ({
            let name = "bootc_composefs-"@ + digest + ".efi"@;
            &&& config_verity(TypeView::EFI { key, efi: name }) == Ok::<_, BlsError>(digest)
            &&& config_verity(TypeView::EFI { key, efi: dir.push('/') + name }) == Ok::<
                _,
                BlsError,
            >(digest)
        }),
        forall|linux: Seq<char>, initrd: Seq<Seq<char>>| #[trigger]
            config_verity(TypeView::NonEFI { linux, initrd, options: None }) == Err::<
                Seq<char>,
                _,
            >(BlsError::MissingOptions),
        config_verity(TypeView::Unknown) == Err::<Seq<char>, _>(BlsError::UnknownType),
{
    reveal_strlit("bootc_composefs-");
    reveal_strlit(".efi");
    let prefix = "bootc_composefs-"@;
    let suffix = ".efi"@;
    let name = prefix + digest + suffix;
    assert(lacks(name, '/')) by {
        assert forall|i: int| 0 <= i < name.len() implies #[trigger] name[i] != '/' by {
            if i < prefix.len() {
                assert(name[i] == prefix[i]);
            } else if i < prefix.len() + digest.len() {
                assert(name[i] == digest[i - prefix.len()]);
            } else {
                assert(name[i] == suffix[i - prefix.len() - digest.len()]);
            }
        }
    }
    law_cut(dir, name, '/');
    law_affixes(digest + suffix, prefix);
    law_affixes(digest, suffix);
    assert(name =~= prefix + (digest + suffix));
}

/// An EFI program whose path does not end with such a name carries no digest.
pub proof fn law_foreign_efi(key: EfiKey, efi: Seq<char>)
    ensures
        match config_verity(TypeView::EFI { key, efi }) {
            Ok(digest) => {
                let name = "bootc_composefs-"@ + digest + ".efi"@;
                &&& lacks(digest, '/')
                &&& efi == name || efi == efi.take(efi.len() - name.len() - 1).push('/') + name
            },
            Err(e) => e == BlsError::ForeignEfi,
        },
{
    lemma_after_last(efi, '/');
    if let Some(digest) = digest_of_uki(efi) {
        lemma_uki_name(efi, digest);
    }
}

/// The name of an EFI program that holds a digest.
proof fn lemma_uki_name(efi: Seq<char>, digest: Seq<char>)
    requires
        digest_of_uki(efi) == Some(digest),
    ensures
        after_last(efi, '/') == "bootc_composefs-"@ + digest + ".efi"@,
        lacks(digest, '/'),
{
    lemma_after_last(efi, '/');
    lemma_between(after_last(efi, '/'), UKI_NAME_PREFIX@, EFI_EXT@, digest, '/');
}

/// What stands between a prefix and a suffix.
proof fn lemma_between(
    s: Seq<char>,
    prefix: Seq<char>,
    suffix: Seq<char>,
    middle: Seq<char>,
    c: char,
)
    requires
        without_prefix(s, prefix) matches Some(tail) && without_suffix(tail, suffix) == Some(
            middle,
        ),
    ensures
        s == prefix + middle + suffix,
        lacks(s, c) ==> lacks(middle, c),
{
    let tail = without_prefix(s, prefix)->0;
    law_affixes(s, prefix);
    law_affixes(tail, suffix);
    assert(s == prefix + tail);
    assert(tail == middle + suffix);
    assert(prefix + (middle + suffix) =~= prefix + middle + suffix);
    if lacks(s, c) {
        assert forall|i: int| 0 <= i < middle.len() implies #[trigger] middle[i] != c by {
            assert(s[prefix.len() + i] == middle[i]);
        }
    }
}

/// What follows the last occurrence of a character.
proof fn lemma_after_last(s: Seq<char>, c: char)
    ensures
        lacks(after_last(s, c), c),
        ({
            let rest = after_last(s, c);
            s == rest || s == s.take(s.len() - rest.len() - 1).push(c) + rest
        }),
    decreases s.len(),
{
    if s.len() > 0 && s.last() != c {
        let front = s.drop_last();
        lemma_after_last(front, c);
        let rest = after_last(front, c);
        let all = rest.push(s.last());
        if front == rest {
            assert(s =~= all);
        } else {
            let head = front.take(front.len() - rest.len() - 1);
            assert(head =~= s.take(s.len() - all.len() - 1));
            assert(s =~= front.push(s.last()));
            assert((head.push(c) + rest).push(s.last()) =~= head.push(c) + all);
        }
    } else if s.len() > 0 {
        let rest = after_last(s, c);
        assert(s =~= s.take(s.len() - 1).push(c) + rest);
    } else {
        assert(s =~= after_last(s, c));
    }
}

} // verus!
