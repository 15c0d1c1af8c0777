//! What is written of an entry is what is read of it.

use vstd::prelude::*;

use crate::bls::{
    all_values, config_fields, config_of_fields, config_text, entry_fields, extra_fields,
    field_line, fields_text, line_field, lines_fields, optional_field, parsed_config,
    repeated_field, standard_key, type_fields, type_of_fields, ConfigView, EfiKey, TypeView,
};
use crate::error::BlsError;
use crate::fields::{
    distinct_keys, has_key, last_value, lemma_with_field, lemma_without_field, with_field,
    without_field, Field,
};
use crate::text::{first_index, lacks, split_on, trimmed, trimmed_end, trimmed_start, white_space};

verus! {

/// Whether `key` can stand as the key of a field: one word on one line, and no comment.
pub open spec fn key_text(key: Seq<char>) -> bool {
    &&& key.len() > 0
    &&& !white_space(key[0])
    &&& key[0] != '#'
    &&& lacks(key, ' ')
    &&& lacks(key, '\n')
}

/// Whether `value` can stand as the value of a field: a text on one line, with no white space
/// at its ends.
pub open spec fn value_text(value: Seq<char>) -> bool {
    &&& value.len() > 0
    &&& !white_space(value[0])
    &&& !white_space(value.last())
    &&& lacks(value, '\n')
}

/// Whether a field can be written and read back.
pub open spec fn field_valid(f: Field) -> bool {
    key_text(f.0) && value_text(f.1)
}

/// Whether a field can be written: either it is read back, or its value is empty and the line
/// of its key alone holds no field.
pub open spec fn field_writable(f: Field) -> bool {
    field_valid(f) || (key_text(f.0) && !white_space(f.0.last()) && f.1.len() == 0)
}

/// Whether every field can be written.
pub open spec fn fields_writable(fields: Seq<Field>) -> bool {
    forall|i: int| 0 <= i < fields.len() ==> field_writable(#[trigger] fields[i])
}

/// The fields that have a value, in order.
pub open spec fn fields_with_value(fields: Seq<Field>) -> Seq<Field>
    decreases fields.len(),
{
    if fields.len() == 0 {
        Seq::empty()
    } else {
        let front = fields_with_value(fields.drop_last());
        if fields.last().1.len() > 0 {
            front.push(fields.last())
        } else {
            front
        }
    }
}

/// Whether every field can be written and read back.
pub open spec fn fields_valid(fields: Seq<Field>) -> bool {
    forall|i: int| 0 <= i < fields.len() ==> field_valid(#[trigger] fields[i])
}

/// Whether a value that is there can stand as the value of a field.
pub open spec fn optional_valid(value: Option<Seq<char>>) -> bool {
    match value {
        Some(v) => value_text(v),
        None => true,
    }
}

/// Whether what an entry boots can be written and read back.
pub open spec fn type_valid(t: TypeView) -> bool {
    match t {
        TypeView::EFI { efi, .. } => value_text(efi),
        TypeView::NonEFI { linux, initrd, options } => {
            &&& value_text(linux)
            &&& forall|i: int| 0 <= i < initrd.len() ==> value_text(#[trigger] initrd[i])
            &&& optional_valid(options)
        },
        TypeView::Unknown => false,
    }
}

/// Whether the fields of an entry that have no meaning of their own are just that.
pub open spec fn extra_valid(extra: Seq<Field>) -> bool {
    &&& fields_valid(extra)
    &&& distinct_keys(extra)
    &&& forall|i: int| 0 <= i < extra.len() ==> !standard_key((#[trigger] extra[i]).0)
}

/// An entry with no kernel arguments in place of empty ones.
pub open spec fn settled(cfg: ConfigView) -> ConfigView {
    match cfg.cfg_type {
        TypeView::NonEFI { linux, initrd, options: Some(options) } => if options.len() == 0 {
            ConfigView { cfg_type: TypeView::NonEFI { linux, initrd, options: None }, ..cfg }
        } else {
            cfg
        },
        _ => cfg,
    }
}

/// Whether an entry can be written and read back.
pub open spec fn config_valid(cfg: ConfigView) -> bool {
    &&& optional_valid(cfg.title)
    &&& value_text(cfg.version)
    &&& type_valid(cfg.cfg_type)
    &&& optional_valid(cfg.machine_id)
    &&& optional_valid(cfg.sort_key)
    &&& extra_valid(cfg.extra)
}

/// A text whose ends are no white space is trimmed.
proof fn lemma_trimmed(s: Seq<char>)
    requires
        s.len() > 0,
        !white_space(s[0]),
        !white_space(s.last()),
    ensures
        trimmed(s) == s,
{
}

/// The first occurrence of a character behind a text that lacks it.
pub proof fn lemma_first_index(s: Seq<char>, c: char, rest: Seq<char>)
    requires
        lacks(s, c),
    ensures
        first_index(s.push(c) + rest, c) == s.len(),
    decreases s.len(),
{
    let t = s.push(c) + rest;
    if s.len() > 0 {
        assert(t[0] == s[0]);
        assert(lacks(s.skip(1), c)) by {
            assert forall|i: int| 0 <= i < s.skip(1).len() implies #[trigger] s.skip(1)[i] != c by {
                assert(s.skip(1)[i] == s[i + 1]);
            }
        }
        lemma_first_index(s.skip(1), c, rest);
        assert(t.skip(1) =~= s.skip(1).push(c) + rest);
    } else {
        assert(t[0] == c);
    }
}

/// The line of a field holds that field, if it has a value.
proof fn lemma_field_line(f: Field)
    requires
        field_writable(f),
    ensures
        line_field(field_line(f)) == (if f.1.len() > 0 {
            Some(f)
        } else {
            None
        }),
        lacks(field_line(f), '\n'),
{
    let line = field_line(f);
    assert(line[0] == f.0[0]);
    if f.1.len() > 0 {
        assert(line.last() == f.1.last());
        lemma_trimmed(line);
        lemma_first_index(f.0, ' ', f.1);
        assert(line.take(f.0.len() as int) =~= f.0);
        assert(line.skip(f.0.len() as int + 1) =~= f.1);
        lemma_trimmed(f.1);
    } else {
        assert(line =~= f.0.push(' '));
        assert(trimmed_start(line) == line);
        assert(line.drop_last() =~= f.0);
        lemma_trimmed(f.0);
        assert(trimmed(line) == f.0);
        lemma_lacks_index(f.0, ' ');
    }
    assert forall|i: int| 0 <= i < line.len() implies #[trigger] line[i] != '\n' by {
        if i < f.0.len() {
            assert(line[i] == f.0[i]);
        } else if i > f.0.len() {
            assert(line[i] == f.1[i - f.0.len() - 1]);
        }
    }
}

/// A character that does not occur has no index.
pub proof fn lemma_lacks_index(s: Seq<char>, c: char)
    requires
        lacks(s, c),
    ensures
        first_index(s, c) == s.len(),
    decreases s.len(),
{
    if s.len() > 0 {
        assert(s[0] != c);
        let rest = s.skip(1);
        assert forall|i: int| 0 <= i < rest.len() implies #[trigger] rest[i] != c by {
            assert(rest[i] == s[i + 1]);
        }
        lemma_lacks_index(rest, c);
    }
}

/// A text always has at least one piece.
proof fn lemma_split_nonempty(s: Seq<char>, sep: char)
    ensures
        split_on(s, sep).len() > 0,
    decreases s.len(),
{
    if s.len() > 0 {
        lemma_split_nonempty(s.drop_last(), sep);
    }
}

/// A text without separators is written into the last piece.
proof fn lemma_split_add(s: Seq<char>, t: Seq<char>, sep: char)
    requires
        lacks(t, sep),
    ensures
        split_on(s + t, sep) == split_on(s, sep).drop_last().push(split_on(s, sep).last() + t),
    decreases t.len(),
{
    lemma_split_nonempty(s, sep);
    let pieces = split_on(s, sep);
    if t.len() == 0 {
        assert(s + t =~= s);
        assert(pieces.last() + t =~= pieces.last());
        assert(pieces.drop_last().push(pieces.last()) =~= pieces);
    } else {
        let front = t.drop_last();
        assert(lacks(front, sep)) by {
            assert forall|i: int| 0 <= i < front.len() implies #[trigger] front[i] != sep by {
                assert(front[i] == t[i]);
            }
        }
        lemma_split_add(s, front, sep);
        assert((s + t).drop_last() =~= s + front);
        assert(t[t.len() - 1] != sep);
        assert((pieces.last() + front).push(t.last()) =~= pieces.last() + t);
        assert(pieces.drop_last().push(pieces.last() + front).drop_last() =~= pieces.drop_last());
    }
}

/// The lines of written fields are those of the fields, and an empty one behind the last.
proof fn lemma_split_fields(fields: Seq<Field>)
    requires
        fields_writable(fields),
    ensures
        split_on(fields_text(fields), '\n') == fields.map_values(
            |f: Field| field_line(f),
        ).push(Seq::empty()),
    decreases fields.len(),
{
    let line = |f: Field| field_line(f);
    let lines = fields.map_values(line);
    if fields.len() == 0 {
        assert(split_on(fields_text(fields), '\n') =~= lines.push(Seq::empty()));
    } else {
        let front = fields.drop_last();
        let f = fields.last();
        assert forall|i: int| 0 <= i < front.len() implies field_writable(#[trigger] front[i]) by {
            assert(front[i] == fields[i]);
        }
        lemma_split_fields(front);
        assert(field_writable(fields[fields.len() - 1]));
        lemma_field_line(f);
        lemma_split_add(fields_text(front), field_line(f), '\n');
        let upto = fields_text(front) + field_line(f);
        assert(upto.push('\n').drop_last() =~= upto);
        assert(Seq::<char>::empty() + field_line(f) =~= field_line(f));
        assert(split_on(fields_text(fields), '\n') =~= lines.push(Seq::empty()));
    }
}

/// The fields on the lines of fields are those that have a value.
proof fn lemma_lines_fields(fields: Seq<Field>)
    requires
        fields_writable(fields),
    ensures
        lines_fields(fields.map_values(|f: Field| field_line(f))) == fields_with_value(fields),
    decreases fields.len(),
{
    let line = |f: Field| field_line(f);
    let lines = fields.map_values(line);
    if fields.len() == 0 {
        assert(lines_fields(lines) =~= fields_with_value(fields));
    } else {
        let front = fields.drop_last();
        assert forall|i: int| 0 <= i < front.len() implies field_writable(#[trigger] front[i]) by {
            assert(front[i] == fields[i]);
        }
        lemma_lines_fields(front);
        assert(lines.drop_last() =~= front.map_values(line));
        assert(field_writable(fields[fields.len() - 1]));
        lemma_field_line(fields.last());
    }
}

/// The fields that are read of a written entry are those that were written with a value.
pub proof fn law_fields_round_trip(fields: Seq<Field>)
    requires
        fields_writable(fields),
    ensures
        entry_fields(fields_text(fields)) == fields_with_value(fields),
{
    let line = |f: Field| field_line(f);
    let lines = fields.map_values(line);
    lemma_split_fields(fields);
    lemma_lines_fields(fields);
    assert(lines.push(Seq::empty()).drop_last() =~= lines);
    assert(line_field(Seq::empty()) is None);
}

/// The last value in two groups of fields.
proof fn lemma_last_value_add(a: Seq<Field>, b: Seq<Field>, key: Seq<char>)
    ensures
        last_value(a + b, key) == (match last_value(b, key) {
            Some(v) => Some(v),
            None => last_value(a, key),
        }),
    decreases b.len(),
{
    if b.len() == 0 {
        assert(a + b =~= a);
    } else {
        assert((a + b).drop_last() =~= a + b.drop_last());
        lemma_last_value_add(a, b.drop_last(), key);
    }
}

/// All values in two groups of fields.
proof fn lemma_all_values_add(a: Seq<Field>, b: Seq<Field>, key: Seq<char>)
    ensures
        all_values(a + b, key) == all_values(a, key) + all_values(b, key),
    decreases b.len(),
{
    if b.len() == 0 {
        assert(a + b =~= a);
        assert(all_values(a, key) + all_values(b, key) =~= all_values(a, key));
    } else {
        assert((a + b).drop_last() =~= a + b.drop_last());
        lemma_all_values_add(a, b.drop_last(), key);
        assert(all_values(a + b, key) =~= all_values(a, key) + all_values(b, key));
    }
}

/// Fields with keys of meaning contribute nothing to the others.
proof fn lemma_extra_standard(a: Seq<Field>)
    requires
        forall|i: int| 0 <= i < a.len() ==> standard_key((#[trigger] a[i]).0),
    ensures
        extra_fields(a) == Seq::<Field>::empty(),
    decreases a.len(),
{
    if a.len() > 0 {
        let front = a.drop_last();
        assert forall|i: int| 0 <= i < front.len() implies standard_key((#[trigger] front[i]).0) by {
            assert(front[i] == a[i]);
        }
        lemma_extra_standard(front);
        assert(standard_key(a[a.len() - 1].0));
    }
}

/// Distinct fields without meaning behind fields with meaning are the other fields.
proof fn lemma_extra_add(a: Seq<Field>, extra: Seq<Field>)
    requires
        forall|i: int| 0 <= i < a.len() ==> standard_key((#[trigger] a[i]).0),
        distinct_keys(extra),
        forall|i: int| 0 <= i < extra.len() ==> !standard_key((#[trigger] extra[i]).0),
    ensures
        extra_fields(a + extra) == extra,
    decreases extra.len(),
{
    if extra.len() == 0 {
        assert(a + extra =~= a);
        lemma_extra_standard(a);
        assert(extra_fields(a) =~= extra);
    } else {
        let front = extra.drop_last();
        let (key, value) = extra.last();
        assert((a + extra).drop_last() =~= a + front);
        assert forall|i: int, j: int| 0 <= i < j < front.len() implies (#[trigger] front[i]).0 != (
        #[trigger] front[j]).0 by {
            assert(extra[i].0 != extra[j].0);
        }
        assert forall|i: int| 0 <= i < front.len() implies !standard_key(
            (#[trigger] front[i]).0,
        ) by {
            assert(front[i] == extra[i]);
        }
        lemma_extra_add(a, front);
        assert(!standard_key(extra[extra.len() - 1].0));
        assert(!has_key(front, key)) by {
            assert forall|i: int| 0 <= i < front.len() implies (#[trigger] front[i]).0 != key by {
                assert(extra[i].0 != extra[extra.len() - 1].0);
            }
        }
        assert(front.push(extra.last()) =~= extra);
    }
}

/// The keys with a meaning differ in their first character.
pub proof fn lemma_standard_keys()
    ensures
        "title"@[0] == 't',
        "version"@[0] == 'v',
        "linux"@[0] == 'l',
        "initrd"@[0] == 'i',
        "options"@[0] == 'o',
        "efi"@[0] == 'e',
        "uki"@[0] == 'u',
        "machine-id"@[0] == 'm',
        "sort-key"@[0] == 's',
{
    reveal_strlit("title");
    reveal_strlit("version");
    reveal_strlit("linux");
    reveal_strlit("initrd");
    reveal_strlit("options");
    reveal_strlit("efi");
    reveal_strlit("uki");
    reveal_strlit("machine-id");
    reveal_strlit("sort-key");
}

/// The keys with a meaning can stand as keys.
proof fn lemma_standard_key_texts()
    ensures
        forall|key: Seq<char>| #[trigger] standard_key(key) ==> key_text(key),
{
    reveal_strlit("title");
    reveal_strlit("version");
    reveal_strlit("linux");
    reveal_strlit("initrd");
    reveal_strlit("options");
    reveal_strlit("efi");
    reveal_strlit("uki");
    reveal_strlit("machine-id");
    reveal_strlit("sort-key");
}

/// The value of a field that may be there.
proof fn lemma_optional_values(key: Seq<char>, value: Option<Seq<char>>, k: Seq<char>)
    ensures
        last_value(optional_field(key, value), k) == (if k == key {
            value
        } else {
            None
        }),
        k != key ==> all_values(optional_field(key, value), k) == Seq::<Seq<char>>::empty(),
{
    let fields = optional_field(key, value);
    if value is Some {
        assert(fields.drop_last() =~= Seq::empty());
        assert(last_value(fields.drop_last(), k) is None);
        assert(all_values(fields.drop_last(), k) =~= Seq::empty());
    }
}

/// The values of a field that is repeated.
proof fn lemma_repeated_values(key: Seq<char>, values: Seq<Seq<char>>, k: Seq<char>)
    ensures
        k != key ==> last_value(repeated_field(key, values), k) is None,
        all_values(repeated_field(key, values), k) == (if k == key {
            values
        } else {
            Seq::empty()
        }),
    decreases values.len(),
{
    let fields = repeated_field(key, values);
    if values.len() == 0 {
        assert(all_values(fields, k) =~= Seq::empty());
        assert(values =~= Seq::empty());
    } else {
        assert(fields.drop_last() =~= repeated_field(key, values.drop_last()));
        lemma_repeated_values(key, values.drop_last(), k);
        assert(values.drop_last().push(values.last()) =~= values);
    }
}

/// Keys that do not occur have no values.
proof fn lemma_absent_values(fields: Seq<Field>, k: Seq<char>)
    requires
        !has_key(fields, k),
    ensures
        last_value(fields, k) is None,
        all_values(fields, k) == Seq::<Seq<char>>::empty(),
    decreases fields.len(),
{
    if fields.len() > 0 {
        let front = fields.drop_last();
        assert(!has_key(front, k)) by {
            assert forall|i: int| 0 <= i < front.len() implies (#[trigger] front[i]).0 != k by {
                assert(front[i] == fields[i]);
            }
        }
        assert(fields[fields.len() - 1].0 != k);
        lemma_absent_values(front, k);
    }
}

/// The fields of what an entry boots, as they are read back.
proof fn lemma_type_values(t: TypeView, k: Seq<char>)
    ensures
        last_value(type_fields(t), k) == (match t {
            TypeView::EFI { key: EfiKey::Efi, efi } => if k == "efi"@ {
                Some(efi)
            } else {
                None
            },
            TypeView::EFI { key: EfiKey::Uki, efi } => if k == "uki"@ {
                Some(efi)
            } else {
                None
            },
            TypeView::NonEFI { linux, initrd, options } => if k == "linux"@ {
                Some(linux)
            } else if k == "options"@ {
                options
            } else {
                last_value(repeated_field("initrd"@, initrd), k)
            },
            TypeView::Unknown => None,
        }),
        k == "initrd"@ ==> all_values(type_fields(t), k) == (match t {
            TypeView::NonEFI { initrd, .. } => initrd,
            _ => Seq::empty(),
        }),
{
    lemma_standard_keys();
    match t {
        TypeView::EFI { key, efi } => {
            lemma_optional_values("efi"@, Some(efi), k);
            lemma_optional_values("uki"@, Some(efi), k);
        },
        TypeView::NonEFI { linux, initrd, options } => {
            let a = optional_field("linux"@, Some(linux));
            let b = repeated_field("initrd"@, initrd);
            let c = optional_field("options"@, options);
            lemma_optional_values("linux"@, Some(linux), k);
            lemma_repeated_values("initrd"@, initrd, k);
            lemma_optional_values("options"@, options, k);
            lemma_last_value_add(a, b, k);
            lemma_last_value_add(a + b, c, k);
            lemma_all_values_add(a, b, k);
            lemma_all_values_add(a + b, c, k);
            if k == "initrd"@ {
                assert(all_values(type_fields(t), k) =~= initrd);
            }
        },
        TypeView::Unknown => {},
    }
}

/// The fields of an entry, as they are read back.
proof fn lemma_config_values(cfg: ConfigView, k: Seq<char>)
    requires
        extra_valid(cfg.extra),
        standard_key(k),
    ensures
        last_value(config_fields(cfg), k) == (if k == "title"@ {
            cfg.title
        } else if k == "version"@ {
            Some(cfg.version)
        } else if k == "machine-id"@ {
            cfg.machine_id
        } else if k == "sort-key"@ {
            cfg.sort_key
        } else {
            last_value(type_fields(cfg.cfg_type), k)
        }),
        k == "initrd"@ ==> all_values(config_fields(cfg), k) == all_values(
            type_fields(cfg.cfg_type),
            k,
        ),
{
    let title = optional_field("title"@, cfg.title);
    let version = optional_field("version"@, Some(cfg.version));
    let cfg_type = type_fields(cfg.cfg_type);
    let machine_id = optional_field("machine-id"@, cfg.machine_id);
    let sort_key = optional_field("sort-key"@, cfg.sort_key);
    lemma_standard_keys();
    lemma_optional_values("title"@, cfg.title, k);
    lemma_optional_values("version"@, Some(cfg.version), k);
    lemma_type_values(cfg.cfg_type, k);
    lemma_optional_values("machine-id"@, cfg.machine_id, k);
    lemma_optional_values("sort-key"@, cfg.sort_key, k);
    lemma_absent_values(cfg.extra, k);
    let p1 = title + version;
    let p2 = p1 + cfg_type;
    let p3 = p2 + machine_id;
    let p4 = p3 + sort_key;
    lemma_last_value_add(title, version, k);
    lemma_last_value_add(p1, cfg_type, k);
    lemma_last_value_add(p2, machine_id, k);
    lemma_last_value_add(p3, sort_key, k);
    lemma_last_value_add(p4, cfg.extra, k);
    if cfg.cfg_type is NonEFI {
        lemma_repeated_values("initrd"@, cfg.cfg_type->initrd, k);
    }
    if k == "initrd"@ {
        lemma_all_values_add(title, version, k);
        lemma_all_values_add(p1, cfg_type, k);
        lemma_all_values_add(p2, machine_id, k);
        lemma_all_values_add(p3, sort_key, k);
        lemma_all_values_add(p4, cfg.extra, k);
        assert(all_values(config_fields(cfg), k) =~= all_values(cfg_type, k));
    }
}

/// The fields of a valid entry are valid, and the standard ones come first.
proof fn lemma_config_fields(cfg: ConfigView)
    requires
        config_valid(cfg),
    ensures
        fields_valid(config_fields(cfg)),
        extra_fields(config_fields(cfg)) == cfg.extra,
{
    let title = optional_field("title"@, cfg.title);
    let version = seq![("version"@, cfg.version)];
    let cfg_type = type_fields(cfg.cfg_type);
    let machine_id = optional_field("machine-id"@, cfg.machine_id);
    let sort_key = optional_field("sort-key"@, cfg.sort_key);
    let head = title + version + cfg_type + machine_id + sort_key;
    lemma_standard_key_texts();
    assert forall|i: int| 0 <= i < cfg_type.len() implies standard_key((#[trigger] cfg_type[i]).0)
        && value_text(cfg_type[i].1) by {
        match cfg.cfg_type {
            TypeView::NonEFI { linux, initrd, options } => {
                if 1 <= i < 1 + initrd.len() {
                    assert(cfg_type[i] == ("initrd"@, initrd[i - 1]));
                }
            },
            _ => {},
        }
    }
    assert forall|i: int| 0 <= i < head.len() implies standard_key((#[trigger] head[i]).0)
        && field_valid(head[i]) by {
        let n1 = title.len();
        let n2 = n1 + 1;
        let n3 = n2 + cfg_type.len();
        let n4 = n3 + machine_id.len();
        if i < n1 {
            assert(head[i] == ("title"@, cfg.title->0));
        } else if i < n2 {
            assert(head[i] == ("version"@, cfg.version));
        } else if i < n3 {
            assert(head[i] == cfg_type[i - n2]);
        } else if i < n4 {
            assert(head[i] == ("machine-id"@, cfg.machine_id->0));
        } else {
            assert(head[i] == ("sort-key"@, cfg.sort_key->0));
        }
        assert(standard_key(head[i].0));
    }
    let all = config_fields(cfg);
    assert(all == head + cfg.extra);
    assert forall|i: int| 0 <= i < all.len() implies field_valid(#[trigger] all[i]) by {
        if i < head.len() {
            assert(all[i] == head[i]);
        } else {
            assert(all[i] == cfg.extra[i - head.len()]);
        }
    }
    lemma_extra_add(head, cfg.extra);
}

/// The fields of a valid entry make that entry.
proof fn lemma_config_of_fields(cfg: ConfigView)
    requires
        config_valid(cfg),
    ensures
        config_of_fields(config_fields(cfg)) == Ok::<ConfigView, BlsError>(cfg),
{
    let fields = config_fields(cfg);
    lemma_config_fields(cfg);
    lemma_standard_keys();
    lemma_config_values(cfg, "title"@);
    lemma_config_values(cfg, "version"@);
    lemma_config_values(cfg, "linux"@);
    lemma_config_values(cfg, "initrd"@);
    lemma_config_values(cfg, "options"@);
    lemma_config_values(cfg, "efi"@);
    lemma_config_values(cfg, "uki"@);
    lemma_config_values(cfg, "machine-id"@);
    lemma_config_values(cfg, "sort-key"@);
    lemma_type_values(cfg.cfg_type, "linux"@);
    lemma_type_values(cfg.cfg_type, "initrd"@);
    lemma_type_values(cfg.cfg_type, "options"@);
    lemma_type_values(cfg.cfg_type, "efi"@);
    lemma_type_values(cfg.cfg_type, "uki"@);
    if cfg.cfg_type is NonEFI {
        lemma_repeated_values("initrd"@, cfg.cfg_type->initrd, "efi"@);
        lemma_repeated_values("initrd"@, cfg.cfg_type->initrd, "uki"@);
    }
    assert(type_of_fields(fields) == Ok::<TypeView, BlsError>(cfg.cfg_type));
}

/// Valid fields all have a value.
proof fn lemma_valid_with_value(fields: Seq<Field>)
    requires
        fields_valid(fields),
    ensures
        fields_with_value(fields) == fields,
        fields_writable(fields),
    decreases fields.len(),
{
    if fields.len() == 0 {
        assert(fields_with_value(fields) =~= fields);
    } else {
        let front = fields.drop_last();
        assert forall|i: int| 0 <= i < front.len() implies field_valid(#[trigger] front[i]) by {
            assert(front[i] == fields[i]);
        }
        lemma_valid_with_value(front);
        assert(field_valid(fields[fields.len() - 1]));
        assert(front.push(fields.last()) =~= fields);
    }
}

/// The fields that have a value, in two groups.
proof fn lemma_with_value_add(a: Seq<Field>, b: Seq<Field>)
    ensures
        fields_with_value(a + b) == fields_with_value(a) + fields_with_value(b),
    decreases b.len(),
{
    if b.len() == 0 {
        assert(a + b =~= a);
        assert(fields_with_value(a) + fields_with_value(b) =~= fields_with_value(a));
    } else {
        assert((a + b).drop_last() =~= a + b.drop_last());
        lemma_with_value_add(a, b.drop_last());
        assert(fields_with_value(a + b) =~= fields_with_value(a) + fields_with_value(b));
    }
}

/// An entry with empty kernel arguments is written with one field more, which is not read.
proof fn lemma_empty_options(cfg: ConfigView)
    requires
        config_valid(settled(cfg)),
    ensures
        fields_writable(config_fields(cfg)),
        fields_with_value(config_fields(cfg)) == config_fields(settled(cfg)),
{
    let kept = config_fields(settled(cfg));
    lemma_config_fields(settled(cfg));
    lemma_valid_with_value(kept);
    if settled(cfg) != cfg {
        let before = optional_field("title"@, cfg.title) + seq![("version"@, cfg.version)] + (seq![
            ("linux"@, cfg.cfg_type->linux),
        ] + repeated_field("initrd"@, cfg.cfg_type->initrd));
        let empty = seq![("options"@, Seq::<char>::empty())];
        let after = optional_field("machine-id"@, cfg.machine_id) + optional_field(
            "sort-key"@,
            cfg.sort_key,
        ) + cfg.extra;
        let all = config_fields(cfg);
        assert(cfg.cfg_type->options->0 =~= Seq::empty());
        assert(all =~= before + empty + after);
        assert(kept =~= before + after);
        assert(fields_valid(before)) by {
            assert forall|i: int| 0 <= i < before.len() implies field_valid(
                #[trigger] before[i],
            ) by {
                assert(before[i] == kept[i]);
            }
        }
        assert(fields_valid(after)) by {
            assert forall|i: int| 0 <= i < after.len() implies field_valid(#[trigger] after[i]) by {
                assert(after[i] == kept[before.len() + i]);
            }
        }
        lemma_valid_with_value(before);
        lemma_valid_with_value(after);
        assert(empty.drop_last() =~= Seq::empty());
        assert(fields_with_value(empty.drop_last()) =~= Seq::empty());
        lemma_with_value_add(before, empty);
        lemma_with_value_add(before + empty, after);
        assert(before + Seq::<Field>::empty() =~= before);
        lemma_standard_key_texts();
        assert(standard_key("options"@));
        assert(!white_space("options"@.last())) by {
            reveal_strlit("options");
        }
        assert forall|i: int| 0 <= i < all.len() implies field_writable(#[trigger] all[i]) by {
            if i < before.len() {
                assert(all[i] == before[i]);
            } else if i > before.len() {
                assert(all[i] == after[i - before.len() - 1]);
            } else {
                assert(all[i] == empty[0]);
            }
        }
    }
}

/// An entry that is written is read back as it was, with all of its fields; where it has empty
/// kernel arguments, it is read back with none.
pub proof fn law_config_round_trip(cfg: ConfigView)
    requires
        config_valid(settled(cfg)),
    ensures
        parsed_config(config_text(cfg)) == Ok::<ConfigView, BlsError>(settled(cfg)),
{
    lemma_empty_options(cfg);
    law_fields_round_trip(config_fields(cfg));
    lemma_config_of_fields(settled(cfg));
}

/// A piece between separators has none.
proof fn lemma_pieces_lack(s: Seq<char>, sep: char)
    ensures
        forall|i: int| 0 <= i < split_on(s, sep).len() ==> lacks(#[trigger] split_on(s, sep)[i], sep),
    decreases s.len(),
{
    if s.len() > 0 {
        let front = split_on(s.drop_last(), sep);
        lemma_pieces_lack(s.drop_last(), sep);
        lemma_split_nonempty(s.drop_last(), sep);
        assert(lacks(front[front.len() - 1], sep));
        let pieces = split_on(s, sep);
        assert forall|i: int| 0 <= i < pieces.len() implies lacks(#[trigger] pieces[i], sep) by {
            if i < pieces.len() - 1 {
                assert(pieces[i] == front[i]);
            }
        }
    }
}

/// What is left of a text without its leading white space.
proof fn lemma_trimmed_start(s: Seq<char>, c: char)
    ensures
        trimmed_start(s).len() > 0 ==> !white_space(trimmed_start(s)[0]),
        lacks(s, c) ==> lacks(trimmed_start(s), c),
        s.len() > 0 && !white_space(s.last()) ==> trimmed_start(s).len() > 0 && trimmed_start(
            s,
        ).last() == s.last(),
    decreases s.len(),
{
    if s.len() > 0 && white_space(s[0]) {
        let rest = s.skip(1);
        lemma_trimmed_start(rest, c);
        if lacks(s, c) {
            assert forall|i: int| 0 <= i < rest.len() implies #[trigger] rest[i] != c by {
                assert(rest[i] == s[i + 1]);
            }
        }
        if !white_space(s.last()) {
            assert(s.len() > 1);
            assert(rest.last() == s.last());
        }
    }
}

/// What is left of a text without its trailing white space.
proof fn lemma_trimmed_end(s: Seq<char>, c: char)
    ensures
        trimmed_end(s).len() > 0 ==> !white_space(trimmed_end(s).last()) && trimmed_end(s)[0]
            == s[0],
        lacks(s, c) ==> lacks(trimmed_end(s), c),
        s.len() > 0 && !white_space(s.last()) ==> trimmed_end(s) == s,
    decreases s.len(),
{
    if s.len() > 0 && white_space(s.last()) {
        let front = s.drop_last();
        lemma_trimmed_end(front, c);
        if lacks(s, c) {
            assert forall|i: int| 0 <= i < front.len() implies #[trigger] front[i] != c by {
                assert(front[i] == s[i]);
            }
        }
    }
}

/// Where the first occurrence of a character is.
proof fn lemma_first_index_bounds(s: Seq<char>, c: char)
    ensures
        0 <= first_index(s, c) <= s.len(),
        first_index(s, c) < s.len() ==> s[first_index(s, c)] == c,
        lacks(s.take(first_index(s, c)), c),
    decreases s.len(),
{
    if s.len() > 0 && s[0] != c {
        let rest = s.skip(1);
        lemma_first_index_bounds(rest, c);
        let i = first_index(rest, c);
        assert forall|j: int| 0 <= j < i + 1 implies #[trigger] s.take(i + 1)[j] != c by {
            if j > 0 {
                assert(s.take(i + 1)[j] == rest.take(i)[j - 1]);
            }
        }
    }
}

/// A text that is trimmed and not empty has no white space at its ends.
pub proof fn lemma_trimmed_ends(s: Seq<char>)
    requires
        trimmed(s) == s,
        s.len() > 0,
    ensures
        !white_space(s[0]),
        !white_space(s.last()),
{
    lemma_trimmed_start(s, ' ');
    lemma_trimmed_end(trimmed_start(s), ' ');
}

/// A field that is read of a line is valid.
proof fn lemma_line_field_valid(line: Seq<char>)
    requires
        lacks(line, '\n'),
    ensures
        match line_field(line) {
            Some(f) => field_valid(f),
            None => true,
        },
{
    let start = trimmed_start(line);
    let t = trimmed(line);
    let i = first_index(t, ' ');
    lemma_trimmed_start(line, '\n');
    lemma_trimmed_end(start, '\n');
    lemma_first_index_bounds(t, ' ');
    if t.len() > 0 && t[0] != '#' && i < t.len() {
        let key = t.take(i);
        let rest = t.skip(i + 1);
        assert(t[0] == start[0]);
        assert(t[0] != ' ');
        assert(i > 0);
        assert(lacks(key, '\n')) by {
            assert forall|j: int| 0 <= j < key.len() implies #[trigger] key[j] != '\n' by {
                assert(key[j] == t[j]);
            }
        }
        assert(rest.len() > 0) by {
            if i == t.len() - 1 {
                assert(t.last() == ' ');
            }
        }
        assert(rest.last() == t.last());
        assert(lacks(rest, '\n')) by {
            assert forall|j: int| 0 <= j < rest.len() implies #[trigger] rest[j] != '\n' by {
                assert(rest[j] == t[i + 1 + j]);
            }
        }
        lemma_trimmed_start(rest, '\n');
        lemma_trimmed_end(trimmed_start(rest), '\n');
    }
}

/// The fields that are read of lines are valid.
proof fn lemma_lines_fields_valid(lines: Seq<Seq<char>>)
    requires
        forall|i: int| 0 <= i < lines.len() ==> lacks(#[trigger] lines[i], '\n'),
    ensures
        fields_valid(lines_fields(lines)),
    decreases lines.len(),
{
    if lines.len() > 0 {
        let front = lines.drop_last();
        assert forall|i: int| 0 <= i < front.len() implies lacks(#[trigger] front[i], '\n') by {
            assert(front[i] == lines[i]);
        }
        lemma_lines_fields_valid(front);
        assert(lacks(lines[lines.len() - 1], '\n'));
        lemma_line_field_valid(lines.last());
    }
}

/// The values of valid fields are valid.
proof fn lemma_values_valid(fields: Seq<Field>, key: Seq<char>)
    requires
        fields_valid(fields),
    ensures
        optional_valid(last_value(fields, key)),
        forall|i: int|
            0 <= i < all_values(fields, key).len() ==> value_text(
                #[trigger] all_values(fields, key)[i],
            ),
    decreases fields.len(),
{
    if fields.len() > 0 {
        let front = fields.drop_last();
        assert forall|i: int| 0 <= i < front.len() implies field_valid(#[trigger] front[i]) by {
            assert(front[i] == fields[i]);
        }
        lemma_values_valid(front, key);
        assert(field_valid(fields[fields.len() - 1]));
        let values = all_values(fields, key);
        let front_values = all_values(front, key);
        assert forall|i: int| 0 <= i < values.len() implies value_text(#[trigger] values[i]) by {
            if i < front_values.len() {
                assert(values[i] == front_values[i]);
            }
        }
    }
}

/// Setting a valid field among valid other fields keeps them valid.
pub proof fn lemma_extra_with_field(extra: Seq<Field>, key: Seq<char>, value: Seq<char>)
    requires
        extra_valid(extra),
        field_valid((key, value)),
        !standard_key(key),
    ensures
        extra_valid(with_field(extra, key, value)),
{
    let set = with_field(extra, key, value);
    lemma_with_field(extra, key, value);
    assert forall|i: int| 0 <= i < set.len() implies field_valid(#[trigger] set[i])
        && !standard_key(set[i].0) by {
        if i < extra.len() {
            assert(field_valid(extra[i]) && !standard_key(extra[i].0));
        }
    }
}

/// Dropping a field of valid other fields keeps them valid.
pub proof fn lemma_extra_without_field(extra: Seq<Field>, key: Seq<char>)
    requires
        extra_valid(extra),
    ensures
        extra_valid(without_field(extra, key)),
{
    lemma_without_field(extra, key);
    lemma_subset_without(extra, key);
}

/// Dropping a field adds none.
proof fn lemma_subset_without(extra: Seq<Field>, key: Seq<char>)
    requires
        fields_valid(extra),
        forall|i: int| 0 <= i < extra.len() ==> !standard_key((#[trigger] extra[i]).0),
    ensures
        fields_valid(without_field(extra, key)),
        forall|i: int|
            0 <= i < without_field(extra, key).len() ==> !standard_key(
                (#[trigger] without_field(extra, key)[i]).0,
            ),
    decreases extra.len(),
{
    reveal(Seq::filter);
    if extra.len() > 0 {
        let front = extra.drop_last();
        assert forall|i: int| 0 <= i < front.len() implies field_valid(#[trigger] front[i])
            && !standard_key(front[i].0) by {
            assert(front[i] == extra[i]);
        }
        lemma_subset_without(front, key);
        assert(field_valid(extra[extra.len() - 1]) && !standard_key(extra[extra.len() - 1].0));
        let left = without_field(extra, key);
        let front_left = without_field(front, key);
        assert forall|i: int| 0 <= i < left.len() implies field_valid(#[trigger] left[i])
            && !standard_key(left[i].0) by {
            if i < front_left.len() {
                assert(left[i] == front_left[i]);
            }
        }
    }
}

/// The other fields of valid fields: they are valid, and each key has its last value.
proof fn lemma_extra_fields(fields: Seq<Field>)
    ensures
        fields_valid(fields) ==> extra_valid(extra_fields(fields)),
        forall|key: Seq<char>|
            !standard_key(key) ==> #[trigger] last_value(extra_fields(fields), key) == last_value(
                fields,
                key,
            ),
    decreases fields.len(),
{
    if fields.len() > 0 {
        let front = fields.drop_last();
        let (key, value) = fields.last();
        lemma_extra_fields(front);
        lemma_with_field(extra_fields(front), key, value);
        if fields_valid(fields) {
            assert forall|i: int| 0 <= i < front.len() implies field_valid(#[trigger] front[i]) by {
                assert(front[i] == fields[i]);
            }
            assert(field_valid(fields[fields.len() - 1]));
            if !standard_key(key) {
                lemma_extra_with_field(extra_fields(front), key, value);
            }
        }
        assert forall|k: Seq<char>| !standard_key(k) implies #[trigger] last_value(
            extra_fields(fields),
            k,
        ) == last_value(fields, k) by {
            assert(last_value(extra_fields(front), k) == last_value(front, k));
        }
    }
}

/// Every entry that is read can be written and read back.
pub proof fn law_parsed_config_valid(text: Seq<char>)
    ensures
        match parsed_config(text) {
            Ok(cfg) => config_valid(cfg),
            Err(_) => true,
        },
{
    let fields = entry_fields(text);
    lemma_pieces_lack(text, '\n');
    lemma_lines_fields_valid(split_on(text, '\n'));
    lemma_values_valid(fields, "title"@);
    lemma_values_valid(fields, "version"@);
    lemma_values_valid(fields, "linux"@);
    lemma_values_valid(fields, "initrd"@);
    lemma_values_valid(fields, "options"@);
    lemma_values_valid(fields, "efi"@);
    lemma_values_valid(fields, "uki"@);
    lemma_values_valid(fields, "machine-id"@);
    lemma_values_valid(fields, "sort-key"@);
    lemma_extra_fields(fields);
}

/// An entry that is read keeps every field without a meaning of its own verbatim.
pub proof fn law_unknown_fields_kept(text: Seq<char>, key: Seq<char>)
    requires
        !standard_key(key),
    ensures
        match parsed_config(text) {
            Ok(cfg) => last_value(cfg.extra, key) == last_value(entry_fields(text), key),
            Err(_) => true,
        },
{
    lemma_extra_fields(entry_fields(text));
}

} // verus!
