//! Boot Loader Specification entries: their fields, and how they are read and written.

use vstd::prelude::*;

use crate::cmdline::{first_value, params, value_of};
use crate::error::BlsError;
use crate::fields::{last_value, with_field, Field, FieldMap};
use crate::text::{
    after_last, first_index, rest_after_last, same_text, split, split_on, split_once, string_of,
    strip_prefix, strip_suffix, trim, trimmed, without_prefix, without_suffix,
};

verus! {

broadcast use vstd::string::group_string_axioms;

/// The kernel parameter that holds the composefs digest of a deployment.
pub const COMPOSEFS_CMDLINE: &'static str = "composefs";

/// The start of the file name of a composefs UKI; the digest follows.
pub const UKI_NAME_PREFIX: &'static str = "bootc_composefs-";

/// The end of the file name of an EFI program.
pub const EFI_EXT: &'static str = ".efi";

/// The field that names an EFI program.
#[derive(Debug, Clone, Copy, PartialEq, Eq, Structural)]
pub enum EfiKey {
    /// `efi`: any EFI program.
    Efi,
    /// `uki`: a unified kernel image.
    Uki,
}

/// What an entry boots.
#[derive(Debug)]
pub enum BLSConfigType {
    /// An EFI program, usually a UKI.
    EFI {
        /// The field that names it.
        key: EfiKey,
        /// Its path.
        efi: String,
    },
    /// A kernel with its arguments.
    NonEFI {
        /// The path of the kernel.
        linux: String,
        /// The paths of the initial RAM disks.
        initrd: Vec<String>,
        /// The kernel arguments.
        options: Option<String>,
    },
    /// Nothing known.
    Unknown,
}

/// A loader entry.
#[derive(Debug)]
pub struct BLSConfig {
    /// The title in the boot menu.
    pub title: Option<String>,
    /// The version, by which entries are ordered.
    pub version: String,
    /// What the entry boots.
    pub cfg_type: BLSConfigType,
    /// The machine that the entry belongs to.
    pub machine_id: Option<String>,
    /// The sort key in the boot menu.
    pub sort_key: Option<String>,
    /// Every other field, verbatim.
    pub extra: FieldMap,
}

/// The view of a [`BLSConfigType`].
pub enum TypeView {
    EFI { key: EfiKey, efi: Seq<char> },
    NonEFI { linux: Seq<char>, initrd: Seq<Seq<char>>, options: Option<Seq<char>> },
    Unknown,
}

/// The view of a [`BLSConfig`].
pub struct ConfigView {
    pub title: Option<Seq<char>>,
    pub version: Seq<char>,
    pub cfg_type: TypeView,
    pub machine_id: Option<Seq<char>>,
    pub sort_key: Option<Seq<char>>,
    pub extra: Seq<Field>,
}

/// The texts of a list of strings.
pub open spec fn strings_of(v: Seq<String>) -> Seq<Seq<char>> {
    v.map_values(|s: String| s@)
}

impl View for BLSConfigType {
    type V = TypeView;

    open spec fn view(&self) -> TypeView {
        match self {
            BLSConfigType::EFI { key, efi } => TypeView::EFI { key: *key, efi: efi@ },
            BLSConfigType::NonEFI { linux, initrd, options } => TypeView::NonEFI {
                linux: linux@,
                initrd: strings_of(initrd@),
                options: string_of(*options),
            },
            BLSConfigType::Unknown => TypeView::Unknown,
        }
    }
}

impl View for BLSConfig {
    type V = ConfigView;

    open spec fn view(&self) -> ConfigView {
        ConfigView {
            title: string_of(self.title),
            version: self.version@,
            cfg_type: self.cfg_type@,
            machine_id: string_of(self.machine_id),
            sort_key: string_of(self.sort_key),
            extra: self.extra@,
        }
    }
}

/// The field on a line: the first word and the rest. Blank lines, comments and lines of one
/// word hold none.
pub open spec fn line_field(line: Seq<char>) -> Option<Field> {
    let t = trimmed(line);
    let i = first_index(t, ' ');
    if t.len() == 0 || t[0] == '#' || i == t.len() {
        None
    } else {
        Some((t.take(i), trimmed(t.skip(i + 1))))
    }
}

/// The fields on some lines, in order.
pub open spec fn lines_fields(lines: Seq<Seq<char>>) -> Seq<Field>
    decreases lines.len(),
{
    if lines.len() == 0 {
        Seq::empty()
    } else {
        let front = lines_fields(lines.drop_last());
        match line_field(lines.last()) {
            Some(f) => front.push(f),
            None => front,
        }
    }
}

/// The fields of an entry, in the order of their lines.
pub open spec fn entry_fields(text: Seq<char>) -> Seq<Field> {
    lines_fields(split_on(text, '\n'))
}

/// The values of all fields with the key `key`, in order.
pub open spec fn all_values(fields: Seq<Field>, key: Seq<char>) -> Seq<Seq<char>>
    decreases fields.len(),
{
    if fields.len() == 0 {
        Seq::empty()
    } else {
        let front = all_values(fields.drop_last(), key);
        if fields.last().0 == key {
            front.push(fields.last().1)
        } else {
            front
        }
    }
}

/// Whether a key has a meaning of its own.
pub open spec fn standard_key(key: Seq<char>) -> bool {
    ||| key == "title"@
    ||| key == "version"@
    ||| key == "linux"@
    ||| key == "initrd"@
    ||| key == "options"@
    ||| key == "efi"@
    ||| key == "uki"@
    ||| key == "machine-id"@
    ||| key == "sort-key"@
}

/// The other fields, by key: a key stands where it first occurs and has its last value.
pub open spec fn extra_fields(fields: Seq<Field>) -> Seq<Field>
    decreases fields.len(),
{
    if fields.len() == 0 {
        Seq::empty()
    } else {
        let front = extra_fields(fields.drop_last());
        let (key, value) = fields.last();
        if standard_key(key) {
            front
        } else {
            with_field(front, key, value)
        }
    }
}

/// What the fields of an entry boot: exactly one of `linux`, `efi` and `uki` has to be there.
pub open spec fn type_of_fields(fields: Seq<Field>) -> Result<TypeView, BlsError> {
    match (
        last_value(fields, "linux"@),
        last_value(fields, "efi"@),
        last_value(fields, "uki"@),
    ) {
        (Some(linux), None, None) => Ok(
            TypeView::NonEFI {
                linux,
                initrd: all_values(fields, "initrd"@),
                options: last_value(fields, "options"@),
            },
        ),
        (None, Some(efi), None) => Ok(TypeView::EFI { key: EfiKey::Efi, efi }),
        (None, None, Some(efi)) => Ok(TypeView::EFI { key: EfiKey::Uki, efi }),
        (None, None, None) => Err(BlsError::MissingKernel),
        _ => Err(BlsError::ConflictingKernels),
    }
}

/// The entry that some fields make. Of a field that occurs more than once the last counts, but
/// every `initrd` does.
pub open spec fn config_of_fields(fields: Seq<Field>) -> Result<ConfigView, BlsError> {
    match (last_value(fields, "version"@), type_of_fields(fields)) {
        (None, _) => Err(BlsError::MissingVersion),
        (Some(_), Err(e)) => Err(e),
        (Some(version), Ok(cfg_type)) => Ok(
            ConfigView {
                title: last_value(fields, "title"@),
                version,
                cfg_type,
                machine_id: last_value(fields, "machine-id"@),
                sort_key: last_value(fields, "sort-key"@),
                extra: extra_fields(fields),
            },
        ),
    }
}

/// The entry that a text holds.
pub open spec fn parsed_config(text: Seq<char>) -> Result<ConfigView, BlsError> {
    config_of_fields(entry_fields(text))
}

/// The texts of borrowed fields.
pub open spec fn fields_view(v: Seq<(&str, &str)>) -> Seq<Field> {
    v.map_values(|f: (&str, &str)| (f.0@, f.1@))
}

/// The fields of an entry, in the order of their lines.
fn read_fields<'a>(input: &'a str) -> (r: Vec<(&'a str, &'a str)>)
    ensures
        fields_view(r@) == entry_fields(input@),
{
    let lines: Vec<&'a str> = split(input, '\n');
    let ghost views = split_on(input@, '\n');
    let mut r: Vec<(&'a str, &'a str)> = Vec::new();
    assert(fields_view(r@) =~= lines_fields(views.take(0)));
    for n in 0..lines.len()
        invariant
            views == lines@.map_values(|t: &str| t@),
            fields_view(r@) == lines_fields(views.take(n as int)),
    {
        let ghost before = r@;
        assert(views[n as int] == lines@[n as int]@);
        assert(views.take(n + 1).drop_last() =~= views.take(n as int));
        let line: &'a str = trim(lines[n]);
        if !line.is_empty() && line.get_char(0) != '#' {
            if let Some((key, value)) = split_once(line, ' ') {
                let field: (&'a str, &'a str) = (key, trim(value));
                r.push(field);
                assert(fields_view(r@) =~= fields_view(before).push((field.0@, field.1@)));
            }
        }
    }
    assert(views.take(views.len() as int) =~= views);
    r
}

/// The value of the last field with the key `key`.
fn find_last(fields: &Vec<(&str, &str)>, key: &str) -> (r: Option<String>)
    ensures
        string_of(r) == last_value(fields_view(fields@), key@),
{
    let ghost fs = fields_view(fields@);
    let mut i: usize = fields.len();
    assert(fs.take(i as int) =~= fs);
    while i > 0
        invariant
            i <= fs.len(),
            fs == fields_view(fields@),
            last_value(fs.take(i as int), key@) == last_value(fs, key@),
        decreases i,
    {
        assert(fs.take(i as int).drop_last() =~= fs.take(i - 1));
        assert(fs[i - 1] == (fields@[i - 1].0@, fields@[i - 1].1@));
        if same_text(fields[i - 1].0, key) {
            return Some(fields[i - 1].1.to_owned());
        }
        i = i - 1;
    }
    None
}

/// The values of all fields with the key `key`.
fn find_all(fields: &Vec<(&str, &str)>, key: &str) -> (r: Vec<String>)
    ensures
        strings_of(r@) == all_values(fields_view(fields@), key@),
{
    let ghost fs = fields_view(fields@);
    let mut r: Vec<String> = Vec::new();
    assert(strings_of(r@) =~= all_values(fs.take(0), key@));
    for i in 0..fields.len()
        invariant
            fs == fields_view(fields@),
            strings_of(r@) == all_values(fs.take(i as int), key@),
    {
        let ghost before = r@;
        assert(fs.take(i + 1).drop_last() =~= fs.take(i as int));
        assert(fs[i as int] == (fields@[i as int].0@, fields@[i as int].1@));
        if same_text(fields[i].0, key) {
            r.push(fields[i].1.to_owned());
            assert(strings_of(r@) =~= strings_of(before).push(fs[i as int].1));
        }
    }
    assert(fs.take(fs.len() as int) =~= fs);
    r
}

/// Whether a key has a meaning of its own.
fn is_standard_key(key: &str) -> (r: bool)
    ensures
        r == standard_key(key@),
{
    same_text(key, "title") || same_text(key, "version") || same_text(key, "linux") || same_text(
        key,
        "initrd",
    ) || same_text(key, "options") || same_text(key, "efi") || same_text(key, "uki") || same_text(
        key,
        "machine-id",
    ) || same_text(key, "sort-key")
}

/// The fields without a meaning of their own.
fn find_extra(fields: &Vec<(&str, &str)>) -> (r: FieldMap)
    ensures
        r@ == extra_fields(fields_view(fields@)),
{
    let ghost fs = fields_view(fields@);
    let mut r: FieldMap = FieldMap::new();
    for i in 0..fields.len()
        invariant
            fs == fields_view(fields@),
            r@ == extra_fields(fs.take(i as int)),
    {
        assert(fs.take(i + 1).drop_last() =~= fs.take(i as int));
        assert(fs[i as int] == (fields@[i as int].0@, fields@[i as int].1@));
        if !is_standard_key(fields[i].0) {
            r.insert(fields[i].0.to_owned(), fields[i].1.to_owned());
        }
    }
    assert(fs.take(fs.len() as int) =~= fs);
    r
}

/// Reads a loader entry.
pub fn parse_bls_config(input: &str) -> (r: Result<BLSConfig, BlsError>)
    ensures
        match r {
            Ok(cfg) => parsed_config(input@) == Ok::<ConfigView, BlsError>(cfg@),
            Err(e) => parsed_config(input@) == Err::<ConfigView, BlsError>(e),
        },
{
    let fields: Vec<(&str, &str)> = read_fields(input);
    let version: String = match find_last(&fields, "version") {
        Some(version) => version,
        None => return Err(BlsError::MissingVersion),
    };
    let cfg_type: BLSConfigType = match (
        find_last(&fields, "linux"),
        find_last(&fields, "efi"),
        find_last(&fields, "uki"),
    ) {
        (Some(linux), None, None) => BLSConfigType::NonEFI {
            linux,
            initrd: find_all(&fields, "initrd"),
            options: find_last(&fields, "options"),
        },
        (None, Some(efi), None) => BLSConfigType::EFI { key: EfiKey::Efi, efi },
        (None, None, Some(efi)) => BLSConfigType::EFI { key: EfiKey::Uki, efi },
        (None, None, None) => return Err(BlsError::MissingKernel),
        _ => return Err(BlsError::ConflictingKernels),
    };
    Ok(
        BLSConfig {
            title: find_last(&fields, "title"),
            version,
            cfg_type,
            machine_id: find_last(&fields, "machine-id"),
            sort_key: find_last(&fields, "sort-key"),
            extra: find_extra(&fields),
        },
    )
}

/// The line of a field.
pub open spec fn field_line(f: Field) -> Seq<char> {
    f.0.push(' ') + f.1
}

/// The text of some fields, one line each.
pub open spec fn fields_text(fields: Seq<Field>) -> Seq<char>
    decreases fields.len(),
{
    if fields.len() == 0 {
        Seq::empty()
    } else {
        (fields_text(fields.drop_last()) + field_line(fields.last())).push('\n')
    }
}

/// A field that is there if it has a value.
pub open spec fn optional_field(key: Seq<char>, value: Option<Seq<char>>) -> Seq<Field> {
    match value {
        Some(v) => seq![(key, v)],
        None => Seq::empty(),
    }
}

/// A field for each of the values.
pub open spec fn repeated_field(key: Seq<char>, values: Seq<Seq<char>>) -> Seq<Field> {
    values.map_values(|v: Seq<char>| (key, v))
}

/// The fields for what an entry boots.
pub open spec fn type_fields(t: TypeView) -> Seq<Field> {
    match t {
        TypeView::EFI { key: EfiKey::Efi, efi } => seq![("efi"@, efi)],
        TypeView::EFI { key: EfiKey::Uki, efi } => seq![("uki"@, efi)],
        TypeView::NonEFI { linux, initrd, options } => seq![("linux"@, linux)] + repeated_field(
            "initrd"@,
            initrd,
        ) + optional_field("options"@, options),
        TypeView::Unknown => Seq::empty(),
    }
}

/// The fields of an entry, in the order in which they are written.
pub open spec fn config_fields(cfg: ConfigView) -> Seq<Field> {
    optional_field("title"@, cfg.title) + seq![("version"@, cfg.version)] + type_fields(
        cfg.cfg_type,
    ) + optional_field("machine-id"@, cfg.machine_id) + optional_field("sort-key"@, cfg.sort_key)
        + cfg.extra
}

/// The text of an entry.
pub open spec fn config_text(cfg: ConfigView) -> Seq<char> {
    fields_text(config_fields(cfg))
}

/// The composefs digest that the value of a `composefs=` parameter names. A leading `?` only
/// says that the digest need not be verified.
pub open spec fn digest_of_value(value: Seq<char>) -> Seq<char> {
    match without_prefix(value, "?"@) {
        Some(digest) => digest,
        None => value,
    }
}

/// The composefs digest that the file name of a UKI holds.
pub open spec fn digest_of_uki(efi: Seq<char>) -> Option<Seq<char>> {
    match without_prefix(after_last(efi, '/'), UKI_NAME_PREFIX@) {
        Some(rest) => without_suffix(rest, EFI_EXT@),
        None => None,
    }
}

/// The composefs digest of an entry.
pub open spec fn config_verity(t: TypeView) -> Result<Seq<char>, BlsError> {
    match t {
        TypeView::EFI { efi, .. } => match digest_of_uki(efi) {
            Some(digest) => Ok(digest),
            None => Err(BlsError::ForeignEfi),
        },
        TypeView::NonEFI { options: None, .. } => Err(BlsError::MissingOptions),
        TypeView::NonEFI { options: Some(options), .. } => match first_value(
            params(options),
            COMPOSEFS_CMDLINE@,
        ) {
            Some(value) => Ok(digest_of_value(value)),
            None => Err(BlsError::MissingDigest),
        },
        TypeView::Unknown => Err(BlsError::UnknownType),
    }
}

/// The text of fields is that of its parts, one behind the other.
pub proof fn lemma_fields_text_add(a: Seq<Field>, b: Seq<Field>)
    ensures
        fields_text(a + b) == fields_text(a) + fields_text(b),
    decreases b.len(),
{
    if b.len() == 0 {
        assert(a + b =~= a);
        assert(fields_text(a) + fields_text(b) =~= fields_text(a));
    } else {
        assert((a + b).drop_last() =~= a + b.drop_last());
        lemma_fields_text_add(a, b.drop_last());
        assert(fields_text(a + b) =~= fields_text(a) + fields_text(b));
    }
}

/// Writes one field behind a text.
fn push_field(text: &mut String, key: &str, value: &str)
    ensures
        final(text)@ == old(text)@ + fields_text(seq![(key@, value@)]),
{
    text.append(key);
    text.append(" ");
    text.append(value);
    text.append("\n");
    proof {
        reveal_strlit(" ");
        reveal_strlit("\n");
        let f = (key@, value@);
        assert(seq![f].drop_last() =~= Seq::empty());
        assert(fields_text(Seq::empty()) + field_line(f) =~= field_line(f));
        assert(fields_text(seq![f]) =~= field_line(f).push('\n'));
        assert(text@ =~= old(text)@ + fields_text(seq![f]));
    }
}

/// Writes a field behind a text if it has a value.
fn push_optional(text: &mut String, key: &str, value: &Option<String>)
    ensures
        final(text)@ == old(text)@ + fields_text(optional_field(key@, string_of(*value))),
{
    match value {
        Some(value) => push_field(text, key, value.as_str()),
        None => {
            assert(text@ =~= old(text)@ + Seq::empty());
        },
    }
}

/// Writes a field for each of the values behind a text.
fn push_repeated(text: &mut String, key: &str, values: &Vec<String>)
    ensures
        final(text)@ == old(text)@ + fields_text(repeated_field(key@, strings_of(values@))),
{
    let ghost vs = strings_of(values@);
    assert(text@ =~= old(text)@ + fields_text(repeated_field(key@, vs.take(0))));
    for i in 0..values.len()
        invariant
            vs == strings_of(values@),
            text@ == old(text)@ + fields_text(repeated_field(key@, vs.take(i as int))),
    {
        assert(vs[i as int] == values@[i as int]@);
        push_field(text, key, values[i].as_str());
        proof {
            let done = repeated_field(key@, vs.take(i as int));
            let f = seq![(key@, vs[i as int])];
            lemma_fields_text_add(done, f);
            assert(done + f =~= repeated_field(key@, vs.take(i + 1)));
            assert(text@ =~= old(text)@ + fields_text(done + f));
        }
    }
    assert(vs.take(vs.len() as int) =~= vs);
}

/// Writes what an entry boots behind a text.
fn push_type(text: &mut String, cfg_type: &BLSConfigType)
    ensures
        final(text)@ == old(text)@ + fields_text(type_fields(cfg_type@)),
{
    match cfg_type {
        BLSConfigType::EFI { key: EfiKey::Efi, efi } => push_field(text, "efi", efi.as_str()),
        BLSConfigType::EFI { key: EfiKey::Uki, efi } => push_field(text, "uki", efi.as_str()),
        BLSConfigType::NonEFI { linux, initrd, options } => {
            push_field(text, "linux", linux.as_str());
            push_repeated(text, "initrd", initrd);
            push_optional(text, "options", options);
            proof {
                let a = seq![("linux"@, linux@)];
                let b = repeated_field("initrd"@, strings_of(initrd@));
                let c = optional_field("options"@, string_of(*options));
                lemma_fields_text_add(a, b);
                lemma_fields_text_add(a + b, c);
                assert(text@ =~= old(text)@ + fields_text(a + b + c));
            }
        },
        BLSConfigType::Unknown => {
            assert(text@ =~= old(text)@ + Seq::empty());
        },
    }
}

/// Writes the fields of a map behind a text.
fn push_fields(text: &mut String, fields: &FieldMap)
    ensures
        final(text)@ == old(text)@ + fields_text(fields@),
{
    let n: usize = fields.len();
    assert(text@ =~= old(text)@ + fields_text(fields@.take(0)));
    for i in 0..n
        invariant
            n == fields@.len(),
            text@ == old(text)@ + fields_text(fields@.take(i as int)),
    {
        push_field(text, fields.key(i), fields.value(i));
        proof {
            let done = fields@.take(i as int);
            let f = seq![fields@[i as int]];
            lemma_fields_text_add(done, f);
            assert(done + f =~= fields@.take(i + 1));
            assert(text@ =~= old(text)@ + fields_text(done + f));
        }
    }
    assert(fields@.take(n as int) =~= fields@);
}

impl BLSConfig {
    /// The composefs digest of the deployment that the entry boots.
    pub fn get_verity(&self) -> (r: Result<String, BlsError>)
        ensures
            match r {
                Ok(digest) => config_verity(self@.cfg_type) == Ok::<Seq<char>, BlsError>(digest@),
                Err(e) => config_verity(self@.cfg_type) == Err::<Seq<char>, BlsError>(e),
            },
    {
        match &self.cfg_type {
            BLSConfigType::EFI { efi, .. } => {
                let name: &str = rest_after_last(efi.as_str(), '/');
                match strip_prefix(name, UKI_NAME_PREFIX) {
                    Some(rest) => match strip_suffix(rest, EFI_EXT) {
                        Some(digest) => Ok(digest.to_owned()),
                        None => Err(BlsError::ForeignEfi),
                    },
                    None => Err(BlsError::ForeignEfi),
                }
            },
            BLSConfigType::NonEFI { options, .. } => match options {
                Some(options) => match value_of(options.as_str(), COMPOSEFS_CMDLINE) {
                    Some(value) => match strip_prefix(value.as_str(), "?") {
                        Some(digest) => Ok(digest.to_owned()),
                        None => Ok(value),
                    },
                    None => Err(BlsError::MissingDigest),
                },
                None => Err(BlsError::MissingOptions),
            },
            BLSConfigType::Unknown => Err(BlsError::UnknownType),
        }
    }

    /// The text of the entry: one line for each field.
    pub fn to_string(&self) -> (r: String)
        ensures
            r@ == config_text(self@),
    {
        let mut text: String = String::new();
        push_optional(&mut text, "title", &self.title);
        push_field(&mut text, "version", self.version.as_str());
        push_type(&mut text, &self.cfg_type);
        push_optional(&mut text, "machine-id", &self.machine_id);
        push_optional(&mut text, "sort-key", &self.sort_key);
        push_fields(&mut text, &self.extra);
        proof {
            let title = optional_field("title"@, self@.title);
            let version = seq![("version"@, self@.version)];
            let cfg_type = type_fields(self@.cfg_type);
            let machine_id = optional_field("machine-id"@, self@.machine_id);
            let sort_key = optional_field("sort-key"@, self@.sort_key);
            lemma_fields_text_add(title, version);
            lemma_fields_text_add(title + version, cfg_type);
            lemma_fields_text_add(title + version + cfg_type, machine_id);
            lemma_fields_text_add(title + version + cfg_type + machine_id, sort_key);
            lemma_fields_text_add(
                title + version + cfg_type + machine_id + sort_key,
                self@.extra,
            );
            assert(Seq::<char>::empty() + fields_text(title) =~= fields_text(title));
        }
        text
    }
}

} // verus!
