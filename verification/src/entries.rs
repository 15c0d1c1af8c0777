//! Changing the kernel arguments of a source in the loader entries of a system.
//!
//! The entries live in a directory of the boot partition and are rewritten in place. While an
//! upgrade is pending, a second directory holds the staged entries, which will take the place
//! of the others at shutdown; the entry of the pending deployment is changed there too, so that
//! the change is not lost.
//!
//! Directories come as listings, and what has to be written goes back as updates: nothing here
//! touches a disk.

use vstd::prelude::*;

use crate::bls::{
    config_text, config_verity, parse_bls_config, parsed_config, BLSConfig, BLSConfigType,
    ConfigView, TypeView,
};
use crate::error::{BlsError, Error, ErrorView};
use crate::fields::{
    distinct_keys, has_key, last_value, lemma_last_value_has, lemma_with_field, with_field,
    without_field, Field, FieldMap,
};
use crate::source::{
    compute_merged_options, given, merged_options, source_key, valid_source_name, SourceName,
    OPTIONS_SOURCE_KEY_PREFIX,
};
use crate::text::{same_text, strip_prefix, strip_suffix, text_of};

verus! {

broadcast use vstd::string::group_string_axioms;

/// The start of the file names of this system's entries.
pub const TYPE1_ENTRY_CONF_PREFIX: &'static str = "bootc_";

/// The end of the file names of entries.
pub const ENTRY_CONF_EXT: &'static str = ".conf";

/// What reading a file gave.
#[derive(Debug)]
pub enum FileContent {
    /// The text in the file.
    Text(String),
    /// What the file holds, or its name, is not text.
    NotText,
    /// The file could not be read; what the read reported.
    Unreadable(String),
}

/// The view of a [`FileContent`].
pub enum ContentView {
    Text(Seq<char>),
    NotText,
    Unreadable(Seq<char>),
}

impl View for FileContent {
    type V = ContentView;

    open spec fn view(&self) -> ContentView {
        match self {
            FileContent::Text(text) => ContentView::Text(text@),
            FileContent::NotText => ContentView::NotText,
            FileContent::Unreadable(report) => ContentView::Unreadable(report@),
        }
    }
}

/// One item of a directory listing.
#[derive(Debug)]
pub enum DirItem {
    /// An item, or the listing itself, could not be read.
    Broken {
        /// What the read reported.
        report: String,
    },
    /// A file.
    File {
        /// Its name, with replacement characters for what is not text in it.
        name: String,
        /// What reading it gave.
        content: FileContent,
    },
}

/// The view of a [`DirItem`].
pub enum ItemView {
    Broken { report: Seq<char> },
    File { name: Seq<char>, content: ContentView },
}

impl View for DirItem {
    type V = ItemView;

    open spec fn view(&self) -> ItemView {
        match self {
            DirItem::Broken { report } => ItemView::Broken { report: report@ },
            DirItem::File { name, content } => ItemView::File {
                name: name@,
                content: content@,
            },
        }
    }
}

/// The view of a listing.
pub open spec fn items_view(items: Seq<DirItem>) -> Seq<ItemView> {
    items.map_values(|item: DirItem| item@)
}

/// An entry: its file name and what it holds.
pub type EntryView = (Seq<char>, ConfigView);

/// The view of some entries.
pub open spec fn entries_view(entries: Seq<(String, BLSConfig)>) -> Seq<EntryView> {
    entries.map_values(|e: (String, BLSConfig)| (e.0@, e.1@))
}

/// Whether a file name is that of an entry.
pub open spec fn entry_name(name: Seq<char>) -> bool {
    ENTRY_CONF_EXT@.is_suffix_of(name)
}

/// Whether a file name is one that this system gives to its entries.
pub open spec fn own_name(name: Seq<char>) -> bool {
    TYPE1_ENTRY_CONF_PREFIX@.is_prefix_of(name)
}

/// The entry that an item holds, if it belongs to this system: by its name, or else because it
/// parses and carries a composefs digest. Only an entry with such a name has to be text, and has
/// to parse.
pub open spec fn item_entry(item: ItemView) -> Result<Option<EntryView>, ErrorView> {
    match item {
        ItemView::Broken { report } => Err(ErrorView::Unreadable { report }),
        ItemView::File { name, content } => if !entry_name(name) {
            Ok(None)
        } else {
            match content {
                ContentView::Unreadable(report) => Err(ErrorView::Unreadable { report }),
                ContentView::NotText => if own_name(name) {
                    Err(ErrorView::NotText { file_name: name })
                } else {
                    Ok(None)
                },
                ContentView::Text(text) => match parsed_config(text) {
                    Ok(cfg) => if own_name(name) || config_verity(cfg.cfg_type) is Ok {
                        Ok(Some((name, cfg)))
                    } else {
                        Ok(None)
                    },
                    Err(error) => if own_name(name) {
                        Err(ErrorView::MalformedEntry { file_name: name, error })
                    } else {
                        Ok(None)
                    },
                },
            }
        },
    }
}

/// The entries of this system in a listing, in order, or the first error.
pub open spec fn listed_entries(items: Seq<ItemView>) -> Result<Seq<EntryView>, ErrorView>
    decreases items.len(),
{
    if items.len() == 0 {
        Ok(Seq::empty())
    } else {
        match (listed_entries(items.drop_last()), item_entry(items.last())) {
            (Err(e), _) => Err(e),
            (Ok(_), Err(e)) => Err(e),
            (Ok(entries), Ok(Some(entry))) => Ok(entries.push(entry)),
            (Ok(entries), Ok(None)) => Ok(entries),
        }
    }
}

/// An error in the front of a listing is the error of the listing.
proof fn lemma_first_error(items: Seq<ItemView>, n: int)
    requires
        0 <= n <= items.len(),
        listed_entries(items.take(n)) is Err,
    ensures
        listed_entries(items) == listed_entries(items.take(n)),
    decreases items.len() - n,
{
    if n == items.len() {
        assert(items.take(n) =~= items);
    } else {
        assert(items.take(n + 1).drop_last() =~= items.take(n));
        lemma_first_error(items, n + 1);
    }
}

/// Whether a file with this name is an entry, whose content will be looked at.
pub fn is_entry_name(name: &str) -> (r: bool)
    ensures
        r == entry_name(name@),
{
    strip_suffix(name, ENTRY_CONF_EXT).is_some()
}

/// Reads one item of a listing.
fn read_entry(item: &DirItem) -> (r: Result<Option<(String, BLSConfig)>, Error>)
    ensures
        match r {
            Ok(Some(entry)) => item_entry(item@) == Ok::<_, ErrorView>(
                Some((entry.0@, entry.1@)),
            ),
            Ok(None) => item_entry(item@) == Ok::<_, ErrorView>(None::<EntryView>),
            Err(e) => item_entry(item@) == Err::<Option<EntryView>, _>(e@),
        },
{
    match item {
        DirItem::Broken { report } => Err(Error::Unreadable { report: report.as_str().to_owned() }),
        DirItem::File { name, content } => {
            if !is_entry_name(name.as_str()) {
                return Ok(None);
            }
            let is_own_name: bool = strip_prefix(name.as_str(), TYPE1_ENTRY_CONF_PREFIX).is_some();
            let text: &String = match content {
                FileContent::Text(text) => text,
                FileContent::NotText => {
                    if is_own_name {
                        return Err(Error::NotText { file_name: name.as_str().to_owned() });
                    }
                    return Ok(None);
                },
                FileContent::Unreadable(report) => {
                    return Err(Error::Unreadable { report: report.as_str().to_owned() });
                },
            };
            let cfg: BLSConfig = match parse_bls_config(text.as_str()) {
                Ok(cfg) => cfg,
                Err(error) => {
                    if is_own_name {
                        return Err(
                            Error::MalformedEntry { file_name: name.as_str().to_owned(), error },
                        );
                    }
                    return Ok(None);
                },
            };
            if is_own_name || cfg.get_verity().is_ok() {
                Ok(Some((name.as_str().to_owned(), cfg)))
            } else {
                Ok(None)
            }
        },
    }
}

/// Reads the entries of this system in a listing: their file names and what they hold.
pub fn read_entries(items: &Vec<DirItem>) -> (r: Result<Vec<(String, BLSConfig)>, Error>)
    ensures
        match r {
            Ok(entries) => listed_entries(items_view(items@)) == Ok::<_, ErrorView>(
                entries_view(entries@),
            ),
            Err(e) => listed_entries(items_view(items@)) == Err::<Seq<EntryView>, _>(e@),
        },
{
    let ghost views = items_view(items@);
    let mut entries: Vec<(String, BLSConfig)> = Vec::new();
    assert(entries_view(entries@) =~= Seq::empty());
    assert(views.take(0) =~= Seq::empty());
    for i in 0..items.len()
        invariant
            views == items_view(items@),
            listed_entries(views.take(i as int)) == Ok::<_, ErrorView>(entries_view(entries@)),
    {
        let ghost before = entries@;
        assert(views[i as int] == items@[i as int]@);
        assert(views.take(i + 1).drop_last() =~= views.take(i as int));
        match read_entry(&items[i]) {
            Ok(Some(entry)) => {
                entries.push(entry);
                assert(entries_view(entries@) =~= entries_view(before).push((entry.0@, entry.1@)));
            },
            Ok(None) => {},
            Err(e) => {
                proof {
                    lemma_first_error(views, i + 1);
                }
                return Err(e);
            },
        }
    }
    assert(views.take(views.len() as int) =~= views);
    Ok(entries)
}

/// The arguments that the source `name` owns, as the fields of an entry track them.
pub open spec fn owned_options(extra: Seq<Field>, name: Seq<char>) -> Option<Seq<char>> {
    if name.len() == 0 {
        None
    } else {
        given(last_value(extra, source_key(name)))
    }
}

/// The arguments of every source that an entry tracks, by the name of the source.
pub fn source_options_from_config(cfg: &BLSConfig) -> (r: FieldMap)
    ensures
        forall|name: Seq<char>| #[trigger]
            last_value(r@, name) == owned_options(cfg@.extra, name),
{
    let ghost extra = cfg@.extra;
    let mut sources: FieldMap = FieldMap::new();
    let n: usize = cfg.extra.len();
    for i in 0..n
        invariant
            extra == cfg@.extra,
            n == extra.len(),
            distinct_keys(extra),
            forall|name: Seq<char>| #[trigger]
                last_value(sources@, name) == owned_options(extra.take(i as int), name),
    {
        let ghost before = sources@;
        let key: &str = cfg.extra.key(i);
        let value: &str = cfg.extra.value(i);
        proof {
            assert(extra.take(i + 1).drop_last() =~= extra.take(i as int));
            lemma_last_value_has(extra.take(i as int), key@);
            assert(!has_key(extra.take(i as int), key@)) by {
                assert forall|j: int| 0 <= j < i implies (#[trigger] extra.take(i as int)[j]).0
                    != key@ by {
                    assert(extra[j].0 != extra[i as int].0);
                }
            }
        }
        let ghost prefix = OPTIONS_SOURCE_KEY_PREFIX@;
        match strip_prefix(key, OPTIONS_SOURCE_KEY_PREFIX) {
            Some(name) => {
                assert(source_key(name@) =~= key@);
                assert forall|other: Seq<char>| other != name@ implies #[trigger] source_key(other)
                    != key@ by {
                    assert(source_key(other).skip(prefix.len() as int) =~= other);
                    assert(key@.skip(prefix.len() as int) =~= name@);
                }
                if !name.is_empty() && !value.is_empty() {
                    proof {
                        lemma_with_field(before, name@, value@);
                    }
                    sources.insert(name.to_owned(), value.to_owned());
                }
            },
            None => {
                assert forall|other: Seq<char>| #[trigger] source_key(other) != key@ by {
                    assert(prefix.is_prefix_of(source_key(other)));
                }
            },
        }
    }
    assert(extra.take(n as int) =~= extra);
    sources
}

/// Whether a source that owns `owned` is given nothing else.
pub open spec fn source_unchanged(owned: Option<Seq<char>>, new: Option<Seq<char>>) -> bool {
    match (owned, new) {
        (Some(o), Some(n)) => o == n,
        (Some(_), None) => false,
        (None, _) => given(new) is None,
    }
}

/// The tracking fields of an entry after the source `name` is given `new`.
pub open spec fn extra_after(
    extra: Seq<Field>,
    name: Seq<char>,
    new: Option<Seq<char>>,
) -> Seq<Field> {
    match given(new) {
        Some(v) => with_field(extra, source_key(name), v),
        None => without_field(extra, source_key(name)),
    }
}

/// The command line of an entry; empty if it has none.
pub open spec fn current_options(options: Option<Seq<char>>) -> Seq<char> {
    match options {
        Some(v) => v,
        None => Seq::empty(),
    }
}

/// The entry `cfg` after the source `name` is given `new`: none if that changes nothing.
pub open spec fn applied(cfg: ConfigView, name: Seq<char>, new: Option<Seq<char>>) -> Result<
    Option<ConfigView>,
    ErrorView,
> {
    match cfg.cfg_type {
        TypeView::NonEFI { linux, initrd, options } => {
            let current = current_options(options);
            let owned = owned_options(cfg.extra, name);
            let merged = merged_options(current, owned, new);
            if merged == current && source_unchanged(owned, new) {
                Ok(None)
            } else {
                Ok(
                    Some(
                        ConfigView {
                            cfg_type: TypeView::NonEFI { linux, initrd, options: Some(merged) },
                            extra: extra_after(cfg.extra, name, new),
                            ..cfg
                        },
                    ),
                )
            }
        },
        TypeView::EFI { .. } => Err(ErrorView::UkiEntry),
        TypeView::Unknown => Err(ErrorView::UnknownEntryType),
    }
}

/// Gives the source `source` the arguments `new_options` in one entry, and takes from it what
/// it had. Returns whether the entry was changed.
pub fn apply_source_to_config(
    cfg: &mut BLSConfig,
    source: &SourceName,
    new_options: Option<&str>,
) -> (r: Result<bool, Error>)
    ensures
        match r {
            Ok(true) => applied(old(cfg)@, source@, text_of(new_options)) == Ok::<_, ErrorView>(
                Some(final(cfg)@),
            ),
            Ok(false) => applied(old(cfg)@, source@, text_of(new_options)) == Ok::<_, ErrorView>(
                None::<ConfigView>,
            ) && *final(cfg) == *old(cfg),
            Err(e) => applied(old(cfg)@, source@, text_of(new_options)) == Err::<
                Option<ConfigView>,
                _,
            >(e@) && *final(cfg) == *old(cfg),
        },
{
    let current: String = match &cfg.cfg_type {
        BLSConfigType::NonEFI { options, .. } => match options {
            Some(options) => options.as_str().to_owned(),
            None => String::new(),
        },
        BLSConfigType::EFI { .. } => return Err(Error::UkiEntry),
        BLSConfigType::Unknown => return Err(Error::UnknownEntryType),
    };

    let source_options: FieldMap = source_options_from_config(cfg);
    let merged: String = compute_merged_options(
        current.as_str(),
        &source_options,
        source,
        new_options,
    );

    let is_options_unchanged: bool = merged == current;
    let is_source_unchanged: bool = match (source_options.get(source.as_str()), new_options) {
        (Some(owned), Some(new)) => same_text(owned, new),
        (Some(_), None) => false,
        (None, Some(new)) => new.is_empty(),
        (None, None) => true,
    };
    if is_options_unchanged && is_source_unchanged {
        return Ok(false);
    }

    match &mut cfg.cfg_type {
        BLSConfigType::NonEFI { options, .. } => {
            *options = Some(merged);
        },
        _ => {},
    }

    let key: String = source.bls_key();
    match new_options {
        Some(new) => {
            if new.is_empty() {
                cfg.extra.remove(key.as_str());
            } else {
                cfg.extra.insert(key, new.to_owned());
            }
        },
        None => {
            cfg.extra.remove(key.as_str());
        },
    }
    Ok(true)
}

/// The content that an entry file is to have.
#[derive(Debug)]
pub struct PlannedEntryUpdate {
    /// The name of the file.
    pub file_name: String,
    /// All of its new content.
    pub content: String,
}

/// The view of a [`PlannedEntryUpdate`].
pub struct UpdateView {
    pub file_name: Seq<char>,
    pub content: Seq<char>,
}

impl View for PlannedEntryUpdate {
    type V = UpdateView;

    open spec fn view(&self) -> UpdateView {
        UpdateView { file_name: self.file_name@, content: self.content@ }
    }
}

/// The view of an optional update.
pub open spec fn update_view(update: Option<PlannedEntryUpdate>) -> Option<UpdateView> {
    match update {
        Some(u) => Some(u@),
        None => None,
    }
}

/// Whether an entry carries the composefs digest `digest`.
pub open spec fn carries_digest(entry: EntryView, digest: Seq<char>) -> bool {
    config_verity(entry.1.cfg_type) == Ok::<Seq<char>, BlsError>(digest)
}

/// The entries that carry the composefs digest `digest`, in order.
pub open spec fn entries_with_digest(entries: Seq<EntryView>, digest: Seq<char>) -> Seq<EntryView>
    decreases entries.len(),
{
    if entries.len() == 0 {
        Seq::empty()
    } else {
        let front = entries_with_digest(entries.drop_last(), digest);
        if carries_digest(entries.last(), digest) {
            front.push(entries.last())
        } else {
            front
        }
    }
}

/// The update of the one entry in `items` that carries the digest `digest`, when the source
/// `name` is given `new`: none if that changes nothing.
pub open spec fn planned_update(
    items: Seq<ItemView>,
    digest: Seq<char>,
    name: Seq<char>,
    new: Option<Seq<char>>,
    deployment_kind: Seq<char>,
) -> Result<Option<UpdateView>, ErrorView> {
    match listed_entries(items) {
        Err(e) => Err(e),
        Ok(entries) => {
            let targets = entries_with_digest(entries, digest);
            if targets.len() == 0 {
                Err(ErrorView::NoEntry { deployment_kind })
            } else if targets.len() > 1 {
                Err(ErrorView::MultipleEntries { deployment_kind })
            } else {
                match applied(targets[0].1, name, new) {
                    Err(e) => Err(e),
                    Ok(None) => Ok(None),
                    Ok(Some(cfg)) => Ok(
                        Some(UpdateView { file_name: targets[0].0, content: config_text(cfg) }),
                    ),
                }
            }
        },
    }
}

/// More entries carry no fewer digests.
proof fn lemma_targets_grow(entries: Seq<EntryView>, digest: Seq<char>, n: int)
    requires
        0 <= n <= entries.len(),
    ensures
        entries_with_digest(entries.take(n), digest).len() <= entries_with_digest(
            entries,
            digest,
        ).len(),
    decreases entries.len() - n,
{
    if n == entries.len() {
        assert(entries.take(n) =~= entries);
    } else {
        assert(entries.take(n + 1).drop_last() =~= entries.take(n));
        lemma_targets_grow(entries, digest, n + 1);
    }
}

/// Plans the update of the entry that carries the composefs digest `target_digest`, without
/// writing it.
pub fn plan_entry_update(
    items: &Vec<DirItem>,
    target_digest: &str,
    source: &SourceName,
    new_options: Option<&str>,
    deployment_kind: &str,
) -> (r: Result<Option<PlannedEntryUpdate>, Error>)
    ensures
        match r {
            Ok(update) => planned_update(
                items_view(items@),
                target_digest@,
                source@,
                text_of(new_options),
                deployment_kind@,
            ) == Ok::<_, ErrorView>(update_view(update)),
            Err(e) => planned_update(
                items_view(items@),
                target_digest@,
                source@,
                text_of(new_options),
                deployment_kind@,
            ) == Err::<Option<UpdateView>, _>(e@),
        },
{
    let mut entries: Vec<(String, BLSConfig)> = match read_entries(items) {
        Ok(entries) => entries,
        Err(e) => return Err(e),
    };
    let ghost views = entries_view(entries@);
    let mut matched: Option<usize> = None;
    assert(views.take(0) =~= Seq::empty());
    for i in 0..entries.len()
        invariant
            listed_entries(items_view(items@)) == Ok::<_, ErrorView>(views),
            views == entries_view(entries@),
            match matched {
                Some(m) => m < i && entries_with_digest(views.take(i as int), target_digest@)
                    == seq![views[m as int]],
                None => entries_with_digest(views.take(i as int), target_digest@).len() == 0,
            },
    {
        assert(views[i as int] == (entries@[i as int].0@, entries@[i as int].1@));
        assert(views.take(i + 1).drop_last() =~= views.take(i as int));
        let is_target: bool = match entries[i].1.get_verity() {
            Ok(digest) => same_text(digest.as_str(), target_digest),
            Err(_) => false,
        };
        assert(is_target == carries_digest(views[i as int], target_digest@));
        if is_target {
            if matched.is_some() {
                proof {
                    lemma_targets_grow(views, target_digest@, i + 1);
                }
                return Err(
                    Error::MultipleEntries { deployment_kind: deployment_kind.to_owned() },
                );
            }
            assert(entries_with_digest(views.take(i + 1), target_digest@) =~= seq![
                views[i as int],
            ]);
            matched = Some(i);
        }
    }
    assert(views.take(views.len() as int) =~= views);

    let index: usize = match matched {
        Some(index) => index,
        None => return Err(Error::NoEntry { deployment_kind: deployment_kind.to_owned() }),
    };
    assert(views[index as int] == (entries@[index as int].0@, entries@[index as int].1@));
    let (file_name, mut cfg): (String, BLSConfig) = entries.swap_remove(index);
    match apply_source_to_config(&mut cfg, source, new_options) {
        Ok(true) => Ok(Some(PlannedEntryUpdate { file_name, content: cfg.to_string() })),
        Ok(false) => Ok(None),
        Err(e) => Err(e),
    }
}

/// The entries on a boot partition.
#[derive(Debug)]
pub struct BootDir {
    /// The entries that the boot loader reads.
    pub entries: Vec<DirItem>,
    /// The entries that take their place at shutdown, if there is a directory of them.
    pub staged: Option<Vec<DirItem>>,
}

/// The view of a [`BootDir`].
pub struct BootDirView {
    pub entries: Seq<ItemView>,
    pub staged: Option<Seq<ItemView>>,
}

impl View for BootDir {
    type V = BootDirView;

    open spec fn view(&self) -> BootDirView {
        BootDirView {
            entries: items_view(self.entries@),
            staged: match self.staged {
                Some(items) => Some(items_view(items@)),
                None => None,
            },
        }
    }
}

/// What is to be written to a boot partition: the entries of both directories, in this order.
#[derive(Debug)]
pub struct BootDirUpdate {
    /// The update of the booted deployment's entry.
    pub booted: Option<PlannedEntryUpdate>,
    /// The update of the staged deployment's entry.
    pub staged: Option<PlannedEntryUpdate>,
}

/// The view of a [`BootDirUpdate`].
pub struct BootUpdateView {
    pub booted: Option<UpdateView>,
    pub staged: Option<UpdateView>,
}

impl View for BootDirUpdate {
    type V = BootUpdateView;

    open spec fn view(&self) -> BootUpdateView {
        BootUpdateView { booted: update_view(self.booted), staged: update_view(self.staged) }
    }
}

impl BootDirUpdate {
    /// Whether anything is to be written.
    pub fn changed(&self) -> (r: bool)
        ensures
            r == (self@.booted is Some || self@.staged is Some),
    {
        self.booted.is_some() || self.staged.is_some()
    }
}

/// The update of the staged entries. Staged entries without a staged deployment are left from
/// an interrupted upgrade and do not count; a staged deployment without staged entries is an
/// error.
pub open spec fn planned_staged(
    staged: Option<Seq<ItemView>>,
    digest: Option<Seq<char>>,
    name: Seq<char>,
    new: Option<Seq<char>>,
) -> Result<Option<UpdateView>, ErrorView> {
    match (staged, digest) {
        (Some(items), Some(digest)) => planned_update(items, digest, name, new, "staged"@),
        (None, Some(_)) => Err(ErrorView::MissingStagedEntries),
        (_, None) => Ok(None),
    }
}

/// The update of a boot partition when the source `name` is given `new`.
pub open spec fn planned_boot_dir(
    dir: BootDirView,
    booted_digest: Seq<char>,
    staged_digest: Option<Seq<char>>,
    name: Seq<char>,
    new: Option<Seq<char>>,
) -> Result<BootUpdateView, ErrorView> {
    match (
        planned_update(dir.entries, booted_digest, name, new, "booted"@),
        planned_staged(dir.staged, staged_digest, name, new),
    ) {
        (Err(e), _) => Err(e),
        (Ok(_), Err(e)) => Err(e),
        (Ok(booted), Ok(staged)) => Ok(BootUpdateView { booted, staged }),
    }
}

/// An item after an update is written to its directory.
pub open spec fn item_after(item: ItemView, update: UpdateView) -> ItemView {
    match item {
        ItemView::File { name, .. } => if name == update.file_name {
            ItemView::File { name, content: ContentView::Text(update.content) }
        } else {
            item
        },
        ItemView::Broken { .. } => item,
    }
}

/// A directory after an update, if there is one, is written to it.
pub open spec fn items_after(items: Seq<ItemView>, update: Option<UpdateView>) -> Seq<ItemView> {
    match update {
        Some(u) => items.map_values(|item: ItemView| item_after(item, u)),
        None => items,
    }
}

/// A boot partition after an update is written to it.
pub open spec fn boot_dir_after(dir: BootDirView, update: BootUpdateView) -> BootDirView {
    BootDirView {
        entries: items_after(dir.entries, update.booted),
        staged: match dir.staged {
            Some(items) => Some(items_after(items, update.staged)),
            None => None,
        },
    }
}

/// Writes an update to a listing.
fn write_update(items: &mut Vec<DirItem>, update: &Option<PlannedEntryUpdate>)
    ensures
        items_view(final(items)@) == items_after(items_view(old(items)@), update_view(*update)),
{
    let ghost before = items_view(items@);
    match update {
        Some(update) => {
            let mut i: usize = 0;
            while i < items.len()
                invariant
                    i <= items@.len(),
                    items@.len() == before.len(),
                    forall|j: int|
                        0 <= j < i ==> (#[trigger] items@[j])@ == item_after(before[j], update@),
                    forall|j: int| i <= j < items@.len() ==> (#[trigger] items@[j])@ == before[j],
                decreases items@.len() - i,
            {
                assert(items@[i as int]@ == before[i as int]);
                let is_target: bool = match &items[i] {
                    DirItem::File { name, .. } => same_text(
                        name.as_str(),
                        update.file_name.as_str(),
                    ),
                    DirItem::Broken { .. } => false,
                };
                if is_target {
                    let item: DirItem = DirItem::File {
                        name: update.file_name.as_str().to_owned(),
                        content: FileContent::Text(update.content.as_str().to_owned()),
                    };
                    items.set(i, item);
                }
                i = i + 1;
            }
            assert(items_view(items@) =~= items_after(before, Some(update@)));
        },
        None => {},
    }
}

/// Gives the source `source` the arguments `new_options` in the entry of the booted deployment
/// and in that of the staged one, if there is one. Returns what has to be written for it.
///
/// Everything is read and computed before the first change, so that an error leaves the boot
/// partition as it was.
pub fn apply_to_boot_dir(
    boot_dir: &mut BootDir,
    booted_digest: &str,
    staged_digest: Option<&str>,
    source: &SourceName,
    new_options: Option<&str>,
) -> (r: Result<BootDirUpdate, Error>)
    ensures
        match r {
            Ok(update) => {
                &&& planned_boot_dir(
                    old(boot_dir)@,
                    booted_digest@,
                    text_of(staged_digest),
                    source@,
                    text_of(new_options),
                ) == Ok::<_, ErrorView>(update@)
                &&& final(boot_dir)@ == boot_dir_after(old(boot_dir)@, update@)
            },
            Err(e) => {
                &&& planned_boot_dir(
                    old(boot_dir)@,
                    booted_digest@,
                    text_of(staged_digest),
                    source@,
                    text_of(new_options),
                ) == Err::<BootUpdateView, _>(e@)
                &&& *final(boot_dir) == *old(boot_dir)
            },
        },
{
    let booted: Option<PlannedEntryUpdate> = match plan_entry_update(
        &boot_dir.entries,
        booted_digest,
        source,
        new_options,
        "booted",
    ) {
        Ok(update) => update,
        Err(e) => return Err(e),
    };
    let staged: Option<PlannedEntryUpdate> = match (&boot_dir.staged, staged_digest) {
        (Some(items), Some(digest)) => match plan_entry_update(
            items,
            digest,
            source,
            new_options,
            "staged",
        ) {
            Ok(update) => update,
            Err(e) => return Err(e),
        },
        (None, Some(_)) => return Err(Error::MissingStagedEntries),
        (_, None) => None,
    };

    write_update(&mut boot_dir.entries, &booted);
    match &mut boot_dir.staged {
        Some(items) => write_update(items, &staged),
        None => {},
    }
    Ok(BootDirUpdate { booted, staged })
}

/// What a request for the source `source` is answered: a name that cannot name a source is
/// refused before anything else.
pub open spec fn planned_request(
    dir: BootDirView,
    booted_digest: Seq<char>,
    staged_digest: Option<Seq<char>>,
    source: Seq<char>,
    new: Option<Seq<char>>,
) -> Result<BootUpdateView, ErrorView> {
    if valid_source_name(source) {
        planned_boot_dir(dir, booted_digest, staged_digest, source, new)
    } else if source.len() == 0 {
        Err(ErrorView::EmptySourceName)
    } else {
        Err(ErrorView::InvalidSourceName)
    }
}

/// Sets the kernel arguments of the source named `source` on a boot partition. Returns what has
/// to be written for it; an error leaves the boot partition as it was.
pub fn set_options_for_source_composefs(
    boot_dir: &mut BootDir,
    booted_digest: &str,
    staged_digest: Option<&str>,
    source: &str,
    new_options: Option<&str>,
) -> (r: Result<BootDirUpdate, Error>)
    ensures
        match r {
            Ok(update) => {
                &&& planned_request(
                    old(boot_dir)@,
                    booted_digest@,
                    text_of(staged_digest),
                    source@,
                    text_of(new_options),
                ) == Ok::<_, ErrorView>(update@)
                &&& final(boot_dir)@ == boot_dir_after(old(boot_dir)@, update@)
            },
            Err(e) => {
                &&& planned_request(
                    old(boot_dir)@,
                    booted_digest@,
                    text_of(staged_digest),
                    source@,
                    text_of(new_options),
                ) == Err::<BootUpdateView, _>(e@)
                &&& *final(boot_dir) == *old(boot_dir)
            },
        },
{
    let source_name: SourceName = match SourceName::parse(source) {
        Ok(name) => name,
        Err(e) => return Err(e),
    };
    apply_to_boot_dir(boot_dir, booted_digest, staged_digest, &source_name, new_options)
}

} // verus!
