//! What changing the arguments of a source does to the entries of a boot partition.

use vstd::prelude::*;

use crate::bls::{
    config_text, config_verity, parsed_config, BLSConfig, BLSConfigType, ConfigView, TypeView,
};
use crate::bls_laws::{law_parsed_config_valid, settled, value_text};
use crate::entries::{
    applied, boot_dir_after, carries_digest, entries_view, entries_with_digest, entry_name,
    item_after, item_entry, items_after, items_view, listed_entries, own_name, planned_boot_dir,
    planned_request, planned_update, update_view, BootDir, BootDirUpdate, BootDirView,
    BootUpdateView, ContentView, DirItem, EntryView, FileContent, ItemView, PlannedEntryUpdate,
    UpdateView,
};
use crate::entry_laws::{
    config_after, config_options, law_request_made, law_written_entry_reads_back, request_made,
};
use crate::error::{error_text, BlsError, Error, ErrorView};
use crate::source::{given, valid_source_name};
use crate::text::trimmed;

verus! {

/// Whether no two files of a listing have the same name.
pub open spec fn distinct_names(items: Seq<ItemView>) -> bool {
    forall|i: int, j: int|
        0 <= i < j < items.len() && (#[trigger] items[i]) is File && (#[trigger] items[j]) is File
            ==> items[i]->name != items[j]->name
}

/// Whether an item holds an entry of this system that carries the composefs digest `digest`.
pub open spec fn item_carries(item: ItemView, digest: Seq<char>) -> bool {
    match item_entry(item) {
        Ok(Some(entry)) => carries_digest(entry, digest),
        _ => false,
    }
}

/// Every entry of a listing is held by one of its items.
proof fn lemma_entry_item(items: Seq<ItemView>, k: int) -> (i: int)
    requires
        listed_entries(items) is Ok,
        0 <= k < listed_entries(items)->Ok_0.len(),
    ensures
        0 <= i < items.len(),
        item_entry(items[i]) == Ok::<_, ErrorView>(Some(listed_entries(items)->Ok_0[k])),
    decreases items.len(),
{
    let front = items.drop_last();
    let entries = listed_entries(front)->Ok_0;
    if k < entries.len() {
        let i = lemma_entry_item(front, k);
        assert(front[i] == items[i]);
        i
    } else {
        items.len() - 1
    }
}

/// Every entry that carries a digest is one of the entries.
proof fn lemma_target_entry(entries: Seq<EntryView>, digest: Seq<char>, t: int) -> (k: int)
    requires
        0 <= t < entries_with_digest(entries, digest).len(),
    ensures
        0 <= k < entries.len(),
        entries[k] == entries_with_digest(entries, digest)[t],
        carries_digest(entries[k], digest),
    decreases entries.len(),
{
    let front = entries.drop_last();
    let targets = entries_with_digest(front, digest);
    if t < targets.len() {
        let k = lemma_target_entry(front, digest, t);
        assert(front[k] == entries[k]);
        k
    } else {
        entries.len() - 1
    }
}

/// The item of the entry that an update changes.
pub open spec fn update_target(
    items: Seq<ItemView>,
    i: int,
    cfg: ConfigView,
    digest: Seq<char>,
    name: Seq<char>,
    new: Option<Seq<char>>,
    update: UpdateView,
) -> bool {
    &&& 0 <= i < items.len()
    &&& item_entry(items[i]) == Ok::<_, ErrorView>(Some((update.file_name, cfg)))
    &&& carries_digest((update.file_name, cfg), digest)
    &&& applied(cfg, name, new) == Ok::<_, ErrorView>(Some(config_after(cfg, name, new)))
    &&& update.content == config_text(config_after(cfg, name, new))
}

/// An update is that of an entry in the directory that carries the digest of the deployment, and
/// its content is that entry after the request.
pub proof fn law_update_has_target(
    items: Seq<ItemView>,
    digest: Seq<char>,
    name: Seq<char>,
    new: Option<Seq<char>>,
    kind: Seq<char>,
    update: UpdateView,
) -> (target: (int, ConfigView))
    requires
        planned_update(items, digest, name, new, kind) == Ok::<_, ErrorView>(Some(update)),
    ensures
        update_target(items, target.0, target.1, digest, name, new, update),
{
    let entries = listed_entries(items)->Ok_0;
    let k = lemma_target_entry(entries, digest, 0);
    let i = lemma_entry_item(items, k);
    (i, entries[k].1)
}

/// An update leaves alone every item that does not hold an entry of the deployment: other
/// entries, such as those to roll back to, and other files, byte for byte.
pub proof fn law_other_items_untouched(
    items: Seq<ItemView>,
    digest: Seq<char>,
    name: Seq<char>,
    new: Option<Seq<char>>,
    kind: Seq<char>,
    update: UpdateView,
    j: int,
)
    requires
        planned_update(items, digest, name, new, kind) == Ok::<_, ErrorView>(Some(update)),
        distinct_names(items),
        0 <= j < items.len(),
        !item_carries(items[j], digest),
    ensures
        items_after(items, Some(update)).len() == items.len(),
        items_after(items, Some(update))[j] == items[j],
{
    let (i, cfg) = law_update_has_target(items, digest, name, new, kind, update);
    assert(item_carries(items[i], digest));
    assert(items[i]->name == update.file_name);
    assert(items_after(items, Some(update))[j] == item_after(items[j], update));
    if items[j] is File {
        if i < j {
            assert(items[i]->name != items[j]->name);
        } else {
            assert(items[j]->name != items[i]->name);
        }
    }
}

/// A request changes no item but the entries of the booted and of the staged deployment: in
/// either directory every other entry, such as the one to roll back to, and every other file is
/// kept byte for byte.
pub proof fn law_only_deployments_change(
    dir: BootDirView,
    booted_digest: Seq<char>,
    staged_digest: Option<Seq<char>>,
    name: Seq<char>,
    new: Option<Seq<char>>,
    update: BootUpdateView,
)
    requires
        planned_boot_dir(dir, booted_digest, staged_digest, name, new) == Ok::<_, ErrorView>(
            update,
        ),
        distinct_names(dir.entries),
        dir.staged matches Some(items) ==> distinct_names(items),
    ensures
        ({
            let after = boot_dir_after(dir, update);
            &&& after.entries.len() == dir.entries.len()
            &&& forall|j: int|
                0 <= j < dir.entries.len() && !item_carries(dir.entries[j], booted_digest)
                    ==> #[trigger] after.entries[j] == dir.entries[j]
            &&& match dir.staged {
                Some(items) => {
                    &&& after.staged matches Some(items_after)
                    &&& items_after.len() == items.len()
                    &&& forall|j: int|
                        0 <= j < items.len() && !(staged_digest matches Some(digest)
                            && item_carries(items[j], digest)) ==> #[trigger] items_after[j]
                            == items[j]
                },
                None => after.staged is None,
            }
        }),
{
    let after = boot_dir_after(dir, update);
    if let Some(u) = update.booted {
        assert forall|j: int|
            0 <= j < dir.entries.len() && !item_carries(
                dir.entries[j],
                booted_digest,
            ) implies #[trigger] after.entries[j] == dir.entries[j] by {
            law_other_items_untouched(
                dir.entries,
                booted_digest,
                name,
                new,
                "booted"@,
                u,
                j,
            );
        }
    }
    if let (Some(items), Some(digest), Some(u)) = (dir.staged, staged_digest, update.staged) {
        let changed = items_after(items, update.staged);
        assert forall|j: int|
            0 <= j < items.len() && !item_carries(items[j], digest) implies #[trigger] changed[j]
            == items[j] by {
            law_other_items_untouched(items, digest, name, new, "staged"@, u, j);
        }
    }
}

/// Whether an item is a file that has nothing to do with this system: its name is not that of an
/// entry, or it is not one that this system gives and the content is not text, does not parse or
/// carries no composefs digest.
pub open spec fn foreign_file(item: ItemView) -> bool {
    match item {
        ItemView::Broken { .. } => false,
        ItemView::File { name, content } => {
            ||| !".conf"@.is_suffix_of(name)
            ||| !"bootc_"@.is_prefix_of(name) && match content {
                ContentView::Text(text) => parsed_config(text) matches Ok(cfg) ==> config_verity(
                    cfg.cfg_type,
                ) is Err,
                ContentView::NotText => true,
                ContentView::Unreadable(_) => false,
            }
        },
    }
}

/// A foreign file does not matter, whatever it holds: without it the directory has the same
/// entries, and a request is answered in the same way.
pub proof fn law_foreign_items_ignored(items: Seq<ItemView>, i: int)
    requires
        0 <= i < items.len(),
        foreign_file(items[i]),
    ensures
        listed_entries(items.remove(i)) == listed_entries(items),
        forall|digest: Seq<char>, name: Seq<char>, new: Option<Seq<char>>, kind: Seq<char>|
            #[trigger] planned_update(items.remove(i), digest, name, new, kind) == planned_update(
                items,
                digest,
                name,
                new,
                kind,
            ),
{
    lemma_item_without_entry(items, i);
}

/// An item without an entry adds nothing to a listing.
proof fn lemma_item_without_entry(items: Seq<ItemView>, i: int)
    requires
        0 <= i < items.len(),
        item_entry(items[i]) == Ok::<_, ErrorView>(None::<EntryView>),
    ensures
        listed_entries(items.remove(i)) == listed_entries(items),
    decreases items.len(),
{
    let front = items.drop_last();
    if i == items.len() - 1 {
        assert(items.remove(i) =~= front);
    } else {
        assert(front[i] == items[i]);
        lemma_item_without_entry(front, i);
        assert(items.remove(i).drop_last() =~= front.remove(i));
        assert(items.remove(i).last() == items.last());
    }
}

/// Staged entries without a staged deployment do not matter, and are not changed.
pub proof fn law_stale_staged_ignored(
    dir: BootDirView,
    staged: Option<Seq<ItemView>>,
    booted_digest: Seq<char>,
    name: Seq<char>,
    new: Option<Seq<char>>,
)
    ensures
        planned_boot_dir(dir, booted_digest, None, name, new) == planned_boot_dir(
            BootDirView { staged, ..dir },
            booted_digest,
            None,
            name,
            new,
        ),
        planned_boot_dir(dir, booted_digest, None, name, new) matches Ok(update) ==> boot_dir_after(
            dir,
            update,
        ).staged == dir.staged,
{
}

/// An entry in a listing that is replaced by another.
proof fn lemma_listed_update(items: Seq<ItemView>, i: int, item: ItemView, entry: EntryView) -> (k:
    int)
    requires
        listed_entries(items) is Ok,
        0 <= i < items.len(),
        item_entry(items[i]) matches Ok(Some(_)),
        item_entry(item) == Ok::<_, ErrorView>(Some(entry)),
    ensures
        0 <= k < listed_entries(items)->Ok_0.len(),
        item_entry(items[i]) == Ok::<_, ErrorView>(Some(listed_entries(items)->Ok_0[k])),
        listed_entries(items.update(i, item)) == Ok::<_, ErrorView>(
            listed_entries(items)->Ok_0.update(k, entry),
        ),
    decreases items.len(),
{
    let front = items.drop_last();
    let entries = listed_entries(items)->Ok_0;
    let front_entries = listed_entries(front)->Ok_0;
    let changed = items.update(i, item);
    if i == items.len() - 1 {
        assert(changed.drop_last() =~= front);
        assert(entries.update(entries.len() - 1, entry) =~= front_entries.push(entry));
        entries.len() - 1
    } else {
        assert(front[i] == items[i]);
        let k = lemma_listed_update(front, i, item, entry);
        assert(changed.drop_last() =~= front.update(i, item));
        assert(changed.last() == items.last());
        assert(listed_entries(changed)->Ok_0 =~= entries.update(k, entry));
        k
    }
}

/// Entries of which none but the one at `k` carries a digest.
proof fn lemma_only_target(entries: Seq<EntryView>, digest: Seq<char>, k: int)
    requires
        0 <= k < entries.len(),
        carries_digest(entries[k], digest),
        entries_with_digest(entries, digest).len() == 1,
    ensures
        forall|m: int|
            0 <= m < entries.len() && m != k ==> !carries_digest(#[trigger] entries[m], digest),
    decreases entries.len(),
{
    let front = entries.drop_last();
    let targets = entries_with_digest(front, digest);
    if k == entries.len() - 1 {
        assert(targets.len() == 0);
        lemma_no_target(front, digest);
        assert forall|m: int| 0 <= m < entries.len() && m != k implies !carries_digest(
            #[trigger] entries[m],
            digest,
        ) by {
            assert(front[m] == entries[m]);
        }
    } else {
        assert(front[k] == entries[k]);
        if targets.len() == 0 {
            lemma_no_target(front, digest);
        }
        lemma_only_target(front, digest, k);
        assert forall|m: int| 0 <= m < entries.len() && m != k implies !carries_digest(
            #[trigger] entries[m],
            digest,
        ) by {
            if m < front.len() {
                assert(front[m] == entries[m]);
            }
        }
    }
}

/// Entries of which none carries a digest.
proof fn lemma_no_target(entries: Seq<EntryView>, digest: Seq<char>)
    ensures
        entries_with_digest(entries, digest).len() == 0 <==> forall|m: int|
            0 <= m < entries.len() ==> !carries_digest(#[trigger] entries[m], digest),
    decreases entries.len(),
{
    if entries.len() > 0 {
        let front = entries.drop_last();
        lemma_no_target(front, digest);
        if entries_with_digest(entries, digest).len() == 0 {
            assert forall|m: int| 0 <= m < entries.len() implies !carries_digest(
                #[trigger] entries[m],
                digest,
            ) by {
                if m < front.len() {
                    assert(front[m] == entries[m]);
                }
            }
        } else if forall|m: int|
            0 <= m < entries.len() ==> !carries_digest(#[trigger] entries[m], digest) {
            assert(!carries_digest(entries[entries.len() - 1], digest));
            assert forall|m: int| 0 <= m < front.len() implies !carries_digest(
                #[trigger] front[m],
                digest,
            ) by {
                assert(front[m] == entries[m]);
            }
        }
    }
}

/// The one entry that carries a digest.
proof fn lemma_one_target(entries: Seq<EntryView>, digest: Seq<char>, k: int)
    requires
        0 <= k < entries.len(),
        carries_digest(entries[k], digest),
        forall|m: int|
            0 <= m < entries.len() && m != k ==> !carries_digest(#[trigger] entries[m], digest),
    ensures
        entries_with_digest(entries, digest) == seq![entries[k]],
    decreases entries.len(),
{
    let front = entries.drop_last();
    if k == entries.len() - 1 {
        assert forall|m: int| 0 <= m < front.len() implies !carries_digest(
            #[trigger] front[m],
            digest,
        ) by {
            assert(front[m] == entries[m]);
        }
        lemma_no_target(front, digest);
        assert(entries_with_digest(entries, digest) =~= seq![entries[k]]);
    } else {
        assert forall|m: int| 0 <= m < front.len() && m != k implies !carries_digest(
            #[trigger] front[m],
            digest,
        ) by {
            assert(front[m] == entries[m]);
        }
        assert(front[k] == entries[k]);
        lemma_one_target(front, digest, k);
        assert(!carries_digest(entries[entries.len() - 1], digest));
    }
}

/// Whether an entry that a request changed is read back as it was written, and still carries its
/// digest.
pub open spec fn reads_back(
    cfg: ConfigView,
    digest: Seq<char>,
    name: Seq<char>,
    new: Option<Seq<char>>,
) -> bool {
    let after = config_after(cfg, name, new);
    &&& given(new) matches Some(v) ==> value_text(v)
    &&& trimmed(config_options(after)) == config_options(after)
    &&& config_verity(settled(after).cfg_type) == Ok::<_, BlsError>(digest)
}

/// What an update wrote is what is read of the directory afterwards: of the deployment there is
/// still one entry, in the same file, and it is the one that the request made.
pub proof fn law_update_reads_back(
    items: Seq<ItemView>,
    digest: Seq<char>,
    name: Seq<char>,
    new: Option<Seq<char>>,
    kind: Seq<char>,
    update: UpdateView,
    target: (int, ConfigView),
)
    requires
        planned_update(items, digest, name, new, kind) == Ok::<_, ErrorView>(Some(update)),
        distinct_names(items),
        valid_source_name(name),
        update_target(items, target.0, target.1, digest, name, new, update),
        reads_back(target.1, digest, name, new),
    ensures
        listed_entries(items_after(items, Some(update))) matches Ok(entries)
            && entries_with_digest(entries, digest) == seq![
            (update.file_name, settled(config_after(target.1, name, new))),
        ],
{
    let (i, cfg) = target;
    let after = settled(config_after(cfg, name, new));
    let entries = listed_entries(items)->Ok_0;
    let item = item_after(items[i], update);
    let entry = (update.file_name, after);
    assert(items[i] is File && items[i]->name == update.file_name);
    law_parsed_config_valid(items[i]->content->Text_0);
    law_written_entry_reads_back(cfg, name, new);
    assert(item_entry(item) == Ok::<_, ErrorView>(Some(entry)));
    assert(items_after(items, Some(update)) =~= items.update(i, item)) by {
        assert forall|j: int| 0 <= j < items.len() && j != i implies item_after(
            #[trigger] items[j],
            update,
        ) == items[j] by {
            if items[j] is File {
                if i < j {
                    assert(items[i]->name != items[j]->name);
                } else {
                    assert(items[j]->name != items[i]->name);
                }
            }
        }
    }
    let k = lemma_listed_update(items, i, item, entry);
    lemma_only_target(entries, digest, k);
    let changed = entries.update(k, entry);
    assert forall|m: int| 0 <= m < changed.len() && m != k implies !carries_digest(
        #[trigger] changed[m],
        digest,
    ) by {
        assert(changed[m] == entries[m]);
    }
    lemma_one_target(changed, digest, k);
}

/// Whether making a request again changes nothing in the entry of an item that carries the digest
/// `digest`: what the request changes is read back as it was written, and is written as a
/// repetition writes it.
pub open spec fn item_repeats(
    item: ItemView,
    digest: Seq<char>,
    name: Seq<char>,
    new: Option<Seq<char>>,
) -> bool {
    match item_entry(item) {
        Ok(Some(entry)) => carries_digest(entry, digest) && applied(entry.1, name, new) is Ok ==> {
            let after = config_after(entry.1, name, new);
            &&& applied(after, name, new) == Ok::<_, ErrorView>(None::<ConfigView>)
            &&& after != entry.1 ==> reads_back(entry.1, digest, name, new)
        },
        _ => true,
    }
}

/// Whether making a request again changes nothing in a directory.
pub open spec fn items_repeat(
    items: Seq<ItemView>,
    digest: Seq<char>,
    name: Seq<char>,
    new: Option<Seq<char>>,
) -> bool {
    distinct_names(items) && forall|i: int|
        0 <= i < items.len() ==> item_repeats(#[trigger] items[i], digest, name, new)
}

/// A request that was carried out in a directory is not planned there again.
proof fn lemma_repeat_update(
    items: Seq<ItemView>,
    digest: Seq<char>,
    name: Seq<char>,
    new: Option<Seq<char>>,
    kind: Seq<char>,
)
    requires
        planned_update(items, digest, name, new, kind) is Ok,
        valid_source_name(name),
        items_repeat(items, digest, name, new),
    ensures
        ({
            let update = planned_update(items, digest, name, new, kind)->Ok_0;
            planned_update(items_after(items, update), digest, name, new, kind) == Ok::<
                _,
                ErrorView,
            >(None::<UpdateView>)
        }),
{
    match planned_update(items, digest, name, new, kind)->Ok_0 {
        Some(update) => {
            let (i, cfg) = law_update_has_target(items, digest, name, new, kind, update);
            let after = config_after(cfg, name, new);
            assert(item_repeats(items[i], digest, name, new));
            assert(applied(cfg, name, new) == Ok::<_, ErrorView>(Some(after)));
            if after == cfg {
                assert(applied(after, name, new) == applied(cfg, name, new));
            }
            law_update_reads_back(items, digest, name, new, kind, update, (i, cfg));
            lemma_applied_settled(after, name, new);
        },
        None => {},
    }
}

/// A request that changes nothing in an entry changes nothing in it when it is read back.
proof fn lemma_applied_settled(cfg: ConfigView, name: Seq<char>, new: Option<Seq<char>>)
    requires
        applied(cfg, name, new) == Ok::<_, ErrorView>(None::<ConfigView>),
    ensures
        applied(settled(cfg), name, new) == Ok::<_, ErrorView>(None::<ConfigView>),
{
    assert(config_options(settled(cfg)) =~= config_options(cfg));
}

/// A request that was carried out is not carried out again: made on the boot partition that the
/// first one wrote, it leaves every file alone.
pub proof fn law_repeat_leaves_files_alone(
    dir: BootDirView,
    booted_digest: Seq<char>,
    staged_digest: Option<Seq<char>>,
    name: Seq<char>,
    new: Option<Seq<char>>,
    update: BootUpdateView,
)
    requires
        planned_boot_dir(dir, booted_digest, staged_digest, name, new) == Ok::<_, ErrorView>(
            update,
        ),
        valid_source_name(name),
        items_repeat(dir.entries, booted_digest, name, new),
        match (dir.staged, staged_digest) {
            (Some(items), Some(digest)) => items_repeat(items, digest, name, new),
            _ => true,
        },
    ensures
        planned_boot_dir(
            boot_dir_after(dir, update),
            booted_digest,
            staged_digest,
            name,
            new,
        ) == Ok::<_, ErrorView>(BootUpdateView { booted: None, staged: None }),
{
    lemma_repeat_update(dir.entries, booted_digest, name, new, "booted"@);
    match (dir.staged, staged_digest) {
        (Some(items), Some(digest)) => {
            lemma_repeat_update(items, digest, name, new, "staged"@);
        },
        _ => {},
    }
}

/// Any text followed by `.conf` is the name of an entry, and `bootc_` followed by any text is a
/// name that this system gives; there are no other such names.
pub proof fn law_names(name: Seq<char>)
    ensures
        entry_name(name + ".conf"@),
        own_name("bootc_"@ + name),
        entry_name(name) ==> name == name.take(name.len() - 5) + ".conf"@,
        own_name(name) ==> name == "bootc_"@ + name.skip(6),
{
    reveal_strlit(".conf");
    reveal_strlit("bootc_");
    assert((name + ".conf"@).skip(name.len() as int) =~= ".conf"@);
    assert(("bootc_"@ + name).take(6) =~= "bootc_"@);
    if entry_name(name) {
        assert(name =~= name.take(name.len() - 5) + ".conf"@);
    }
    if own_name(name) {
        assert(name =~= "bootc_"@ + name.skip(6));
    }
}

/// What is found in a file by its name. A name that is any text followed by `.conf` is that of an
/// entry, and one that starts with `bootc_` as well is that of an entry of this system: it is
/// listed with its name and what it holds, and has to hold an entry.
pub proof fn law_own_entry(stem: Seq<char>, content: ContentView)
    ensures
        ({
            let name = "bootc_"@ + stem + ".conf"@;
            item_entry(ItemView::File { name, content }) == (match content {
                ContentView::Text(text) => match parsed_config(text) {
                    Ok(cfg) => Ok(Some((name, cfg))),
                    Err(error) => Err(ErrorView::MalformedEntry { file_name: name, error }),
                },
                ContentView::NotText => Err(ErrorView::NotText { file_name: name }),
                ContentView::Unreadable(report) => Err(ErrorView::Unreadable { report }),
            })
        }),
{
    let name = "bootc_"@ + stem + ".conf"@;
    assert(".conf"@.is_suffix_of(name)) by {
        assert(name.skip(name.len() - ".conf"@.len()) =~= ".conf"@);
    }
    assert("bootc_"@.is_prefix_of(name)) by {
        assert(name.take("bootc_"@.len() as int) =~= "bootc_"@);
    }
}

/// A file with any other name that ends in `.conf` is an entry of this system if it holds an entry
/// that carries a composefs digest; if not, it is ignored, whatever it holds.
pub proof fn law_other_entry(stem: Seq<char>, content: ContentView)
    requires
        !"bootc_"@.is_prefix_of(stem + ".conf"@),
    ensures
        ({
            let name = stem + ".conf"@;
            let item = item_entry(ItemView::File { name, content });
            match content {
                ContentView::Text(text) => match parsed_config(text) {
                    Ok(cfg) => if config_verity(cfg.cfg_type) is Ok {
                        item == Ok::<_, ErrorView>(Some((name, cfg)))
                    } else {
                        item == Ok::<_, ErrorView>(None::<EntryView>)
                    },
                    Err(_) => item == Ok::<_, ErrorView>(None::<EntryView>),
                },
                ContentView::NotText => item == Ok::<_, ErrorView>(None::<EntryView>),
                ContentView::Unreadable(report) => item == Err::<Option<EntryView>, _>(
                    ErrorView::Unreadable { report },
                ),
            }
        }),
{
    let name = stem + ".conf"@;
    assert(".conf"@.is_suffix_of(name)) by {
        assert(name.skip(name.len() - ".conf"@.len()) =~= ".conf"@);
    }
}

/// A file whose name does not end in `.conf` is ignored; an item that could not be read is an
/// error.
pub proof fn law_no_entry(name: Seq<char>, content: ContentView, report: Seq<char>)
    ensures
        !".conf"@.is_suffix_of(name) ==> item_entry(ItemView::File { name, content }) == Ok::<
            _,
            ErrorView,
        >(None::<EntryView>),
        item_entry(ItemView::Broken { report }) == Err::<Option<EntryView>, _>(
            ErrorView::Unreadable { report },
        ),
{
}

/// A listing has the entries of its items, in order; the first error is that of the listing.
pub proof fn law_listing(a: Seq<ItemView>, item: ItemView, b: Seq<ItemView>)
    ensures
        listed_entries(Seq::empty()) == Ok::<_, ErrorView>(Seq::<EntryView>::empty()),
        listed_entries(seq![item]) == (match item_entry(item) {
            Ok(Some(entry)) => Ok(seq![entry]),
            Ok(None) => Ok(seq![]),
            Err(e) => Err(e),
        }),
        listed_entries(a + b) == (match (listed_entries(a), listed_entries(b)) {
            (Err(e), _) => Err(e),
            (Ok(_), Err(e)) => Err(e),
            (Ok(x), Ok(y)) => Ok(x + y),
        }),
    decreases b.len(),
{
    let one = seq![item];
    assert(one.drop_last() =~= Seq::empty());
    assert(listed_entries(one.drop_last()) == Ok::<_, ErrorView>(Seq::<EntryView>::empty()));
    if let Ok(Some(entry)) = item_entry(item) {
        assert(Seq::<EntryView>::empty().push(entry) =~= seq![entry]);
    }
    if b.len() == 0 {
        assert(a + b =~= a);
        if let Ok(x) = listed_entries(a) {
            assert(x + Seq::<EntryView>::empty() =~= x);
        }
    } else {
        let front = b.drop_last();
        law_listing(a, item, front);
        assert((a + b).drop_last() =~= a + front);
        if let (Ok(x), Ok(y), Ok(Some(entry))) = (
            listed_entries(a),
            listed_entries(front),
            item_entry(b.last()),
        ) {
            assert((x + y).push(entry) =~= x + y.push(entry));
        }
    }
}

/// Every file of this system that holds an entry is listed, with its name and what it holds.
pub proof fn law_own_entries_listed(
    items: Seq<ItemView>,
    i: int,
    stem: Seq<char>,
    text: Seq<char>,
) -> (k: int)
    requires
        0 <= i < items.len(),
        items[i] == (ItemView::File {
            name: "bootc_"@ + stem + ".conf"@,
            content: ContentView::Text(text),
        }),
        parsed_config(text) is Ok,
        listed_entries(items) is Ok,
    ensures
        0 <= k < listed_entries(items)->Ok_0.len(),
        listed_entries(items)->Ok_0[k] == ("bootc_"@ + stem + ".conf"@, parsed_config(text)->Ok_0),
{
    let entry = ("bootc_"@ + stem + ".conf"@, parsed_config(text)->Ok_0);
    law_own_entry(stem, ContentView::Text(text));
    lemma_listed_update(items, i, items[i], entry)
}

/// An entry carries a digest if that is the digest found in it.
pub open spec fn has_digest(entry: EntryView, digest: Seq<char>) -> bool {
    config_verity(entry.1.cfg_type) == Ok::<Seq<char>, BlsError>(digest)
}

/// The plan for one entry: an update of its file to what the request makes of it, whatever the name
/// of the file, or none if the request changes nothing in it.
pub open spec fn plan_for(
    entry: EntryView,
    name: Seq<char>,
    new: Option<Seq<char>>,
) -> Result<Option<UpdateView>, ErrorView> {
    match applied(entry.1, name, new) {
        Ok(Some(after)) => Ok(
            Some(UpdateView { file_name: entry.0, content: config_text(after) }),
        ),
        Ok(None) => Ok(None),
        Err(e) => Err(e),
    }
}

/// If exactly one listed entry carries the digest, the plan is that for this entry: an update that
/// names its file if the request changes it, and none only if it does not.
pub proof fn law_target_planned(
    items: Seq<ItemView>,
    k: int,
    digest: Seq<char>,
    name: Seq<char>,
    new: Option<Seq<char>>,
    kind: Seq<char>,
)
    requires
        listed_entries(items) is Ok,
        0 <= k < listed_entries(items)->Ok_0.len(),
        has_digest(listed_entries(items)->Ok_0[k], digest),
        forall|m: int|
            0 <= m < listed_entries(items)->Ok_0.len() && m != k ==> !has_digest(
                #[trigger] listed_entries(items)->Ok_0[m],
                digest,
            ),
    ensures
        planned_update(items, digest, name, new, kind) == plan_for(
            listed_entries(items)->Ok_0[k],
            name,
            new,
        ),
{
    let entries = listed_entries(items)->Ok_0;
    assert forall|m: int| 0 <= m < entries.len() && m != k implies !carries_digest(
        #[trigger] entries[m],
        digest,
    ) by {
        assert(!has_digest(entries[m], digest));
    }
    lemma_one_target(entries, digest, k);
}

/// Without an entry that carries the digest, and with two of them, nothing is planned; an error of
/// the listing comes first.
pub proof fn law_no_plan(
    items: Seq<ItemView>,
    digest: Seq<char>,
    name: Seq<char>,
    new: Option<Seq<char>>,
    kind: Seq<char>,
)
    ensures
        match listed_entries(items) {
            Err(e) => planned_update(items, digest, name, new, kind) == Err::<
                Option<UpdateView>,
                _,
            >(e),
            Ok(entries) => {
                &&& (forall|m: int| 0 <= m < entries.len() ==> !has_digest(#[trigger] entries[m], digest))
                    ==> planned_update(items, digest, name, new, kind) == Err::<
                    Option<UpdateView>,
                    _,
                >(ErrorView::NoEntry { deployment_kind: kind })
                &&& (exists|k: int, m: int|
                    0 <= k < m < entries.len() && has_digest(#[trigger] entries[k], digest)
                        && has_digest(#[trigger] entries[m], digest)) ==> planned_update(
                    items,
                    digest,
                    name,
                    new,
                    kind,
                ) == Err::<Option<UpdateView>, _>(
                    ErrorView::MultipleEntries { deployment_kind: kind },
                )
            },
        },
{
    if let Ok(entries) = listed_entries(items) {
        lemma_no_target(entries, digest);
        if forall|m: int| 0 <= m < entries.len() ==> !has_digest(#[trigger] entries[m], digest) {
            assert forall|m: int| 0 <= m < entries.len() implies !carries_digest(
                #[trigger] entries[m],
                digest,
            ) by {
                assert(!has_digest(entries[m], digest));
            }
        }
        if exists|k: int, m: int|
            0 <= k < m < entries.len() && has_digest(#[trigger] entries[k], digest) && has_digest(
                #[trigger] entries[m],
                digest,
            ) {
            let (k, m) = choose|k: int, m: int|
                0 <= k < m < entries.len() && has_digest(#[trigger] entries[k], digest)
                    && has_digest(#[trigger] entries[m], digest);
            assert(carries_digest(entries[k], digest) && carries_digest(entries[m], digest));
            if entries_with_digest(entries, digest).len() == 1 {
                lemma_only_target(entries, digest, k);
            }
        }
    }
}

/// A request on a boot partition is planned for the booted deployment, in the entries that are
/// read, and for the staged one, in the staged entries, with the same source and the same
/// arguments. Nothing is staged without a staged deployment, and a staged deployment has to have
/// entries.
pub proof fn law_both_planned(
    dir: BootDirView,
    booted_digest: Seq<char>,
    staged_digest: Option<Seq<char>>,
    name: Seq<char>,
    new: Option<Seq<char>>,
)
    ensures
        ({
            let planned = planned_boot_dir(dir, booted_digest, staged_digest, name, new);
            match planned_update(dir.entries, booted_digest, name, new, "booted"@) {
                Err(e) => planned == Err::<BootUpdateView, _>(e),
                Ok(booted) => match (staged_digest, dir.staged) {
                    (None, _) => planned == Ok::<_, ErrorView>(
                        BootUpdateView { booted, staged: None },
                    ),
                    (Some(_), None) => planned == Err::<BootUpdateView, _>(
                        ErrorView::MissingStagedEntries,
                    ),
                    (Some(digest), Some(items)) => match planned_update(
                        items,
                        digest,
                        name,
                        new,
                        "staged"@,
                    ) {
                        Err(e) => planned == Err::<BootUpdateView, _>(e),
                        Ok(staged) => planned == Ok::<_, ErrorView>(
                            BootUpdateView { booted, staged },
                        ),
                    },
                },
            }
        }),
{
}

/// A request for a source with a name that cannot be one is refused; any other is planned.
pub proof fn law_request_planned(
    dir: BootDirView,
    booted_digest: Seq<char>,
    staged_digest: Option<Seq<char>>,
    source: Seq<char>,
    new: Option<Seq<char>>,
)
    ensures
        planned_request(dir, booted_digest, staged_digest, source, new) == (if source.len() == 0 {
            Err(ErrorView::EmptySourceName)
        } else if !valid_source_name(source) {
            Err(ErrorView::InvalidSourceName)
        } else {
            planned_boot_dir(dir, booted_digest, staged_digest, source, new)
        }),
{
}

/// An update that is written gives the file that it names its content, and changes no other item;
/// without an update a directory stays as it is.
pub proof fn law_update_written(items: Seq<ItemView>, update: UpdateView)
    ensures
        items_after(items, None) == items,
        items_after(items, Some(update)).len() == items.len(),
        forall|i: int|
            0 <= i < items.len() ==> #[trigger] items_after(items, Some(update))[i] == (
            match items[i] {
                ItemView::File { name, content } => if name == update.file_name {
                    ItemView::File { name, content: ContentView::Text(update.content) }
                } else {
                    items[i]
                },
                ItemView::Broken { report } => items[i],
            }),
{
}

/// What an update writes to a boot partition goes to the directory that it was planned for.
pub proof fn law_both_written(dir: BootDirView, update: BootUpdateView)
    ensures
        boot_dir_after(dir, update).entries == items_after(dir.entries, update.booted),
        dir.staged matches Some(items) ==> boot_dir_after(dir, update).staged == Some(
            items_after(items, update.staged),
        ),
        dir.staged is None ==> boot_dir_after(dir, update).staged is None,
{
}

/// Whether an item that held the entry `before` holds, after a request, what the request makes of
/// it: the same file with the text of the new entry, or the very same item where the request
/// changes nothing.
pub open spec fn item_rewritten(
    item: ItemView,
    after: ItemView,
    before: EntryView,
    name: Seq<char>,
    new: Option<Seq<char>>,
) -> bool {
    ||| after == item && request_made(before.1, before.1, name, new)
    ||| exists|cfg: ConfigView| #[trigger]
        request_made(before.1, cfg, name, new) && after == (ItemView::File {
            name: before.0,
            content: ContentView::Text(config_text(cfg)),
        })
}

/// The entry of a deployment after a request that was planned in its directory.
proof fn lemma_item_rewritten(
    items: Seq<ItemView>,
    i: int,
    entry: EntryView,
    digest: Seq<char>,
    name: Seq<char>,
    new: Option<Seq<char>>,
    kind: Seq<char>,
)
    requires
        planned_update(items, digest, name, new, kind) is Ok,
        name.len() > 0,
        0 <= i < items.len(),
        item_entry(items[i]) == Ok::<_, ErrorView>(Some(entry)),
        has_digest(entry, digest),
    ensures
        ({
            let update = planned_update(items, digest, name, new, kind)->Ok_0;
            &&& item_rewritten(items[i], items_after(items, update)[i], entry, name, new)
            &&& update is None <==> applied(entry.1, name, new) == Ok::<_, ErrorView>(
                None::<ConfigView>,
            )
        }),
{
    let entries = listed_entries(items)->Ok_0;
    let k = lemma_listed_update(items, i, items[i], entry);
    lemma_only_target(entries, digest, k);
    lemma_one_target(entries, digest, k);
    let update = planned_update(items, digest, name, new, kind)->Ok_0;
    assert(planned_update(items, digest, name, new, kind) == plan_for(entry, name, new));
    assert(entry.1.cfg_type is NonEFI);
    law_request_made(entry.1, name, new);
    if let Some(u) = update {
        let cfg = applied(entry.1, name, new)->Ok_0->0;
        assert(items[i] is File && items[i]->name == entry.0);
        assert(items_after(items, update)[i] == item_after(items[i], u));
        assert(request_made(entry.1, cfg, name, new));
    }
}

/// After a request that succeeds, the entry of the booted deployment is what the request makes of
/// it, and so is that of the staged deployment, if there is one: in each, the source owns exactly
/// what is given, and the command line is the merge of its own old one, what the source owned there
/// and what is given. Nothing is written only where the request changes nothing.
pub proof fn law_deployments_rewritten(
    dir: BootDirView,
    booted_digest: Seq<char>,
    staged_digest: Option<Seq<char>>,
    name: Seq<char>,
    new: Option<Seq<char>>,
    update: BootUpdateView,
)
    requires
        planned_boot_dir(dir, booted_digest, staged_digest, name, new) == Ok::<_, ErrorView>(
            update,
        ),
        name.len() > 0,
    ensures
        forall|i: int, entry: EntryView|
            0 <= i < dir.entries.len() && #[trigger] item_entry(dir.entries[i]) == Ok::<
                _,
                ErrorView,
            >(Some(entry)) && #[trigger] has_digest(entry, booted_digest) ==> {
                &&& item_rewritten(
                    dir.entries[i],
                    boot_dir_after(dir, update).entries[i],
                    entry,
                    name,
                    new,
                )
                &&& update.booted is None <==> applied(entry.1, name, new) == Ok::<_, ErrorView>(
                    None::<ConfigView>,
                )
            },
        (dir.staged, staged_digest) matches (Some(items), Some(digest)) ==> forall|
            i: int,
            entry: EntryView,
        |
            0 <= i < items.len() && #[trigger] item_entry(items[i]) == Ok::<_, ErrorView>(
                Some(entry),
            ) && #[trigger] has_digest(entry, digest) ==> {
                &&& item_rewritten(
                    items[i],
                    boot_dir_after(dir, update).staged->0[i],
                    entry,
                    name,
                    new,
                )
                &&& update.staged is None <==> applied(entry.1, name, new) == Ok::<_, ErrorView>(
                    None::<ConfigView>,
                )
            },
{
    law_both_planned(dir, booted_digest, staged_digest, name, new);
    law_both_written(dir, update);
    assert forall|i: int, entry: EntryView|
        0 <= i < dir.entries.len() && #[trigger] item_entry(dir.entries[i]) == Ok::<_, ErrorView>(
            Some(entry),
        ) && #[trigger] has_digest(entry, booted_digest) implies item_rewritten(
        dir.entries[i],
        boot_dir_after(dir, update).entries[i],
        entry,
        name,
        new,
    ) && (update.booted is None <==> applied(entry.1, name, new) == Ok::<_, ErrorView>(
        None::<ConfigView>,
    )) by {
        lemma_item_rewritten(dir.entries, i, entry, booted_digest, name, new, "booted"@);
    }
    if let (Some(items), Some(digest)) = (dir.staged, staged_digest) {
        assert forall|i: int, entry: EntryView|
            0 <= i < items.len() && #[trigger] item_entry(items[i]) == Ok::<_, ErrorView>(
                Some(entry),
            ) && #[trigger] has_digest(entry, digest) implies item_rewritten(
            items[i],
            boot_dir_after(dir, update).staged->0[i],
            entry,
            name,
            new,
        ) && (update.staged is None <==> applied(entry.1, name, new) == Ok::<_, ErrorView>(
            None::<ConfigView>,
        )) by {
            lemma_item_rewritten(items, i, entry, digest, name, new, "staged"@);
        }
    }
}

/// A request that succeeds had an entry to change for each deployment: one for the booted, and one
/// for the staged if there is one.
pub proof fn law_deployments_found(
    dir: BootDirView,
    booted_digest: Seq<char>,
    staged_digest: Option<Seq<char>>,
    name: Seq<char>,
    new: Option<Seq<char>>,
)
    requires
        planned_boot_dir(dir, booted_digest, staged_digest, name, new) is Ok,
    ensures
        exists|i: int|
            0 <= i < dir.entries.len() && (#[trigger] item_entry(dir.entries[i]) matches Ok(
                Some(entry),
            ) && has_digest(entry, booted_digest)),
        staged_digest matches Some(digest) ==> dir.staged matches Some(items) && exists|i: int|
            0 <= i < items.len() && (#[trigger] item_entry(items[i]) matches Ok(Some(entry))
                && has_digest(entry, digest)),
{
    law_both_planned(dir, booted_digest, staged_digest, name, new);
    let i = lemma_target_item(dir.entries, booted_digest, name, new, "booted"@);
    assert(item_entry(dir.entries[i]) is Ok);
    if let (Some(items), Some(digest)) = (dir.staged, staged_digest) {
        let j = lemma_target_item(items, digest, name, new, "staged"@);
        assert(item_entry(items[j]) is Ok);
    }
}

/// The item whose entry a plan was made for.
proof fn lemma_target_item(
    items: Seq<ItemView>,
    digest: Seq<char>,
    name: Seq<char>,
    new: Option<Seq<char>>,
    kind: Seq<char>,
) -> (i: int)
    requires
        planned_update(items, digest, name, new, kind) is Ok,
    ensures
        0 <= i < items.len(),
        item_entry(items[i]) matches Ok(Some(entry)) && has_digest(entry, digest),
{
    let entries = listed_entries(items)->Ok_0;
    let k = lemma_target_entry(entries, digest, 0);
    lemma_entry_item(items, k)
}

/// A listing is seen item by item, and each item as it is.
pub proof fn law_listing_seen(dir: BootDir, item: DirItem)
    ensures
        dir@.entries == Seq::new(dir.entries@.len(), |i: int| dir.entries@[i]@),
        match dir.staged {
            Some(items) => dir@.staged == Some(Seq::new(items@.len(), |i: int| items@[i]@)),
            None => dir@.staged is None,
        },
        match item {
            DirItem::Broken { report } => item@ == (ItemView::Broken { report: report@ }),
            DirItem::File { name, content } => item@ == (ItemView::File {
                name: name@,
                content: match content {
                    FileContent::Text(text) => ContentView::Text(text@),
                    FileContent::NotText => ContentView::NotText,
                    FileContent::Unreadable(report) => ContentView::Unreadable(report@),
                },
            }),
        },
{
    assert(dir@.entries =~= Seq::new(dir.entries@.len(), |i: int| dir.entries@[i]@));
    if let Some(items) = dir.staged {
        assert(dir@.staged->0 =~= Seq::new(items@.len(), |i: int| items@[i]@));
    }
}

/// An update is seen as it is, and so is an entry.
pub proof fn law_results_seen(update: BootDirUpdate, cfg: BLSConfig)
    ensures
        match update.booted {
            Some(u) => update@.booted == Some(
                UpdateView { file_name: u.file_name@, content: u.content@ },
            ),
            None => update@.booted is None,
        },
        match update.staged {
            Some(u) => update@.staged == Some(
                UpdateView { file_name: u.file_name@, content: u.content@ },
            ),
            None => update@.staged is None,
        },
        cfg@.version == cfg.version@,
        cfg@.extra == cfg.extra@,
        match cfg.title {
            Some(t) => cfg@.title == Some(t@),
            None => cfg@.title is None,
        },
        match cfg.machine_id {
            Some(t) => cfg@.machine_id == Some(t@),
            None => cfg@.machine_id is None,
        },
        match cfg.sort_key {
            Some(t) => cfg@.sort_key == Some(t@),
            None => cfg@.sort_key is None,
        },
        match cfg.cfg_type {
            BLSConfigType::EFI { key, efi } => cfg@.cfg_type == (TypeView::EFI { key, efi: efi@ }),
            BLSConfigType::NonEFI { linux, initrd, options } => cfg@.cfg_type == (
            TypeView::NonEFI {
                linux: linux@,
                initrd: Seq::new(initrd@.len(), |i: int| initrd@[i]@),
                options: match options {
                    Some(t) => Some(t@),
                    None => None,
                },
            }),
            BLSConfigType::Unknown => cfg@.cfg_type is Unknown,
        },
{
    if let BLSConfigType::NonEFI { linux, initrd, options } = cfg.cfg_type {
        assert(cfg@.cfg_type->initrd =~= Seq::new(initrd@.len(), |i: int| initrd@[i]@));
    }
}

/// Lists are seen element by element, and an update that may be there as it is.
pub proof fn law_lists_seen(
    items: Seq<DirItem>,
    entries: Seq<(String, BLSConfig)>,
    update: PlannedEntryUpdate,
)
    ensures
        items_view(items) == Seq::new(items.len(), |i: int| items[i]@),
        entries_view(entries) == Seq::new(entries.len(), |i: int| (entries[i].0@, entries[i].1@)),
        update_view(None) is None,
        update_view(Some(update)) == Some(
            UpdateView { file_name: update.file_name@, content: update.content@ },
        ),
{
    assert(items_view(items) =~= Seq::new(items.len(), |i: int| items[i]@));
    assert(entries_view(entries) =~= Seq::new(
        entries.len(),
        |i: int| (entries[i].0@, entries[i].1@),
    ));
}

/// An error is seen as it is.
pub proof fn law_errors_seen(e: Error)
    ensures
        match e {
            Error::EmptySourceName => e@ is EmptySourceName,
            Error::InvalidSourceName => e@ is InvalidSourceName,
            Error::Unreadable { report } => e@ == (ErrorView::Unreadable { report: report@ }),
            Error::NotText { file_name } => e@ == (ErrorView::NotText { file_name: file_name@ }),
            Error::MalformedEntry { file_name, error } => e@ == (ErrorView::MalformedEntry {
                file_name: file_name@,
                error,
            }),
            Error::UkiEntry => e@ is UkiEntry,
            Error::UnknownEntryType => e@ is UnknownEntryType,
            Error::NoEntry { deployment_kind } => e@ == (ErrorView::NoEntry {
                deployment_kind: deployment_kind@,
            }),
            Error::MultipleEntries { deployment_kind } => e@ == (ErrorView::MultipleEntries {
                deployment_kind: deployment_kind@,
            }),
            Error::MissingStagedEntries => e@ is MissingStagedEntries,
        },
{
}

/// What the user is told of an error names the file or the deployment that it is about.
pub proof fn law_error_texts(s: Seq<char>, error: BlsError)
    ensures
        error_text(ErrorView::Unreadable { report: s }) == s,
        error_text(ErrorView::NotText { file_name: s }) == "Reading BLS entry "@ + s,
        error_text(ErrorView::MalformedEntry { file_name: s, error }) == "Parsing BLS entry "@ + s,
        error_text(ErrorView::NoEntry { deployment_kind: s }) == "No BLS entry found for "@ + s
            + " deployment"@,
        error_text(ErrorView::MultipleEntries { deployment_kind: s })
            == "Multiple BLS entries found for "@ + s + " deployment"@,
{
}

} // verus!
