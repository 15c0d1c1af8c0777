use loader_entries::bls::parse_bls_config;
use loader_entries::entries::{
    apply_source_to_config, apply_to_boot_dir, read_entries, BootDir, DirItem, FileContent,
};
use loader_entries::source::SourceName;

const ENTRY: &str = "\
title Dakota (bluefin)
version 20260808
linux /boot/1234/vmlinuz
initrd /boot/1234/initrd
options root=LABEL=root rw composefs=abcd1234 rhgb quiet
";

#[test]
fn test_apply_source_add_update_remove() {
    let mut cfg = parse_bls_config(ENTRY).unwrap();
    let source = SourceName::parse("admin").unwrap();

    // Add
    let changed = apply_source_to_config(&mut cfg, &source, Some("amdgpu.runpm=0")).unwrap();
    assert!(changed);
    let text = cfg.to_string();
    assert!(
        text.contains("options root=LABEL=root rw composefs=abcd1234 rhgb quiet amdgpu.runpm=0")
    );
    assert!(text.contains("x-options-source-admin amdgpu.runpm=0"));

    // Idempotent
    let changed = apply_source_to_config(&mut cfg, &source, Some("amdgpu.runpm=0")).unwrap();
    assert!(!changed);

    // Update replaces only this source's args
    let changed = apply_source_to_config(&mut cfg, &source, Some("amdgpu.runpm=1")).unwrap();
    assert!(changed);
    let text = cfg.to_string();
    assert!(text.contains("amdgpu.runpm=1"));
    assert!(!text.contains("amdgpu.runpm=0"));

    // Remove drops the args and the tracking key
    let changed = apply_source_to_config(&mut cfg, &source, None).unwrap();
    assert!(changed);
    let text = cfg.to_string();
    assert!(!text.contains("amdgpu.runpm"));
    assert!(!text.contains("x-options-source-admin"));
    assert!(text.contains("options root=LABEL=root rw composefs=abcd1234 rhgb quiet"));
}

const BOOTED_DIGEST: &str = "aaaa1111";
const ROLLBACK_DIGEST: &str = "bbbb2222";
const STAGED_DIGEST: &str = "cccc3333";

fn entry_text(digest: &str) -> String {
    format!(
        "title Dakota (bluefin)\n\
         version 20260808\n\
         linux /boot/{digest}/vmlinuz\n\
         initrd /boot/{digest}/initrd\n\
         options root=LABEL=root rw composefs={digest} rhgb quiet\n"
    )
}

fn uki_entry_text(digest: &str) -> String {
    format!(
        "title Dakota (bluefin)\n\
         version 20260808\n\
         uki /EFI/Linux/bootc_composefs-{digest}.efi\n"
    )
}

fn file(name: &str, content: String) -> DirItem {
    DirItem::File {
        name: name.to_string(),
        content: FileContent::Text(content),
    }
}

fn content(items: &[DirItem], wanted: &str) -> String {
    for item in items {
        if let DirItem::File {
            name,
            content: FileContent::Text(text),
        } = item
        {
            if name == wanted {
                return text.clone();
            }
        }
    }
    panic!("{} is not there", wanted)
}

fn fixture_boot_dir() -> BootDir {
    BootDir {
        entries: vec![
            file("bootc_dakota-20260808-1.conf", entry_text(BOOTED_DIGEST)),
            file("bootc_dakota-20260807-0.conf", entry_text(ROLLBACK_DIGEST)),
        ],
        staged: None,
    }
}

#[test]
fn test_read_entries_ignores_foreign_and_accepts_legacy_names() {
    let mut boot = fixture_boot_dir();
    boot.entries
        .push(file("foreign.conf", "not a valid BLS entry\n".to_string()));
    boot.entries
        .push(file("legacy-name.conf", entry_text(STAGED_DIGEST)));

    let found = read_entries(&boot.entries).unwrap();
    assert_eq!(found.len(), 3);
    assert!(found.iter().any(|(name, _)| name == "legacy-name.conf"));
    assert!(!found.iter().any(|(name, _)| name == "foreign.conf"));
}

#[test]
fn test_apply_to_boot_dir_targets_booted_entry_only() {
    let mut boot = fixture_boot_dir();
    let source = SourceName::parse("admin").unwrap();

    let changed = apply_to_boot_dir(
        &mut boot,
        BOOTED_DIGEST,
        None,
        &source,
        Some("amdgpu.runpm=0"),
    )
    .unwrap()
    .changed();
    assert!(changed);

    let booted = content(&boot.entries, "bootc_dakota-20260808-1.conf");
    assert!(booted.contains("amdgpu.runpm=0"));
    assert!(booted.contains("x-options-source-admin amdgpu.runpm=0"));

    // The rollback entry must be byte-for-byte untouched.
    let rollback = content(&boot.entries, "bootc_dakota-20260807-0.conf");
    assert_eq!(rollback, entry_text(ROLLBACK_DIGEST));
}

#[test]
fn test_apply_to_boot_dir_unknown_digest_fails() {
    let mut boot = fixture_boot_dir();
    let source = SourceName::parse("admin").unwrap();
    assert!(apply_to_boot_dir(&mut boot, "ffff9999", None, &source, Some("a=b")).is_err());
}

#[test]
fn test_apply_to_boot_dir_propagates_only_to_staged_target() {
    let mut boot = fixture_boot_dir();
    boot.staged = Some(vec![
        file("bootc_dakota-20260809-1.conf", entry_text(STAGED_DIGEST)),
        file("bootc_dakota-20260808-0.conf", entry_text(BOOTED_DIGEST)),
    ]);

    let source = SourceName::parse("admin").unwrap();
    let changed = apply_to_boot_dir(
        &mut boot,
        BOOTED_DIGEST,
        Some(STAGED_DIGEST),
        &source,
        Some("amdgpu.runpm=0"),
    )
    .unwrap()
    .changed();
    assert!(changed);

    let staged = boot.staged.as_ref().unwrap();
    let staged_text = content(staged, "bootc_dakota-20260809-1.conf");
    assert!(staged_text.contains("amdgpu.runpm=0"));
    assert!(staged_text.contains("x-options-source-admin amdgpu.runpm=0"));

    // The secondary entry becomes rollback after finalization and must keep
    // the kargs associated with that deployment.
    let future_rollback = content(staged, "bootc_dakota-20260808-0.conf");
    assert_eq!(future_rollback, entry_text(BOOTED_DIGEST));

    // Removal propagates to the pending target too.
    let changed = apply_to_boot_dir(
        &mut boot,
        BOOTED_DIGEST,
        Some(STAGED_DIGEST),
        &source,
        None,
    )
    .unwrap()
    .changed();
    assert!(changed);
    let staged_text = content(
        boot.staged.as_ref().unwrap(),
        "bootc_dakota-20260809-1.conf",
    );
    assert!(!staged_text.contains("amdgpu.runpm"));
    assert!(!staged_text.contains("x-options-source-admin"));
}

#[test]
fn test_stale_staged_entries_without_metadata_are_ignored() {
    let mut boot = fixture_boot_dir();
    boot.staged = Some(vec![file(
        "bootc_dakota-20260809-1.conf",
        entry_text(STAGED_DIGEST),
    )]);

    let source = SourceName::parse("admin").unwrap();
    let changed = apply_to_boot_dir(
        &mut boot,
        BOOTED_DIGEST,
        None,
        &source,
        Some("amdgpu.runpm=0"),
    )
    .unwrap()
    .changed();
    assert!(changed);

    let stale = content(
        boot.staged.as_ref().unwrap(),
        "bootc_dakota-20260809-1.conf",
    );
    assert_eq!(stale, entry_text(STAGED_DIGEST));
}

#[test]
fn test_staged_validation_happens_before_booted_write() {
    let mut boot = fixture_boot_dir();
    boot.staged = Some(vec![file(
        "bootc_dakota-20260809-1.conf",
        uki_entry_text(STAGED_DIGEST),
    )]);
    let before = content(&boot.entries, "bootc_dakota-20260808-1.conf");

    let source = SourceName::parse("admin").unwrap();
    let err = apply_to_boot_dir(
        &mut boot,
        BOOTED_DIGEST,
        Some(STAGED_DIGEST),
        &source,
        Some("amdgpu.runpm=0"),
    )
    .unwrap_err();
    assert!(err.to_string().contains("not supported for UKI"));

    let after = content(&boot.entries, "bootc_dakota-20260808-1.conf");
    assert_eq!(before, after);
}

#[test]
fn test_apply_to_boot_dir_idempotent_leaves_files_alone() {
    let mut boot = fixture_boot_dir();
    let source = SourceName::parse("admin").unwrap();

    let changed = apply_to_boot_dir(
        &mut boot,
        BOOTED_DIGEST,
        None,
        &source,
        Some("amdgpu.runpm=0"),
    )
    .unwrap()
    .changed();
    assert!(changed);
    let after_first = content(&boot.entries, "bootc_dakota-20260808-1.conf");

    let changed = apply_to_boot_dir(
        &mut boot,
        BOOTED_DIGEST,
        None,
        &source,
        Some("amdgpu.runpm=0"),
    )
    .unwrap()
    .changed();
    assert!(!changed);
    let after_second = content(&boot.entries, "bootc_dakota-20260808-1.conf");
    assert_eq!(after_first, after_second);
}

#[test]
fn test_apply_to_boot_dir_uki_entry_fails_cleanly() {
    let mut boot = BootDir {
        entries: vec![file(
            "bootc_dakota-20260808-1.conf",
            uki_entry_text(BOOTED_DIGEST),
        )],
        staged: None,
    };

    let source = SourceName::parse("admin").unwrap();
    let err = apply_to_boot_dir(&mut boot, BOOTED_DIGEST, None, &source, Some("a=b")).unwrap_err();
    assert!(err.to_string().contains("not supported for UKI"));
}
