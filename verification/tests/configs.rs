use loader_entries::bls::{parse_bls_config, BLSConfig, BLSConfigType, EfiKey};
use loader_entries::entries::{apply_source_to_config, source_options_from_config};
use loader_entries::error::{BlsError, Error};
use loader_entries::source::SourceName;
use loader_entries::text::{
    rest_after_last, same_text, split, split_once, strip_prefix, strip_suffix, trim,
};

const FULL: &str = "\
# a comment
title  Fedora Linux
version 42
linux /vmlinuz
initrd /initrd-a
initrd /initrd-b

options rw quiet
machine-id 4711
sort-key fedora
x-options-source-admin quiet
grub_users $grub_users
grub_users root
oneword
";

fn options(cfg: &BLSConfig) -> Option<&str> {
    match &cfg.cfg_type {
        BLSConfigType::NonEFI { options, .. } => options.as_deref(),
        _ => panic!("not a kernel entry"),
    }
}

fn with_options(value: &str) -> BLSConfig {
    parse_bls_config(&format!("version 1\nlinux /l\noptions {}\n", value)).unwrap()
}

#[test]
fn fields_are_read() {
    let cfg = parse_bls_config(FULL).unwrap();
    assert_eq!(cfg.title.as_deref(), Some("Fedora Linux"));
    assert_eq!(cfg.version, "42");
    assert_eq!(cfg.machine_id.as_deref(), Some("4711"));
    assert_eq!(cfg.sort_key.as_deref(), Some("fedora"));
    assert_eq!(options(&cfg), Some("rw quiet"));
    assert_eq!(cfg.extra.len(), 2);
    assert_eq!(cfg.extra.get("grub_users"), Some("root"));
    assert_eq!(cfg.extra.get("oneword"), None);
    match cfg.cfg_type {
        BLSConfigType::NonEFI { linux, initrd, .. } => {
            assert_eq!(linux, "/vmlinuz");
            assert_eq!(initrd, vec!["/initrd-a", "/initrd-b"]);
        }
        _ => panic!("not a kernel entry"),
    }
}

#[test]
fn fields_are_written_in_order() {
    let text = parse_bls_config(FULL).unwrap().to_string();
    assert_eq!(
        text,
        "title Fedora Linux\n\
         version 42\n\
         linux /vmlinuz\n\
         initrd /initrd-a\n\
         initrd /initrd-b\n\
         options rw quiet\n\
         machine-id 4711\n\
         sort-key fedora\n\
         x-options-source-admin quiet\n\
         grub_users root\n"
    );
    // What is written is read back, and written the same.
    assert_eq!(parse_bls_config(&text).unwrap().to_string(), text);
}

#[test]
fn efi_entries_are_read_and_written() {
    for (key, text) in [
        (EfiKey::Efi, "version 1\nefi /EFI/a.efi\n"),
        (EfiKey::Uki, "version 1\nuki /EFI/a.efi\n"),
    ] {
        let cfg = parse_bls_config(text).unwrap();
        assert_eq!(cfg.to_string(), text);
        match cfg.cfg_type {
            BLSConfigType::EFI { key: read, efi } => {
                assert_eq!(read, key);
                assert_eq!(efi, "/EFI/a.efi");
            }
            _ => panic!("not an EFI entry"),
        }
    }
}

#[test]
fn texts_without_an_entry_are_refused() {
    for (text, error) in [
        ("", BlsError::MissingVersion),
        ("linux /l\n", BlsError::MissingVersion),
        ("version\nlinux /l\n", BlsError::MissingVersion),
        ("version 1\n", BlsError::MissingKernel),
        ("version 1\nlinux /l\nuki /u\n", BlsError::ConflictingKernels),
        ("version 1\nefi /e\nuki /u\n", BlsError::ConflictingKernels),
    ] {
        assert_eq!(parse_bls_config(text).unwrap_err(), error);
    }
}

#[test]
fn digests_are_found() {
    let digest = |text: &str| with_options(text).get_verity();
    assert_eq!(digest("rw composefs=abcd quiet").unwrap(), "abcd");
    assert_eq!(digest("composefs=?abcd").unwrap(), "abcd");
    assert_eq!(digest("composefs=a composefs=b").unwrap(), "a");
    assert_eq!(digest("x=\"composefs=no\" \"composefs=a b\"").unwrap(), "a b");
    assert_eq!(digest("composefs").unwrap_err(), BlsError::MissingDigest);
    assert_eq!(
        digest("composefs composefs=a").unwrap_err(),
        BlsError::MissingDigest
    );
    assert_eq!(digest("rw").unwrap_err(), BlsError::MissingDigest);

    let mut cfg = parse_bls_config("version 1\nlinux /l\n").unwrap();
    assert_eq!(cfg.get_verity().unwrap_err(), BlsError::MissingOptions);
    cfg.cfg_type = BLSConfigType::Unknown;
    assert_eq!(cfg.get_verity().unwrap_err(), BlsError::UnknownType);

    let uki = |path: &str| {
        parse_bls_config(&format!("version 1\nuki {}\n", path))
            .unwrap()
            .get_verity()
    };
    assert_eq!(uki("/EFI/Linux/bootc_composefs-abcd.efi").unwrap(), "abcd");
    assert_eq!(uki("bootc_composefs-abcd.efi").unwrap(), "abcd");
    assert_eq!(uki("/EFI/abcd.efi").unwrap_err(), BlsError::ForeignEfi);
    assert_eq!(
        uki("/bootc_composefs-abcd").unwrap_err(),
        BlsError::ForeignEfi
    );
}

#[test]
fn sources_are_read_from_their_keys() {
    let cfg = parse_bls_config(
        "version 1\nlinux /l\nx-options-source-admin a=1\nx-options-source- b\nother c\n",
    )
    .unwrap();
    let sources = source_options_from_config(&cfg);
    assert_eq!(sources.len(), 1);
    assert_eq!(sources.get("admin"), Some("a=1"));
    assert_eq!(sources.get("other"), None);
}

#[test]
fn other_sources_and_fields_are_kept() {
    let mut cfg = parse_bls_config(FULL).unwrap();
    let tuned = SourceName::parse("tuned").unwrap();
    assert!(apply_source_to_config(&mut cfg, &tuned, Some("nohz=on")).unwrap());
    assert_eq!(options(&cfg), Some("rw quiet nohz=on"));
    assert_eq!(cfg.extra.get("x-options-source-tuned"), Some("nohz=on"));
    assert_eq!(cfg.extra.get("x-options-source-admin"), Some("quiet"));
    assert_eq!(cfg.extra.get("grub_users"), Some("root"));
    assert_eq!(cfg.title.as_deref(), Some("Fedora Linux"));

    let read = parse_bls_config(&cfg.to_string()).unwrap();
    assert_eq!(read.extra.get("x-options-source-tuned"), Some("nohz=on"));
    assert_eq!(options(&read), Some("rw quiet nohz=on"));
}

#[test]
fn clearing_twice_changes_nothing() {
    let mut cfg = parse_bls_config(FULL).unwrap();
    let admin = SourceName::parse("admin").unwrap();
    assert!(apply_source_to_config(&mut cfg, &admin, Some("")).unwrap());
    assert_eq!(options(&cfg), Some("rw"));
    assert_eq!(cfg.extra.get("x-options-source-admin"), None);
    assert!(!apply_source_to_config(&mut cfg, &admin, Some("")).unwrap());
    assert!(!apply_source_to_config(&mut cfg, &admin, None).unwrap());
}

#[test]
fn a_request_that_only_changes_the_tracking_is_a_change() {
    let mut cfg = with_options("a=b c");
    let admin = SourceName::parse("admin").unwrap();
    assert!(apply_source_to_config(&mut cfg, &admin, Some("a=b")).unwrap());
    assert_eq!(options(&cfg), Some("a=b c"));
    assert_eq!(cfg.extra.get("x-options-source-admin"), Some("a=b"));
}

#[test]
fn setting_and_clearing_restores_the_entry() {
    let mut cfg = parse_bls_config(FULL).unwrap();
    let before = cfg.to_string();
    let tuned = SourceName::parse("tuned").unwrap();
    assert!(apply_source_to_config(&mut cfg, &tuned, Some("a=1 b=\"x y\"")).unwrap());
    assert!(apply_source_to_config(&mut cfg, &tuned, None).unwrap());
    assert_eq!(cfg.to_string(), before);
}

#[test]
fn an_empty_command_line_is_read_back_as_none() {
    let mut cfg = parse_bls_config("version 1\nlinux /l\n").unwrap();
    let admin = SourceName::parse("admin").unwrap();
    assert!(!apply_source_to_config(&mut cfg, &admin, None).unwrap());
    assert!(apply_source_to_config(&mut cfg, &admin, Some("a")).unwrap());
    assert_eq!(options(&cfg), Some("a"));
    assert!(apply_source_to_config(&mut cfg, &admin, None).unwrap());
    assert_eq!(options(&cfg), Some(""));
    let read = parse_bls_config(&cfg.to_string()).unwrap();
    assert_eq!(options(&read), None);
}

#[test]
fn the_digest_survives_a_request() {
    let mut cfg = with_options("composefs=abcd rw");
    let admin = SourceName::parse("admin").unwrap();
    assert!(apply_source_to_config(&mut cfg, &admin, Some("composefs=ffff")).unwrap());
    assert_eq!(options(&cfg), Some("composefs=abcd rw composefs=ffff"));
    assert_eq!(cfg.get_verity().unwrap(), "abcd");
}

#[test]
fn entries_without_a_command_line_of_their_own_are_refused() {
    let admin = SourceName::parse("admin").unwrap();
    let mut cfg = parse_bls_config("version 1\nuki /u\n").unwrap();
    let err = apply_source_to_config(&mut cfg, &admin, Some("a")).unwrap_err();
    assert!(matches!(err, Error::UkiEntry));
    assert_eq!(
        err.to_string(),
        "Changing kernel arguments is not supported for UKI (Type2) boot entries"
    );
    cfg.cfg_type = BLSConfigType::Unknown;
    let err = apply_source_to_config(&mut cfg, &admin, Some("a")).unwrap_err();
    assert!(matches!(err, Error::UnknownEntryType));
    assert_eq!(err.to_string(), "Unknown BLS config type");
}

#[test]
fn texts_are_cut() {
    assert_eq!(trim(" \u{3000}\ta b\u{a0}\n"), "a b");
    assert_eq!(trim(" \u{2003} "), "");
    assert_eq!(split("a\n\nb\n", '\n'), vec!["a", "", "b", ""]);
    assert_eq!(split("", '\n'), vec![""]);
    assert_eq!(split_once("k v w", ' '), Some(("k", "v w")));
    assert_eq!(split_once("k", ' '), None);
    assert_eq!(rest_after_last("/a/b", '/'), "b");
    assert_eq!(rest_after_last("a", '/'), "a");
    assert_eq!(strip_prefix("\u{e9}ab", "\u{e9}"), Some("ab"));
    assert_eq!(strip_prefix("ab", "b"), None);
    assert_eq!(strip_suffix("a.conf", ".conf"), Some("a"));
    assert_eq!(strip_suffix("conf", ".conf"), None);
    assert!(same_text("a", "a") && !same_text("a", "b"));
}
