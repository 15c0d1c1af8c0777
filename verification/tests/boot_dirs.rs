use loader_entries::entries::{
    apply_to_boot_dir, is_entry_name, plan_entry_update, read_entries,
    set_options_for_source_composefs, BootDir, DirItem, FileContent,
};
use loader_entries::error::{BlsError, Error};
use loader_entries::source::SourceName;

fn file(name: &str, content: &str) -> DirItem {
    DirItem::File {
        name: name.to_string(),
        content: FileContent::Text(content.to_string()),
    }
}

fn entry(digest: &str) -> String {
    format!("version 1\nlinux /l\noptions composefs={}\n", digest)
}

fn admin() -> SourceName {
    SourceName::parse("admin").unwrap()
}

#[test]
fn only_conf_files_are_entries() {
    assert!(is_entry_name("bootc_a.conf"));
    assert!(is_entry_name(".conf"));
    assert!(!is_entry_name("bootc_a.conf~"));
    assert!(!is_entry_name("conf"));

    // The content of any other file does not matter.
    let items = vec![DirItem::File {
        name: "bootc_a.txt".to_string(),
        content: FileContent::Unreadable("not read".to_string()),
    }];
    assert_eq!(read_entries(&items).unwrap().len(), 0);
}

#[test]
fn foreign_entries_are_ignored() {
    let items = vec![
        file("a.conf", "version 1\nlinux /l\noptions rw\n"),
        file("b.conf", "nonsense\n"),
        file("bootc_c.conf", "version 1\nlinux /l\n"),
        file("d.conf", &entry("dd")),
    ];
    let found = read_entries(&items).unwrap();
    let names: Vec<&str> = found.iter().map(|(name, _)| name.as_str()).collect();
    assert_eq!(names, vec!["bootc_c.conf", "d.conf"]);
}

fn not_text(name: &str) -> DirItem {
    DirItem::File {
        name: name.to_string(),
        content: FileContent::NotText,
    }
}

#[test]
fn a_foreign_file_that_is_not_text_is_ignored() {
    let items = vec![
        not_text("foreign.conf"),
        file("bootc_a.conf", &entry("aa")),
        not_text("bootc_image.bin"),
    ];
    let found = read_entries(&items).unwrap();
    let names: Vec<&str> = found.iter().map(|(name, _)| name.as_str()).collect();
    assert_eq!(names, vec!["bootc_a.conf"]);

    // Requests are answered as without it, in both directories, and it stays.
    let mut boot = BootDir {
        entries: items,
        staged: Some(vec![
            file("bootc_b.conf", &entry("bb")),
            not_text("foreign.conf"),
        ]),
    };
    let update =
        set_options_for_source_composefs(&mut boot, "aa", Some("bb"), "admin", Some("x")).unwrap();
    assert_eq!(update.booted.unwrap().file_name, "bootc_a.conf");
    assert_eq!(update.staged.unwrap().file_name, "bootc_b.conf");
    match &boot.entries[0] {
        DirItem::File { name, content } => {
            assert_eq!(name, "foreign.conf");
            assert!(matches!(content, FileContent::NotText));
        }
        DirItem::Broken { .. } => panic!("no file"),
    }
}

#[test]
fn an_own_file_that_is_not_text_is_refused() {
    let items = vec![
        file("bootc_a.conf", &entry("aa")),
        not_text("bootc_b.conf"),
        file("bootc_c.conf", "version 1\n"),
    ];
    let err = read_entries(&items).unwrap_err();
    assert_eq!(err.to_string(), "Reading BLS entry bootc_b.conf");
    match err {
        Error::NotText { file_name } => assert_eq!(file_name, "bootc_b.conf"),
        _ => panic!("another error"),
    }
    let err = plan_entry_update(&items, "aa", &admin(), Some("x"), "booted").unwrap_err();
    assert!(matches!(err, Error::NotText { .. }));
}

#[test]
fn the_first_error_of_a_listing_is_reported() {
    let unreadable = || DirItem::File {
        name: "x.conf".to_string(),
        content: FileContent::Unreadable("no permission".to_string()),
    };
    let broken = || DirItem::Broken {
        report: "input/output error".to_string(),
    };
    let malformed = || file("bootc_a.conf", "version 1\n");

    let err = read_entries(&vec![unreadable(), malformed()]).unwrap_err();
    assert_eq!(err.to_string(), "no permission");
    let err = read_entries(&vec![broken(), malformed()]).unwrap_err();
    assert_eq!(err.to_string(), "input/output error");
    let err = read_entries(&vec![malformed(), broken()]).unwrap_err();
    assert_eq!(err.to_string(), "Parsing BLS entry bootc_a.conf");
    match err {
        Error::MalformedEntry { file_name, error } => {
            assert_eq!(file_name, "bootc_a.conf");
            assert_eq!(error, BlsError::MissingKernel);
        }
        _ => panic!("another error"),
    }
}

#[test]
fn a_deployment_has_exactly_one_entry() {
    let items = vec![
        file("bootc_a.conf", &entry("aa")),
        file("b.conf", &entry("bb")),
        file("c.conf", &entry("bb")),
    ];
    let err = plan_entry_update(&items, "bb", &admin(), Some("x"), "booted").unwrap_err();
    assert_eq!(
        err.to_string(),
        "Multiple BLS entries found for booted deployment"
    );
    let err = plan_entry_update(&items, "cc", &admin(), Some("x"), "staged").unwrap_err();
    assert_eq!(err.to_string(), "No BLS entry found for staged deployment");

    let update = plan_entry_update(&items, "aa", &admin(), Some("x"), "booted")
        .unwrap()
        .unwrap();
    assert_eq!(update.file_name, "bootc_a.conf");
    assert_eq!(
        update.content,
        "version 1\nlinux /l\noptions composefs=aa x\nx-options-source-admin x\n"
    );
    let update = plan_entry_update(&items, "aa", &admin(), None, "booted").unwrap();
    assert!(update.is_none());
}

#[test]
fn a_staged_deployment_needs_staged_entries() {
    let mut boot = BootDir {
        entries: vec![file("bootc_a.conf", &entry("aa"))],
        staged: None,
    };
    let err = apply_to_boot_dir(&mut boot, "aa", Some("bb"), &admin(), Some("x")).unwrap_err();
    assert!(matches!(err, Error::MissingStagedEntries));
    assert_eq!(
        err.to_string(),
        "Found staged deployment metadata without staged BLS entries"
    );
    // The error of the booted entry comes first.
    let err = apply_to_boot_dir(&mut boot, "zz", Some("bb"), &admin(), Some("x")).unwrap_err();
    assert!(matches!(err, Error::NoEntry { .. }));
    // Nothing was written.
    match &boot.entries[0] {
        DirItem::File {
            content: FileContent::Text(text),
            ..
        } => assert_eq!(text, &entry("aa")),
        _ => panic!("no text file"),
    }
}

#[test]
fn an_update_names_both_files() {
    let mut boot = BootDir {
        entries: vec![file("bootc_a.conf", &entry("aa"))],
        staged: Some(vec![
            file("bootc_b.conf", &entry("bb")),
            file("bootc_a.conf", &entry("aa")),
        ]),
    };
    let update = apply_to_boot_dir(&mut boot, "aa", Some("bb"), &admin(), Some("x")).unwrap();
    assert!(update.changed());
    assert_eq!(update.booted.unwrap().file_name, "bootc_a.conf");
    assert_eq!(update.staged.unwrap().file_name, "bootc_b.conf");

    let update = apply_to_boot_dir(&mut boot, "aa", Some("bb"), &admin(), Some("x")).unwrap();
    assert!(!update.changed());
    assert!(update.booted.is_none() && update.staged.is_none());
}

#[test]
fn only_the_staged_entry_may_need_a_change() {
    let recorded = "version 1\nlinux /l\noptions composefs=aa x\nx-options-source-admin x\n";
    let mut boot = BootDir {
        entries: vec![file("bootc_a.conf", recorded)],
        staged: Some(vec![file("bootc_b.conf", &entry("bb"))]),
    };
    let update = apply_to_boot_dir(&mut boot, "aa", Some("bb"), &admin(), Some("x")).unwrap();
    assert!(update.changed());
    assert!(update.booted.is_none());
    assert_eq!(
        update.staged.unwrap().content,
        "version 1\nlinux /l\noptions composefs=bb x\nx-options-source-admin x\n"
    );
}

#[test]
fn a_request_is_refused_for_its_name_first() {
    let mut boot = BootDir {
        entries: vec![file("bootc_a.conf", &entry("aa"))],
        staged: None,
    };
    let err = set_options_for_source_composefs(&mut boot, "zz", Some("b"), "", None).unwrap_err();
    assert!(matches!(err, Error::EmptySourceName));
    let err =
        set_options_for_source_composefs(&mut boot, "aa", None, "a b", Some("x")).unwrap_err();
    assert!(matches!(err, Error::InvalidSourceName));

    let update =
        set_options_for_source_composefs(&mut boot, "aa", None, "admin", Some("x")).unwrap();
    assert_eq!(
        update.booted.unwrap().content,
        "version 1\nlinux /l\noptions composefs=aa x\nx-options-source-admin x\n"
    );
    let update =
        set_options_for_source_composefs(&mut boot, "aa", None, "admin", Some("x")).unwrap();
    assert!(!update.changed());
}
