use loader_entries::error::Error;
use loader_entries::fields::FieldMap;
use loader_entries::source::{compute_merged_options, SourceName};

fn owned(pairs: &[(&str, &str)]) -> FieldMap {
    let mut map = FieldMap::new();
    for (name, options) in pairs {
        map.insert(name.to_string(), options.to_string());
    }
    map
}

fn merge(current: &str, pairs: &[(&str, &str)], new: Option<&str>) -> String {
    let admin = SourceName::parse("admin").unwrap();
    compute_merged_options(current, &owned(pairs), &admin, new)
}

#[test]
fn source_names_are_checked() {
    let name = SourceName::parse("tuned-adm_2").unwrap();
    assert_eq!(name.as_str(), "tuned-adm_2");
    assert_eq!(name.bls_key(), "x-options-source-tuned-adm_2");

    let err = SourceName::parse("").unwrap_err();
    assert!(matches!(err, Error::EmptySourceName));
    assert_eq!(err.to_string(), "Source name must not be empty");

    for bad in ["a b", "a\n", "caf\u{e9}", "a/b", "a.b"] {
        let err = SourceName::parse(bad).unwrap_err();
        assert!(matches!(err, Error::InvalidSourceName));
        assert_eq!(
            err.to_string(),
            "Source name must contain only alphanumeric characters, hyphens, or underscores"
        );
    }
}

#[test]
fn given_parameters_come_behind() {
    assert_eq!(merge("root=a rw", &[], Some("x=1 y")), "root=a rw x=1 y");
    assert_eq!(merge("", &[], Some("x=1")), "x=1");
    assert_eq!(merge("rw ", &[], Some("x=1")), "rw x=1");
    assert_eq!(merge("rw\t", &[], Some("x=1")), "rw\tx=1");
}

#[test]
fn parameters_that_are_there_are_not_repeated() {
    assert_eq!(merge("rw x=1", &[], Some("x=1")), "rw x=1");
    assert_eq!(merge("rw x=1", &[], Some("x=2 x=2")), "rw x=1 x=2");
    // Dashes and underscores are the same in keys, and quotes do not count.
    assert_eq!(merge("a-b=1", &[], Some("a_b=1")), "a-b=1");
    assert_eq!(merge("a=\"1 2\"", &[], Some("\"a=1 2\"")), "a=\"1 2\"");
    assert_eq!(merge("a=1", &[], Some("a=1-2 b")), "a=1 a=1-2 b");
}

#[test]
fn owned_parameters_are_replaced() {
    let pairs = [("admin", "x=1 q=\"a b\""), ("tuned", "y=1")];
    let current = "root=a x=1  q=\"a b\" y=1 x=2";
    assert_eq!(merge(current, &pairs, Some("z")), "root=a y=1 x=2 z");
    assert_eq!(merge(current, &pairs, None), "root=a y=1 x=2");
    assert_eq!(merge(current, &pairs, Some("")), "root=a y=1 x=2");
    // What another source owns stays, and nothing is rewritten where nothing is removed.
    assert_eq!(merge("a  b", &[("tuned", "a")], None), "a  b");
    assert_eq!(merge("a  b", &[("admin", "c")], None), "a  b");
}

#[test]
fn white_space_in_quotes_does_not_separate() {
    assert_eq!(
        merge("a=\"x y\" b", &[("admin", "b")], Some("c=\"1 2\" d")),
        "a=\"x y\" c=\"1 2\" d"
    );
    // Behind an open quote nothing separates.
    assert_eq!(merge("a \"b", &[], Some("c")), "a \"b c");
    assert_eq!(merge("a \"b c", &[("admin", "c")], None), "a \"b c");
}

#[test]
fn a_third_request_changes_nothing() {
    // The parameter is there already, so the first request does not move it.
    let once = merge("a=b c", &[], Some("a=b"));
    assert_eq!(once, "a=b c");
    let twice = merge(&once, &[("admin", "a=b")], Some("a=b"));
    assert_eq!(twice, "c a=b");
    assert_eq!(merge(&twice, &[("admin", "a=b")], Some("a=b")), twice);
}

#[test]
fn setting_and_clearing_restores_the_command_line() {
    let current = "root=LABEL=root rw quiet";
    let set = merge(current, &[], Some("x=1 y"));
    assert_eq!(merge(&set, &[("admin", "x=1 y")], None), current);
}

#[test]
fn field_maps_keep_the_order_of_keys() {
    let mut map = owned(&[("a", "1"), ("b", "2"), ("a", "3")]);
    assert_eq!(map.len(), 2);
    assert_eq!((map.key(0), map.value(0)), ("a", "3"));
    assert_eq!(map.get("b"), Some("2"));
    assert_eq!(map.get("c"), None);
    map.remove("a");
    map.remove("c");
    assert_eq!(map.len(), 1);
    assert_eq!(map.get("a"), None);
    assert_eq!(map.key(0), "b");
}
