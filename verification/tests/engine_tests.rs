use dmenv::dependencies::{is_valid_name, is_valid_qualifier, is_valid_ref, is_valid_version};
use dmenv::{Error, FrozenDependency, Lock};

#[test]
fn empty_document_serializes_to_empty_text() {
    let lock = Lock::from_string("").unwrap();
    assert_eq!(lock.to_string(), "");
}

#[test]
fn comments_and_blank_lines_are_skipped() {
    let contents = "# generated header\n\n  \nfoo==0.42\n  # indented comment\n";
    let lock = Lock::from_string(contents).unwrap();
    assert_eq!(lock.to_string(), "foo==0.42\n");
}

#[test]
fn malformed_line_number_counts_skipped_lines() {
    let contents = "# header\n\nfoo==0.42\nthis is not a pin\n";
    match Lock::from_string(contents) {
        Err(Error::MalformedLock { line, .. }) => assert_eq!(line, 4),
        other => panic!("Expecting MalformedLock, got: {:?}", other),
    }
}

#[test]
fn missing_version_is_malformed() {
    match Lock::from_string("foo==\n") {
        Err(Error::MalformedLock { line, .. }) => assert_eq!(line, 1),
        other => panic!("Expecting MalformedLock, got: {:?}", other),
    }
}

#[test]
fn missing_name_is_malformed() {
    match Lock::from_string("==0.42\n") {
        Err(Error::MalformedLock { line, .. }) => assert_eq!(line, 1),
        other => panic!("Expecting MalformedLock, got: {:?}", other),
    }
}

#[test]
fn round_trip_is_stable() {
    let contents = "# header\nB==2\na==1\nzeta == 0.1 ; python_version >= '3.6'\ngit@example.com:bar/foo.git@master#egg=foo\n";
    let first = Lock::from_string(contents).unwrap().to_string();
    let second = Lock::from_string(&first).unwrap().to_string();
    assert_eq!(second, first);
}

#[test]
fn serialized_lines_sort_case_insensitively() {
    let lock = Lock::from_string("B==1\na==2\n").unwrap();
    assert_eq!(lock.to_string(), "a==2\nB==1\n");
}

#[test]
fn bump_with_two_matches_fails() {
    let mut lock = Lock::from_string("foo==1\nfoo==2\n").unwrap();
    let actual = lock.bump("foo", "3");
    match actual {
        Err(Error::MultipleBumps { name }) => assert_eq!(name, "foo"),
        other => panic!("Expecting MultipleBumps, got: {:?}", other),
    }
    // no mutation happened
    assert_eq!(lock.to_string(), "foo==1\nfoo==2\n");
}

#[test]
fn version_bump_leaves_source_control_record_alone() {
    let contents = "git@example.com:bar/foo.git@master#egg=foo\n";
    let mut lock = Lock::from_string(contents).unwrap();
    let changed = lock.bump("foo", "0.42").unwrap();
    assert!(!changed);
    assert_eq!(lock.to_string(), contents);
}

#[test]
fn git_bump_same_reference_reports_no_change() {
    let contents = "git@example.com:bar/foo.git@master#egg=foo\n";
    let mut lock = Lock::from_string(contents).unwrap();
    let changed = lock.git_bump("foo", "master").unwrap();
    assert!(!changed);
    assert_eq!(lock.to_string(), contents);
}

#[test]
fn freeze_reports_changes_and_additions() {
    let mut lock = Lock::from_string("foo==0.42\n").unwrap();
    let notices = lock.freeze(&[
        FrozenDependency::new("foo", "0.43"),
        FrozenDependency::new("bar", "1.0"),
    ]);
    assert_eq!(notices, vec!["foo: 0.42 -> 0.43", "+ bar==1.0"]);
}

#[test]
fn freeze_twice_reports_nothing_the_second_time() {
    let mut lock = Lock::from_string("foo==0.42\n").unwrap();
    let frozen = [
        FrozenDependency::new("foo", "0.43"),
        FrozenDependency::new("bar", "1.0"),
    ];
    lock.freeze(&frozen);
    let once = lock.to_string();
    let notices = lock.freeze(&frozen);
    assert!(notices.is_empty());
    assert_eq!(lock.to_string(), once);
}

#[test]
fn freeze_keeps_unobserved_names() {
    let mut lock = Lock::from_string("bar==0.3\nfoo==0.42\n").unwrap();
    lock.freeze(&[FrozenDependency::new("foo", "0.43")]);
    let text = lock.to_string();
    assert!(text.contains("bar==0.3"));
}

#[test]
fn freeze_appends_both_qualifiers_in_order() {
    let mut lock = Lock::from_string("").unwrap();
    lock.python_version(">= '3.7'");
    lock.sys_platform("linux");
    lock.freeze(&[FrozenDependency::new("foo", "1.0")]);
    assert_eq!(
        lock.to_string(),
        "foo==1.0 ; python_version >= '3.7' ; sys_platform == 'linux'\n"
    );
}

#[test]
fn validity_checks_match_the_line_grammar() {
    assert!(is_valid_name("requests"));
    assert!(!is_valid_name(""));
    assert!(!is_valid_name("two words"));
    assert!(!is_valid_name("a=b"));
    assert!(is_valid_version("0.43"));
    assert!(!is_valid_version("0 43"));
    assert!(!is_valid_version("1;2"));
    assert!(is_valid_ref("master"));
    assert!(!is_valid_ref("a@b"));
    assert!(is_valid_qualifier(">= '3.6'"));
    assert!(!is_valid_qualifier("ends with space "));
    assert!(!is_valid_qualifier("two\nlines"));
}
