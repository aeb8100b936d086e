use dmenv::{Error, FrozenDependency, Lock};

#[test]
fn malformed_lock() {
    let lock_contents = "bar==42\ngit://foo/bar.git@master#egggg=bar";
    let actual = Lock::from_string(&lock_contents);
    let actual = actual.unwrap_err();
    match actual {
        Error::MalformedLock { line, .. } => assert_eq!(line, 2),
        _ => panic!("Expecting MalformedLock, got: {:?}", actual),
    }
}

#[test]
fn simple_bump() {
    let lock_contents = "bar==0.3\nfoo==0.42\n";
    let mut lock = Lock::from_string(lock_contents).unwrap();
    let changed = lock.bump("foo", "0.43").unwrap();
    assert!(changed);
    let expected = lock_contents.replace("0.42", "0.43");
    let actual = lock.to_string();
    assert_eq!(actual, expected);
}

#[test]
fn dep_not_found() {
    let lock_contents = "bar==0.3\nfoo==0.42\n";
    let mut lock = Lock::from_string(lock_contents).unwrap();
    let actual = lock.bump("no-such", "0.43");
    match actual {
        Err(Error::NothingToBump { name }) => assert_eq!(name, "no-such"),
        _ => panic!("Expecting NothingToBump, got: {:?}", actual),
    }
}

#[test]
fn idem_potent_change() {
    let lock_contents = "bar==0.3\nfoo==0.42\n";
    let mut lock = Lock::from_string(lock_contents).unwrap();
    let changed = lock.bump("bar", "0.3").unwrap();
    let actual = lock.to_string();
    assert!(!changed);
    assert_eq!(actual, lock_contents.to_string());
}

#[test]
fn git_bump() {
    let old_sha1 = "dae42f";
    let lock_contents = format!("git@example.com/bar.git@{}#egg=bar\n", old_sha1);
    let mut lock = Lock::from_string(&lock_contents).unwrap();
    let new_sha1 = "cda431";
    let changed = lock.git_bump("bar", new_sha1).unwrap();
    assert!(changed);
    let expected = lock_contents.replace(old_sha1, new_sha1);
    let actual = lock.to_string();
    assert_eq!(actual, expected);
}

fn assert_freeze(contents: &str, frozen: &[FrozenDependency], expected: &str) {
    let mut lock = Lock::from_string(contents).unwrap();
    lock.freeze(frozen);
    let actual = lock.to_string();
    assert_eq!(actual, expected);
}

#[test]
fn freeze_simple_bump() {
    assert_freeze(
        "foo==0.42\n",
        &[FrozenDependency::new("foo", "0.43")],
        "foo==0.43\n",
    );
}

#[test]
fn freeze_keep_old_deps() {
    assert_freeze(
        "bar==1.3\nfoo==0.42\n",
        &[FrozenDependency::new("foo", "0.43")],
        "bar==1.3\nfoo==0.43\n",
    );
}

#[test]
fn freeze_keep_git_deps() {
    assert_freeze(
        "git@example.com:bar/foo.git@master#egg=foo\n",
        &[FrozenDependency::new("foo", "0.42")],
        "git@example.com:bar/foo.git@master#egg=foo\n",
    );
}

#[test]
fn freeze_keep_specifications() {
    assert_freeze(
        "foo == 1.3 ; python_version >= '3.6'\n",
        &[FrozenDependency::new("foo", "1.4")],
        "foo == 1.4 ; python_version >= '3.6'\n",
    );
}

#[test]
fn freeze_add_new_deps() {
    assert_freeze("", &[FrozenDependency::new("foo", "0.42")], "foo==0.42\n");
}

#[test]
fn freeze_different_version() {
    let mut lock = Lock::from_string("foo==0.42\n").unwrap();
    lock.python_version("< '3.6'");
    lock.freeze(&[
        FrozenDependency::new("foo", "0.42"),
        FrozenDependency::new("bar", "1.3"),
    ]);
    let actual = lock.to_string();
    assert_eq!(actual, "bar==1.3 ; python_version < '3.6'\nfoo==0.42\n");
}

#[test]
fn freeze_different_platform() {
    let mut lock = Lock::from_string("foo==0.42\n").unwrap();
    lock.sys_platform("win32");
    lock.freeze(&[
        FrozenDependency::new("foo", "0.42"),
        FrozenDependency::new("winapi", "1.3"),
    ]);
    let actual = lock.to_string();
    assert_eq!(actual, "foo==0.42\nwinapi==1.3 ; sys_platform == 'win32'\n");
}
