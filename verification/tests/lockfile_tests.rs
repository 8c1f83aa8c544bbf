use tuonelang::lockfile::{LockedPackage, LockedSource, Lockfile, LockfileError, LOCKFILE_VERSION};

fn sample() -> Lockfile {
    Lockfile::new(vec![
        LockedPackage {
            name: "app".to_string(),
            version: "0.1.0".to_string(),
            source: LockedSource::Root,
            checksum: "aaaa".to_string(),
            dependencies: vec!["util".to_string()],
        },
        LockedPackage {
            name: "util".to_string(),
            version: "0.2.0".to_string(),
            source: LockedSource::Path("../util".to_string()),
            checksum: "bbbb".to_string(),
            dependencies: vec![],
        },
    ])
}

#[test]
fn round_trips() {
    let lock = sample();
    let text = lock.to_toml();
    let reparsed = Lockfile::parse(&text).expect("round-trips");
    assert_eq!(lock, reparsed);
}

#[test]
fn is_written_in_name_order() {
    let lock = Lockfile::new(vec![
        LockedPackage {
            name: "zed".to_string(),
            version: "1".to_string(),
            source: LockedSource::Path("z".to_string()),
            checksum: "z".to_string(),
            dependencies: vec![],
        },
        LockedPackage {
            name: "app".to_string(),
            version: "1".to_string(),
            source: LockedSource::Root,
            checksum: "a".to_string(),
            dependencies: vec![],
        },
    ]);
    assert_eq!(lock.packages[0].name, "app");
    assert_eq!(lock.packages[1].name, "zed");
}

#[test]
fn deterministic_output() {
    assert_eq!(sample().to_toml(), sample().to_toml());
}

#[test]
fn unsupported_version_is_rejected() {
    let e = Lockfile::parse("version = 2\n").expect_err("v2 unsupported");
    assert_eq!(e, LockfileError::UnsupportedVersion(2));
}

#[test]
fn missing_field_is_rejected() {
    let e = Lockfile::parse("version = 1\n[[package]]\nname = \"a\"\n").expect_err("incomplete package");
    assert!(matches!(e, LockfileError::MissingField(_)));
}

#[test]
fn source_wire_forms() {
    assert_eq!(LockedSource::Root.to_wire(), "root");
    assert_eq!(LockedSource::Path("../x".to_string()).to_wire(), "path+../x");
}

#[test]
fn lockfile_text_is_canonical() {
    assert_eq!(
        sample().to_toml(),
        "# This file is @generated by tuo.\n# It is machine-maintained; edit tdg.toml and re-resolve instead.\nversion = 1\n\n[[package]]\nname = \"app\"\nversion = \"0.1.0\"\nsource = \"root\"\nchecksum = \"aaaa\"\ndependencies = [\"util\"]\n\n[[package]]\nname = \"util\"\nversion = \"0.2.0\"\nsource = \"path+../util\"\nchecksum = \"bbbb\"\ndependencies = []\n"
    );
}

#[test]
fn sorting_is_stable_for_equal_names() {
    let mk = |checksum: &str| LockedPackage {
        name: "same".to_string(),
        version: "1".to_string(),
        source: LockedSource::Root,
        checksum: checksum.to_string(),
        dependencies: vec![],
    };
    let lock = Lockfile::new(vec![mk("first"), mk("second")]);
    assert_eq!(lock.packages[0].checksum, "first");
    assert_eq!(lock.packages[1].checksum, "second");
    assert_eq!(lock.version, LOCKFILE_VERSION);
}

#[test]
fn package_lookup_finds_the_first_by_name() {
    let lock = sample();
    assert_eq!(lock.package("util").map(|p| p.checksum.as_str()), Some("bbbb"));
    assert!(lock.package("nope").is_none());
}

#[test]
fn each_lockfile_error_has_an_input() {
    assert!(matches!(Lockfile::parse("version = \"x"), Err(LockfileError::Toml(_))));
    assert_eq!(Lockfile::parse("").unwrap_err(), LockfileError::MissingVersion);
    assert_eq!(Lockfile::parse("version = \"1\"\n").unwrap_err(), LockfileError::MissingVersion);
    assert_eq!(
        Lockfile::parse("version = 1\n[[package]]\nname = 1\n").unwrap_err(),
        LockfileError::FieldType("name", "string")
    );
    assert_eq!(
        Lockfile::parse("version = 1\n[[package]]\nname = \"a\"\nversion = \"1\"\nsource = \"git+x\"\nchecksum = \"c\"\n")
            .unwrap_err(),
        LockfileError::UnknownSource("git+x".to_string())
    );
    assert_eq!(
        Lockfile::parse("version = 1\n[[package]]\nname = \"a\"\nversion = \"1\"\nsource = \"root\"\nchecksum = \"c\"\ndependencies = \"x\"\n")
            .unwrap_err(),
        LockfileError::FieldType("dependencies", "array")
    );
    assert_eq!(
        Lockfile::parse("version = 1\n[[package]]\nname = \"a\"\nversion = \"1\"\nsource = \"root\"\nchecksum = \"c\"\ndependencies = [1]\n")
            .unwrap_err(),
        LockfileError::FieldType("dependencies", "array of strings")
    );
}

#[test]
fn parsed_packages_come_out_in_name_order() {
    let lock = Lockfile::parse(
        "version = 1\n[[package]]\nname = \"b\"\nversion = \"1\"\nsource = \"path+b\"\nchecksum = \"2\"\n[[package]]\nname = \"a\"\nversion = \"1\"\nsource = \"root\"\nchecksum = \"1\"\n",
    )
    .expect("valid");
    assert_eq!(lock.packages[0].name, "a");
    assert_eq!(lock.packages[1].name, "b");
    assert!(lock.packages[0].dependencies.is_empty());
}

#[test]
fn strings_with_comment_signs_and_commas_round_trip() {
    let lock = Lockfile::new(vec![
        LockedPackage {
            name: "b#c".to_string(),
            version: "1.0 # not a comment".to_string(),
            source: LockedSource::Path("../a, b/[x]".to_string()),
            checksum: "".to_string(),
            dependencies: vec!["#".to_string(), "x, y".to_string(), "z]".to_string()],
        },
        LockedPackage {
            name: "a".to_string(),
            version: "2".to_string(),
            source: LockedSource::Root,
            checksum: "c".to_string(),
            dependencies: vec!["b#c".to_string()],
        },
    ]);
    let reparsed = Lockfile::parse(&lock.to_toml()).expect("round-trips");
    assert_eq!(lock, reparsed);
}

#[test]
fn dependency_lists_are_written_in_name_order() {
    let lock = Lockfile::new(vec![LockedPackage {
        name: "a".to_string(),
        version: "1".to_string(),
        source: LockedSource::Root,
        checksum: "c".to_string(),
        dependencies: vec!["zed".to_string(), "app".to_string()],
    }]);
    let text = lock.to_toml();
    assert!(text.contains("dependencies = [\"app\", \"zed\"]\n"));
    let reparsed = Lockfile::parse(&text).expect("parses");
    assert_eq!(reparsed.packages[0].dependencies, vec!["app".to_string(), "zed".to_string()]);
}

#[test]
fn quotes_and_backslashes_round_trip() {
    let lock = Lockfile::new(vec![LockedPackage {
        name: "q\"n".to_string(),
        version: "1 \\ 2".to_string(),
        source: LockedSource::Path("C:\\pkgs\\\"x\"".to_string()),
        checksum: "\\".to_string(),
        dependencies: vec!["\"".to_string(), "\\\\".to_string()],
    }]);
    let text = lock.to_toml();
    assert!(text.contains("name = \"q\\\"n\"\n"));
    let reparsed = Lockfile::parse(&text).expect("round-trips");
    assert_eq!(lock, reparsed);
}
