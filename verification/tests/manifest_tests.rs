use tuonelang::manifest::{DepMap, Dependency, DependencySource, Edition, Manifest, ManifestError, PackageName};

#[test]
fn valid_names() {
    assert!(PackageName::new("app").is_ok());
    assert!(PackageName::new("my_util2").is_ok());
    assert!(PackageName::new("").is_err());
    assert!(PackageName::new("2fast").is_err());
    assert!(PackageName::new("Cap").is_err());
    assert!(PackageName::new("has-dash").is_err());
}

#[test]
fn parses_a_full_manifest() {
    let m = Manifest::parse(
        "[package]\nname = \"app\"\nversion = \"0.1.0\"\nedition = \"2024\"\n\n[modules]\nroot = \"lib\"\n\n[dependencies]\nutil = { path = \"../util\" }\n",
    )
    .expect("valid");
    assert_eq!(m.name.as_str(), "app");
    assert_eq!(m.version, "0.1.0");
    assert_eq!(m.edition, Edition::E2024);
    assert_eq!(m.module_root, "lib");
    let util = m.dependencies.get(&PackageName::new("util").unwrap()).expect("declared");
    assert_eq!(
        *util,
        Dependency {
            name: PackageName::new("util").unwrap(),
            source: DependencySource::Path("../util".to_string()),
        }
    );
}

#[test]
fn edition_and_module_root_default() {
    let m = Manifest::parse("[package]\nname = \"a\"\nversion = \"0.0.0\"\n").expect("valid");
    assert_eq!(m.edition, Edition::E2024);
    assert_eq!(m.module_root, Manifest::DEFAULT_MODULE_ROOT);
    assert!(m.dependencies.is_empty());
}

#[test]
fn unknown_edition_is_rejected() {
    let e = Manifest::parse("[package]\nname = \"a\"\nversion = \"0\"\nedition = \"2030\"\n")
        .expect_err("unknown edition");
    assert_eq!(e, ManifestError::UnknownEdition("2030".to_string()));
}

#[test]
fn missing_package_table_is_rejected() {
    let e = Manifest::parse("[modules]\nroot = \"src\"\n").expect_err("no package");
    assert_eq!(e, ManifestError::MissingTable("package"));
}

#[test]
fn non_path_dependency_is_rejected() {
    let e = Manifest::parse("[package]\nname = \"a\"\nversion = \"0\"\n[dependencies]\nx = { git = \"u\" }\n")
        .expect_err("git unsupported");
    assert!(matches!(e, ManifestError::UnsupportedDependency(_)));
}

#[test]
fn round_trips_through_toml() {
    let mut m = Manifest::new(PackageName::new("app").unwrap(), "1.2.3", Edition::E2024);
    m.dependencies.insert(
        PackageName::new("util").unwrap(),
        Dependency {
            name: PackageName::new("util").unwrap(),
            source: DependencySource::Path("../util".to_string()),
        },
    );
    let text = m.to_toml();
    let reparsed = Manifest::parse(&text).expect("round-trips");
    assert_eq!(m, reparsed);
}

#[test]
fn manifest_text_is_canonical() {
    let mut m = Manifest::new(PackageName::new("app").unwrap(), "0.1.0", Edition::E2024);
    m.dependencies.insert(
        PackageName::new("zed").unwrap(),
        Dependency { name: PackageName::new("zed").unwrap(), source: DependencySource::Path("../z".to_string()) },
    );
    m.dependencies.insert(
        PackageName::new("b").unwrap(),
        Dependency { name: PackageName::new("b").unwrap(), source: DependencySource::Path("../b".to_string()) },
    );
    assert_eq!(
        m.to_toml(),
        "[package]\nname = \"app\"\nversion = \"0.1.0\"\nedition = \"2024\"\n\n[modules]\nroot = \"src\"\n\n[dependencies]\nb = { path = \"../b\" }\nzed = { path = \"../z\" }\n"
    );
}

#[test]
fn dependencies_stay_in_name_order() {
    let mut deps = DepMap::new();
    for n in ["m", "a", "z", "c"] {
        let name = PackageName::new(n).unwrap();
        deps.insert(
            name.clone(),
            Dependency { name, source: DependencySource::Path(format!("../{n}")) },
        );
    }
    let names: Vec<String> = (0..deps.len()).map(|i| deps.get_index(i).name.as_str().to_string()).collect();
    assert_eq!(names, vec!["a", "c", "m", "z"]);
    let old = deps.remove(&PackageName::new("c").unwrap()).expect("present");
    assert_eq!(old.name.as_str(), "c");
    assert_eq!(deps.len(), 3);
    assert!(deps.remove(&PackageName::new("c").unwrap()).is_none());
}

#[test]
fn inserting_an_existing_name_replaces_it() {
    let mut deps = DepMap::new();
    let a = PackageName::new("a").unwrap();
    deps.insert(a.clone(), Dependency { name: a.clone(), source: DependencySource::Path("x".to_string()) });
    let old = deps.insert(a.clone(), Dependency { name: a.clone(), source: DependencySource::Path("y".to_string()) });
    assert_eq!(old.map(|d| d.source), Some(DependencySource::Path("x".to_string())));
    assert_eq!(deps.len(), 1);
    assert_eq!(deps.get(&a).map(|d| d.source.clone()), Some(DependencySource::Path("y".to_string())));
}

#[test]
fn each_manifest_error_has_an_input() {
    assert!(matches!(Manifest::parse("[package\n"), Err(ManifestError::Toml(_))));
    assert_eq!(
        Manifest::parse("[package]\nversion = \"1\"\n").unwrap_err(),
        ManifestError::MissingField("package", "name")
    );
    assert_eq!(
        Manifest::parse("[package]\nname = 1\nversion = \"1\"\n").unwrap_err(),
        ManifestError::FieldType("name", "string")
    );
    assert_eq!(
        Manifest::parse("[package]\nname = \"Bad\"\nversion = \"1\"\n").unwrap_err(),
        ManifestError::InvalidName("Bad".to_string())
    );
    assert_eq!(
        Manifest::parse("[package]\nname = \"a\"\nversion = \"1\"\nedition = 2024\n").unwrap_err(),
        ManifestError::FieldType("package.edition", "string")
    );
    assert_eq!(
        Manifest::parse("[package]\nname = \"a\"\nversion = \"1\"\n[modules]\nroot = 3\n").unwrap_err(),
        ManifestError::FieldType("modules.root", "string")
    );
    assert_eq!(
        Manifest::parse("[package]\nname = \"a\"\nversion = \"1\"\n[dependencies]\nx = \"1.0\"\n").unwrap_err(),
        ManifestError::UnsupportedDependency(
            "dependency `x` must be an inline table like `{ path = \"...\" }`".to_string()
        )
    );
    assert_eq!(
        Manifest::parse("[package]\nname = \"a\"\nversion = \"1\"\n[dependencies]\nx = { path = 1 }\n").unwrap_err(),
        ManifestError::UnsupportedDependency("dependency `x`: `path` must be a string".to_string())
    );
}

#[test]
fn edition_strings() {
    assert_eq!(Edition::E2024.as_str(), "2024");
    assert_eq!(Edition::parse("2024").unwrap(), Edition::E2024);
    assert_eq!(Edition::parse("2021").unwrap_err(), ManifestError::UnknownEdition("2021".to_string()));
    assert_eq!(Edition::default(), Edition::E2024);
}

#[test]
fn quotes_and_backslashes_in_a_manifest_round_trip() {
    let mut m = Manifest::new(PackageName::new("app").unwrap(), "1.0 \"beta\" \\ 2", Edition::E2024);
    m.module_root = "src\\\"x\"".to_string();
    m.dependencies.insert(
        PackageName::new("util").unwrap(),
        Dependency {
            name: PackageName::new("util").unwrap(),
            source: DependencySource::Path("..\\u \"til\"".to_string()),
        },
    );
    let text = m.to_toml();
    assert!(text.contains("version = \"1.0 \\\"beta\\\" \\\\ 2\"\n"));
    let reparsed = Manifest::parse(&text).expect("round-trips");
    assert_eq!(m, reparsed);
}
