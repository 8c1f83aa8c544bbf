use tuonelang::lockfile::{LockedSource, Lockfile};
use tuonelang::manifest::{Manifest, PackageName};
use tuonelang::resolve::{
    checksum_of, resolve, verify_against_lock, LoadedPackage, ModuleSource, PackageSet, ResolveError,
    LOCKFILE_FILE, MANIFEST_FILE, MODULE_EXTENSION,
};

fn manifest_text(name: &str, deps: &[&str]) -> String {
    let mut text = format!("[package]\nname = \"{name}\"\nversion = \"0.1.0\"\n\n[dependencies]\n");
    for dep in deps {
        text.push_str(&format!("{dep} = {{ path = \"../{dep}\" }}\n"));
    }
    text
}

fn module(name: &str, text: &str) -> ModuleSource {
    ModuleSource { name: name.to_string(), text: text.to_string() }
}

fn pkg(dir: &str, name: &str, dep_names: &[&str], deps: Vec<usize>) -> LoadedPackage {
    LoadedPackage {
        dir: dir.to_string(),
        manifest: Manifest::parse(&manifest_text(name, dep_names)).map_err(|error| ResolveError::Manifest {
            path: format!("{dir}/{MANIFEST_FILE}"),
            error,
        }),
        deps,
        modules: Ok(vec![module(&format!("{name}/lib.tuo"), "fn f() -> Int { 1 }")]),
    }
}

fn diamond() -> PackageSet {
    PackageSet {
        packages: vec![
            pkg("/w/app", "app", &["left", "right"], vec![1, 2]),
            pkg("/w/left", "left", &["base"], vec![3]),
            pkg("/w/right", "right", &["base"], vec![3]),
            pkg("/w/base", "base", &[], vec![]),
        ],
        root: 0,
    }
}

#[test]
fn file_name_constants() {
    assert_eq!(MANIFEST_FILE, "tdg.toml");
    assert_eq!(LOCKFILE_FILE, "tdg.lock");
    assert_eq!(MODULE_EXTENSION, "tuo");
}

#[test]
fn checksum_is_sha256_over_names_and_texts() {
    assert_eq!(checksum_of(&[]), "e3b0c44298fc1c149afbf4c8996fb92427ae41e4649b934ca495991b7852b855");
    assert_eq!(
        checksum_of(&[module("util/lib.tuo", "fn f() -> Int { 1 }")]),
        "44a1d004a038fcf2b6999ed30a79019d164f57612480c9997a731d939fb696f0"
    );
}

#[test]
fn resolves_a_diamond_in_name_order() {
    let set = diamond();
    assert!(set.well_formed());
    let graph = resolve(&set).expect("resolves");
    assert_eq!(graph.root.as_str(), "app");
    let names: Vec<&str> = graph.packages.iter().map(|p| p.name.as_str()).collect();
    assert_eq!(names, vec!["app", "base", "left", "right"]);
    let app = graph.package(&PackageName::new("app").unwrap()).expect("root present");
    assert_eq!(app.source, LockedSource::Root);
    let deps: Vec<&str> = app.dependencies.iter().map(|d| d.as_str()).collect();
    assert_eq!(deps, vec!["left", "right"]);
    let base = graph.package(&PackageName::new("base").unwrap()).expect("base present");
    assert_eq!(base.source, LockedSource::Path("/w/base".to_string()));
    assert_eq!(base.root_dir, "/w/base");
    assert_eq!(base.checksum, checksum_of(&base.modules));
    assert_eq!(base.checksum.len(), 64);
    assert_eq!(graph.all_modules().len(), 4);
    assert_eq!(graph.all_modules()[0].name, "app/lib.tuo");
}

#[test]
fn resolution_is_deterministic() {
    let a = resolve(&diamond()).expect("resolves").to_lockfile().to_toml();
    let b = resolve(&diamond()).expect("resolves").to_lockfile().to_toml();
    assert_eq!(a, b);
    let reparsed = Lockfile::parse(&a).expect("lockfile parses");
    assert_eq!(reparsed.packages.len(), 4);
}

#[test]
fn dependency_names_are_sorted() {
    let set = PackageSet {
        packages: vec![
            pkg("/w/app", "app", &["zz", "aa"], vec![1, 2]),
            pkg("/w/zz", "zz", &[], vec![]),
            pkg("/w/aa", "aa", &[], vec![]),
        ],
        root: 0,
    };
    let graph = resolve(&set).expect("resolves");
    let app = graph.package(&PackageName::new("app").unwrap()).unwrap();
    let deps: Vec<&str> = app.dependencies.iter().map(|d| d.as_str()).collect();
    assert_eq!(deps, vec!["aa", "zz"]);
}

#[test]
fn a_cycle_is_reported_with_its_path() {
    let set = PackageSet {
        packages: vec![pkg("/w/a", "a", &["b"], vec![1]), pkg("/w/b", "b", &["a"], vec![0])],
        root: 0,
    };
    match resolve(&set) {
        Err(ResolveError::Cycle(chain)) => {
            let names: Vec<&str> = chain.iter().map(|n| n.as_str()).collect();
            assert_eq!(names, vec!["a", "b", "a"]);
        }
        other => panic!("expected a cycle, got {:?}", other),
    }
}

#[test]
fn two_directories_with_one_name_are_a_duplicate() {
    let set = PackageSet {
        packages: vec![
            pkg("/w/app", "app", &["one", "two"], vec![1, 2]),
            pkg("/w/one", "util", &[], vec![]),
            pkg("/w/two", "util", &[], vec![]),
        ],
        root: 0,
    };
    match resolve(&set) {
        Err(ResolveError::DuplicateName { name, first, second }) => {
            assert_eq!(name.as_str(), "util");
            assert_eq!(first, "/w/one");
            assert_eq!(second, "/w/two");
        }
        other => panic!("expected a duplicate, got {:?}", other),
    }
}

#[test]
fn a_dependency_without_a_manifest_is_reported() {
    let mut set = diamond();
    set.packages[3].manifest = Err(ResolveError::MissingManifest("/w/base/tdg.toml".to_string()));
    match resolve(&set) {
        Err(ResolveError::MissingManifest(path)) => assert_eq!(path, "/w/base/tdg.toml"),
        other => panic!("expected a missing manifest, got {:?}", other),
    }
}

#[test]
fn a_missing_module_root_is_reported() {
    let mut set = diamond();
    set.packages[2].modules = Err(ResolveError::MissingModuleRoot {
        package: PackageName::new("right").unwrap(),
        path: "/w/right/src".to_string(),
    });
    assert!(matches!(resolve(&set), Err(ResolveError::MissingModuleRoot { .. })));
}

#[test]
fn a_bad_root_manifest_is_reported() {
    let mut set = diamond();
    set.packages[0].manifest = Err(ResolveError::MissingManifest("/w/app/tdg.toml".to_string()));
    assert!(matches!(resolve(&set), Err(ResolveError::MissingManifest(_))));
}

#[test]
fn an_ill_formed_set_is_detected() {
    let set = PackageSet { packages: vec![pkg("/w/a", "a", &["b"], vec![7])], root: 0 };
    assert!(!set.well_formed());
    let set = PackageSet { packages: vec![], root: 0 };
    assert!(!set.well_formed());
}

#[test]
fn drift_in_a_dependency_is_detected_but_the_root_is_exempt() {
    let graph = resolve(&diamond()).expect("resolves");
    let lock = graph.to_lockfile();
    assert!(verify_against_lock(&graph, &lock).is_ok());

    let mut drifted = diamond();
    drifted.packages[0].modules = Ok(vec![module("app/lib.tuo", "changed")]);
    let graph2 = resolve(&drifted).expect("resolves");
    assert!(verify_against_lock(&graph2, &lock).is_ok(), "the root package is exempt");

    let mut drifted = diamond();
    drifted.packages[3].modules = Ok(vec![module("base/lib.tuo", "changed")]);
    let graph3 = resolve(&drifted).expect("resolves");
    match verify_against_lock(&graph3, &lock) {
        Err(ResolveError::ChecksumMismatch { name, locked, actual }) => {
            assert_eq!(name, "base");
            assert_ne!(locked, actual);
        }
        other => panic!("expected a mismatch, got {:?}", other),
    }
}

#[test]
fn errors_render() {
    assert_eq!(
        ResolveError::MissingManifest("/w/x/tdg.toml".to_string()).render(),
        "no `tdg.toml` found at /w/x/tdg.toml"
    );
    let chain = vec![PackageName::new("a").unwrap(), PackageName::new("b").unwrap(), PackageName::new("a").unwrap()];
    assert_eq!(ResolveError::Cycle(chain).render(), "dependency cycle: a -> b -> a");
}

#[test]
fn only_the_root_has_the_root_source_and_records_are_consistent() {
    let graph = resolve(&diamond()).expect("resolves");
    let roots: Vec<&str> = graph
        .packages
        .iter()
        .filter(|p| p.source == LockedSource::Root)
        .map(|p| p.name.as_str())
        .collect();
    assert_eq!(roots, vec!["app"]);
    for p in &graph.packages {
        assert_eq!(p.checksum, checksum_of(&p.modules));
        let deps: Vec<&str> = p.dependencies.iter().map(|d| d.as_str()).collect();
        let mut sorted = deps.clone();
        sorted.sort();
        assert_eq!(deps, sorted);
    }
}
