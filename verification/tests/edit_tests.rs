use tuonelang::edit::{add_path_dependency, remove_dependency, EditError};
use tuonelang::manifest::{DependencySource, Edition, Manifest, PackageName};

fn base() -> Manifest {
    Manifest::new(PackageName::new("app").unwrap(), "0.1.0", Edition::E2024)
}

#[test]
fn adds_and_removes() {
    let mut m = base();
    let util = PackageName::new("util").unwrap();
    add_path_dependency(&mut m, util.clone(), "../util").expect("adds");
    assert_eq!(
        m.dependencies.get(&util).expect("added").source,
        DependencySource::Path("../util".to_string())
    );
    remove_dependency(&mut m, &util).expect("removes");
    assert!(m.dependencies.is_empty());
}

#[test]
fn adding_the_same_path_twice_is_a_noop() {
    let mut m = base();
    let util = PackageName::new("util").unwrap();
    add_path_dependency(&mut m, util.clone(), "../util").unwrap();
    add_path_dependency(&mut m, util.clone(), "../util").expect("idempotent");
    assert_eq!(m.dependencies.len(), 1);
}

#[test]
fn adding_a_conflicting_source_errors() {
    let mut m = base();
    let util = PackageName::new("util").unwrap();
    add_path_dependency(&mut m, util.clone(), "../util").unwrap();
    let e = add_path_dependency(&mut m, util.clone(), "../other").expect_err("conflict");
    assert_eq!(e, EditError::AlreadyPresent { name: util });
}

#[test]
fn cannot_depend_on_self() {
    let mut m = base();
    let app = PackageName::new("app").unwrap();
    assert_eq!(add_path_dependency(&mut m, app, "../app").expect_err("self"), EditError::SelfDependency);
}

#[test]
fn removing_absent_errors() {
    let mut m = base();
    let ghost = PackageName::new("ghost").unwrap();
    assert_eq!(
        remove_dependency(&mut m, &ghost).expect_err("absent"),
        EditError::NotPresent { name: ghost }
    );
}

#[test]
fn a_failed_edit_leaves_the_manifest_unchanged() {
    let mut m = base();
    add_path_dependency(&mut m, PackageName::new("util").unwrap(), "../util").unwrap();
    let before = m.to_toml();
    assert!(add_path_dependency(&mut m, PackageName::new("util").unwrap(), "../elsewhere").is_err());
    assert!(add_path_dependency(&mut m, PackageName::new("app").unwrap(), "../app").is_err());
    assert!(remove_dependency(&mut m, &PackageName::new("nope").unwrap()).is_err());
    assert_eq!(m.to_toml(), before);
}

#[test]
fn removing_what_was_added_restores_the_manifest() {
    let mut m = base();
    add_path_dependency(&mut m, PackageName::new("b").unwrap(), "../b").unwrap();
    let before = m.to_toml();
    add_path_dependency(&mut m, PackageName::new("a").unwrap(), "../a").unwrap();
    remove_dependency(&mut m, &PackageName::new("a").unwrap()).unwrap();
    assert_eq!(m.to_toml(), before);
}

#[test]
fn edit_errors_render() {
    let util = PackageName::new("util").unwrap();
    assert_eq!(
        EditError::AlreadyPresent { name: util.clone() }.render(),
        "dependency `util` is already declared with a different source"
    );
    assert_eq!(EditError::NotPresent { name: util }.render(), "dependency `util` is not declared");
    assert_eq!(EditError::SelfDependency.render(), "a package cannot depend on itself");
}
