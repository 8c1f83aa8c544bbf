use tuonelang::manifest::{Manifest, PackageName};
use tuonelang::scaffold::new_package;

#[test]
fn scaffolds_a_manifest_and_a_main_module() {
    let name = PackageName::new("demo").unwrap();
    let files = new_package(&name);
    assert_eq!(files.len(), 2);
    assert_eq!(files[0].relative_path, "tdg.toml");
    assert_eq!(files[1].relative_path, "src/main.tuo");
    let m = Manifest::parse(&files[0].contents).expect("valid manifest");
    assert_eq!(m.name, name);
    assert!(files[1].contents.contains("module demo;"));
    assert!(files[1].contents.contains("fn main() -> Int"));
}

#[test]
fn scaffolded_manifest_is_a_fresh_package() {
    let name = PackageName::new("hello").unwrap();
    let files = new_package(&name);
    let m = Manifest::parse(&files[0].contents).expect("valid manifest");
    assert_eq!(m.version, "0.1.0");
    assert_eq!(m.module_root, "src");
    assert!(m.dependencies.is_empty());
    assert!(files[1].contents.starts_with("// The entry module of `hello`."));
    assert!(files[1].contents.ends_with("spec main {\n    then main() == 0;\n}\n"));
}
