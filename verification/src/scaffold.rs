//! Scaffolding a new package (`tuo new`).
//!
//! A new package is the smallest thing that resolves, checks, and runs: a
//! manifest, a module root, and one `main` module. The scaffolder returns the
//! files to write as plain (relative-path, contents) pairs so the CLI owns the
//! actual filesystem writes and their error reporting.

use vstd::prelude::*;
use crate::manifest::{Edition, Manifest, ManifestModel, PackageName, manifest_text};
use crate::resolve::MANIFEST_FILE;
use crate::text::push_str;

verus! {

/// One file the scaffolder wants written, relative to the new package directory.
#[derive(Debug, PartialEq, Eq)]
pub struct ScaffoldFile {
    /// The path relative to the package directory.
    pub relative_path: String,
    /// The file's contents.
    pub contents: String,
}

/// The manifest of a new package named `name`.
pub open spec fn new_manifest(name: Seq<char>) -> ManifestModel {
    ManifestModel {
        name,
        version: "0.1.0"@,
        edition: Edition::E2024,
        module_root: "src"@,
        deps: Seq::empty(),
    }
}

/// The starter `main` module of a new package named `name`.
pub open spec fn main_module_text(name: Seq<char>) -> Seq<char> {
    "// The entry module of `"@ + name
        + "`. `main` is nullary and returns the process\n// exit status. Run it with `tuo run` (once the package is built) or check it\n// with `tuo check`.\n\nmodule "@
        + name
        + ";\n\n/// The program entry point.\nfn main() -> Int {\n    0\n}\n\n/// A worked example that the reference interpreter can execute.\nspec main {\n    then main() == 0;\n}\n"@
}

/// The files a freshly scaffolded package consists of: its manifest and a
/// starter `main` module under the default module root.
///
/// The starter program is deliberately the minimal valid one — a nullary
/// `main` returning `0` — so a new package passes `tuo check` and `tuo run`
/// immediately.
pub fn new_package(name: &PackageName) -> (r: Vec<ScaffoldFile>)
    ensures
        r@.len() == 2,
        r@[0].relative_path@ == "tdg.toml"@,
        r@[0].contents@ == manifest_text(new_manifest(name@)),
        r@[1].relative_path@ == "src/main.tuo"@,
        r@[1].contents@ == main_module_text(name@),
{
    let manifest = Manifest::new(name.clone(), "0.1.0", Edition::E2024);
    let mut main = String::new();
    push_str(&mut main, "// The entry module of `");
    push_str(&mut main, name.as_str());
    push_str(
        &mut main,
        "`. `main` is nullary and returns the process\n// exit status. Run it with `tuo run` (once the package is built) or check it\n// with `tuo check`.\n\nmodule ",
    );
    push_str(&mut main, name.as_str());
    push_str(
        &mut main,
        ";\n\n/// The program entry point.\nfn main() -> Int {\n    0\n}\n\n/// A worked example that the reference interpreter can execute.\nspec main {\n    then main() == 0;\n}\n",
    );
    let mut main_path = manifest.module_root.clone();
    push_str(&mut main_path, "/main.tuo");
    proof {
        reveal_strlit("src");
        reveal_strlit("/main.tuo");
        reveal_strlit("src/main.tuo");
        assert(main_path@ =~= "src/main.tuo"@);
    }
    let mut files: Vec<ScaffoldFile> = Vec::new();
    files.push(ScaffoldFile { relative_path: MANIFEST_FILE.to_owned(), contents: manifest.to_toml() });
    files.push(ScaffoldFile { relative_path: main_path, contents: main });
    files
}

} // verus!
