//! Manifest editing (`tuo add` / `tuo remove`).
//!
//! These operate on an in-memory [`Manifest`] and re-render it; the CLI reads
//! `tdg.toml`, applies one of these, and writes the canonical text back. Both
//! report a precise [`EditError`] rather than silently doing nothing.

use vstd::prelude::*;
use crate::assoc::{insert_sorted, keys, lemma_insert_sorted, lemma_insert_sorted_lookup, sorted, value_of};
use crate::manifest::{Dependency, DependencySource, Manifest, ManifestModel, PackageName};
use crate::text::{chars_eq, chars_of, push_str};

verus! {

/// An error from editing a manifest's dependency set.
#[derive(Debug, PartialEq, Eq)]
pub enum EditError {
    /// `tuo add` was asked to add a dependency that is already present with a
    /// *different* source (adding an identical one is a no-op success).
    AlreadyPresent {
        /// The dependency name.
        name: PackageName,
    },
    /// `tuo remove` was asked to remove a dependency that is not declared.
    NotPresent {
        /// The dependency name.
        name: PackageName,
    },
    /// A dependency cannot name the package itself.
    SelfDependency,
}

/// The content of an [`EditError`].
pub enum EditErr {
    AlreadyPresent(Seq<char>),
    NotPresent(Seq<char>),
    SelfDependency,
}

impl EditError {
    /// The content of this error.
    pub open spec fn model(&self) -> EditErr {
        match self {
            EditError::AlreadyPresent { name } => EditErr::AlreadyPresent(name@),
            EditError::NotPresent { name } => EditErr::NotPresent(name@),
            EditError::SelfDependency => EditErr::SelfDependency,
        }
    }

    /// A human-readable description of the error.
    pub fn render(&self) -> (r: String)
        ensures
            r@ == match self.model() {
                EditErr::AlreadyPresent(n) => "dependency `"@ + n
                    + "` is already declared with a different source"@,
                EditErr::NotPresent(n) => "dependency `"@ + n + "` is not declared"@,
                EditErr::SelfDependency => "a package cannot depend on itself"@,
            },
    {
        let mut out = String::new();
        match self {
            EditError::AlreadyPresent { name } => {
                push_str(&mut out, "dependency `");
                push_str(&mut out, name.as_str());
                push_str(&mut out, "` is already declared with a different source");
            },
            EditError::NotPresent { name } => {
                push_str(&mut out, "dependency `");
                push_str(&mut out, name.as_str());
                push_str(&mut out, "` is not declared");
            },
            EditError::SelfDependency => {
                push_str(&mut out, "a package cannot depend on itself");
            },
        }
        out
    }
}

/// What adding the path dependency `name` at `path` does to a manifest: the
/// new manifest, or the error.
pub open spec fn add_spec(m: ManifestModel, name: Seq<char>, path: Seq<char>) -> Result<
    ManifestModel,
    EditErr,
> {
    if name == m.name {
        Err(EditErr::SelfDependency)
    } else if keys(m.deps).contains(name) {
        if value_of(m.deps, name).1 == path {
            Ok(m)
        } else {
            Err(EditErr::AlreadyPresent(name))
        }
    } else {
        Ok(ManifestModel { deps: insert_sorted(m.deps, name, (name, path)), ..m })
    }
}

/// What removing the dependency `name` does to a manifest.
pub open spec fn remove_spec(m: ManifestModel, name: Seq<char>) -> Result<ManifestModel, EditErr> {
    if keys(m.deps).contains(name) {
        Ok(ManifestModel { deps: m.deps.remove(keys(m.deps).index_of(name)), ..m })
    } else {
        Err(EditErr::NotPresent(name))
    }
}

/// Add a path dependency named `name` at `path` to `manifest`.
///
/// Adding a dependency that is already present with the *same* path is a
/// successful no-op; a conflicting source is an error, so `tuo add` never
/// silently rewrites an existing entry. Naming the package itself is
/// [`EditError::SelfDependency`]. On an error the manifest is unchanged.
pub fn add_path_dependency(manifest: &mut Manifest, name: PackageName, path: &str) -> (r: Result<
    (),
    EditError,
>)
    ensures
        match r {
            Ok(()) => add_spec(old(manifest).model(), name@, path@) == Ok::<ManifestModel, EditErr>(
                final(manifest).model(),
            ),
            Err(e) => add_spec(old(manifest).model(), name@, path@) == Err::<ManifestModel, EditErr>(
                e.model(),
            ) && final(manifest).model() == old(manifest).model(),
        },
{
    if name == manifest.name {
        return Err(EditError::SelfDependency);
    }
    let wanted = chars_of(path);
    match manifest.dependencies.get(&name) {
        Some(existing) => {
            let same = match &existing.source {
                DependencySource::Path(p) => chars_eq(&chars_of(p.as_str()), &wanted),
            };
            if same {
                return Ok(());
            }
            return Err(EditError::AlreadyPresent { name });
        },
        None => {},
    }
    let key = name.clone();
    let dep = Dependency { name, source: DependencySource::Path(path.to_owned()) };
    let _ = manifest.dependencies.insert(key, dep);
    Ok(())
}

/// Remove the dependency named `name` from `manifest`.
///
/// A dependency that is not declared is [`EditError::NotPresent`], so
/// `tuo remove` reports a typo rather than exiting successfully having done
/// nothing; the manifest is then unchanged.
pub fn remove_dependency(manifest: &mut Manifest, name: &PackageName) -> (r: Result<(), EditError>)
    ensures
        match r {
            Ok(()) => remove_spec(old(manifest).model(), name@) == Ok::<ManifestModel, EditErr>(
                final(manifest).model(),
            ),
            Err(e) => remove_spec(old(manifest).model(), name@) == Err::<ManifestModel, EditErr>(
                e.model(),
            ) && final(manifest).model() == old(manifest).model(),
        },
{
    match manifest.dependencies.remove(name) {
        Some(_) => Ok(()),
        None => Err(EditError::NotPresent { name: name.clone() }),
    }
}

/// Adding the same path dependency twice is the same as adding it once: the
/// second add succeeds and changes nothing. (Every dependency set is keyed
/// in strict name order; see `DepMap::len`.)
pub proof fn law_add_is_idempotent(m: ManifestModel, name: Seq<char>, path: Seq<char>)
    requires
        sorted(keys(m.deps)),
        add_spec(m, name, path) is Ok,
    ensures
        add_spec(add_spec(m, name, path)->Ok_0, name, path) == add_spec(m, name, path),
{
    if !keys(m.deps).contains(name) {
        lemma_insert_sorted(m.deps, name, (name, path));
        lemma_insert_sorted_lookup(m.deps, name, (name, path));
    }
}

/// Removing a dependency that was just added gives back the manifest as it
/// was before the add.
pub proof fn law_remove_undoes_add(m: ManifestModel, name: Seq<char>, path: Seq<char>)
    requires
        sorted(keys(m.deps)),
        name != m.name,
        !keys(m.deps).contains(name),
    ensures
        add_spec(m, name, path) is Ok,
        remove_spec(add_spec(m, name, path)->Ok_0, name) == Ok::<ManifestModel, EditErr>(m),
{
    lemma_insert_sorted(m.deps, name, (name, path));
    lemma_insert_sorted_lookup(m.deps, name, (name, path));
}

} // verus!
