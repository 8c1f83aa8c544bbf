//! The package manifest: `tdg.toml`.
//!
//! A manifest declares one package's **identity**, its **module root**, the
//! **edition** it is written against, and its **dependencies**. Only **path
//! dependencies** exist in v0.
//!
//! ```toml
//! [package]
//! name = "app"
//! version = "0.1.0"
//! edition = "2024"
//!
//! [modules]
//! root = "src"
//!
//! [dependencies]
//! util = { path = "../util" }
//! ```

use vstd::prelude::*;
use crate::assoc::{find_key, keys, lemma_lower_bound_split, skeys, sorted, value_of};
use crate::text::{chars_of, eq_str, push_str, seq_lt};
use crate::toml::{self, DocModel, TModel, VModel, Value, escape, escape_string, table_get, table_model};

verus! {

/// A name is non-empty ASCII: a lowercase letter, then lowercase letters,
/// digits, and underscores.
pub open spec fn valid_name(s: Seq<char>) -> bool {
    &&& s.len() > 0
    &&& 'a' <= s[0] <= 'z'
    &&& forall|i: int| 1 <= i < s.len() ==> name_char(#[trigger] s[i])
}

/// A character allowed after the first in a package name.
pub open spec fn name_char(c: char) -> bool {
    ||| 'a' <= c <= 'z'
    ||| '0' <= c <= '9'
    ||| c == '_'
}

/// A validated package name.
#[derive(Debug, PartialOrd, Ord, Hash)]
pub struct PackageName(String);

impl Clone for PackageName {
    fn clone(&self) -> (r: PackageName)
        ensures
            r@ == self@,
    {
        proof {
            use_type_invariant(self);
        }
        PackageName(self.0.clone())
    }
}

impl View for PackageName {
    type V = Seq<char>;

    closed spec fn view(&self) -> Seq<char> {
        self.0@
    }
}

impl PartialEq for PackageName {
    fn eq(&self, other: &Self) -> (r: bool) {
        self.0 == other.0
    }
}

impl vstd::std_specs::cmp::PartialEqSpecImpl for PackageName {
    open spec fn obeys_eq_spec() -> bool {
        true
    }

    open spec fn eq_spec(&self, other: &Self) -> bool {
        self@ == other@
    }
}

impl Eq for PackageName {

}

impl PackageName {
    #[verifier::type_invariant]
    closed spec fn inv(self) -> bool {
        valid_name(self.0@)
    }

    /// Validate and construct a package name.
    ///
    /// Returns [`ManifestError::InvalidName`] if `raw` is empty, does not start
    /// with a lowercase ASCII letter, or contains a character outside
    /// `[a-z0-9_]`.
    pub fn new(raw: &str) -> (r: Result<PackageName, ManifestError>)
        ensures
            valid_name(raw@) ==> (r matches Ok(n) && n@ == raw@),
            !valid_name(raw@) ==> (r matches Err(e) && e.model() == MErr::InvalidName(raw@)),
    {
        let v = chars_of(raw);
        let mut ok = v.len() > 0 && 'a' <= v[0] && v[0] <= 'z';
        let mut i: usize = 1;
        while ok && i < v.len()
            invariant
                v@ == raw@,
                1 <= i <= v@.len() || !ok,
                ok ==> (v@.len() > 0 && 'a' <= v@[0] <= 'z' && forall|j: int|
                    1 <= j < i ==> name_char(#[trigger] v@[j])),
                !ok ==> !valid_name(raw@),
            decreases v.len() - i + (if ok { 1int } else { 0int }),
        {
            let c = v[i];
            if !(('a' <= c && c <= 'z') || ('0' <= c && c <= '9') || c == '_') {
                assert(!name_char(v@[i as int]));
                ok = false;
            } else {
                i = i + 1;
            }
        }
        if ok {
            Ok(PackageName(raw.to_owned()))
        } else {
            Err(ManifestError::InvalidName(raw.to_owned()))
        }
    }

    /// The name as a string slice.
    pub fn as_str(&self) -> (r: &str)
        ensures
            r@ == self@,
            valid_name(r@),
    {
        proof {
            use_type_invariant(self);
        }
        self.0.as_str()
    }

    /// Whether this name sorts strictly before `other`.
    pub fn sorts_before(&self, other: &PackageName) -> (r: bool)
        ensures
            r == seq_lt(self@, other@),
    {
        crate::text::string_lt(&self.0, &other.0)
    }
}

/// The language edition a package is written against. v0 recognizes exactly
/// one edition, `2024`.
#[derive(Debug, Clone, Copy, PartialEq, Eq, Structural)]
pub enum Edition {
    /// The 2024 edition — the only edition v0 supports (and the default).
    E2024,
}

impl Default for Edition {
    fn default() -> (r: Edition)
        ensures
            r == Edition::E2024,
    {
        Edition::E2024
    }
}

/// The wire string of an edition.
pub open spec fn edition_str(e: Edition) -> Seq<char> {
    match e {
        Edition::E2024 => "2024"@,
    }
}

/// Reading an edition string.
pub open spec fn edition_spec(s: Seq<char>) -> Result<Edition, MErr> {
    if s == "2024"@ {
        Ok(Edition::E2024)
    } else {
        Err(MErr::UnknownEdition(s))
    }
}

impl Edition {
    /// The edition's canonical wire string, as written in `tdg.toml`.
    pub fn as_str(self) -> (r: &'static str)
        ensures
            r@ == edition_str(self),
    {
        match self {
            Edition::E2024 => "2024",
        }
    }

    /// Parse an edition string; anything but a supported edition is
    /// [`ManifestError::UnknownEdition`].
    pub fn parse(raw: &str) -> (r: Result<Edition, ManifestError>)
        ensures
            match r {
                Ok(e) => edition_spec(raw@) == Ok::<Edition, MErr>(e),
                Err(e) => edition_spec(raw@) == Err::<Edition, MErr>(e.model()),
            },
    {
        if eq_str(&chars_of(raw), "2024") {
            Ok(Edition::E2024)
        } else {
            Err(ManifestError::UnknownEdition(raw.to_owned()))
        }
    }
}

/// Where a dependency's source comes from. v0 supports only a path.
#[derive(Debug, Clone, PartialEq, Eq)]
pub enum DependencySource {
    /// A local/path dependency: the package lives at this directory.
    Path(String),
}

impl DependencySource {
    /// The path of a path dependency.
    pub open spec fn path(&self) -> Seq<char> {
        match self {
            DependencySource::Path(p) => p@,
        }
    }
}

/// One entry in `[dependencies]`.
#[derive(Debug, Clone, PartialEq, Eq)]
pub struct Dependency {
    /// The dependency's declared name.
    pub name: PackageName,
    /// Where its source is fetched from.
    pub source: DependencySource,
}

impl Dependency {
    /// The dependency as (name, path).
    pub open spec fn model(&self) -> (Seq<char>, Seq<char>) {
        (self.name@, self.source.path())
    }
}

/// The dependency set, keyed by name, kept in name order.
#[derive(Debug, PartialEq, Eq)]
pub struct DepMap {
    entries: Vec<(String, Dependency)>,
}

/// The content of a dependency set: (key, (name, path)) in key order.
pub type DepsModel = Seq<(Seq<char>, (Seq<char>, Seq<char>))>;

impl View for DepMap {
    type V = DepsModel;

    closed spec fn view(&self) -> DepsModel {
        Seq::new(self.entries@.len(), |i: int| (self.entries@[i].0@, self.entries@[i].1.model()))
    }
}

impl DepMap {
    #[verifier::type_invariant]
    closed spec fn inv(self) -> bool {
        &&& sorted(skeys(self.entries@))
        &&& forall|i: int| 0 <= i < self.entries@.len() ==> valid_name(#[trigger] self.entries@[i].0@)
    }

    proof fn lemma_keys(&self)
        ensures
            keys(self@) == skeys(self.entries@),
    {
        assert(keys(self@) =~= skeys(self.entries@));
    }

    /// The empty set.
    pub fn new() -> (r: DepMap)
        ensures
            r@ == Seq::<(Seq<char>, (Seq<char>, Seq<char>))>::empty(),
    {
        let r = DepMap { entries: Vec::new() };
        assert(r@ =~= Seq::<(Seq<char>, (Seq<char>, Seq<char>))>::empty());
        r
    }

    /// The number of dependencies. Every set is keyed by valid names in
    /// strict name order.
    pub fn len(&self) -> (r: usize)
        ensures
            r == self@.len(),
            sorted(keys(self@)),
            forall|i: int| 0 <= i < self@.len() ==> valid_name(#[trigger] self@[i].0),
    {
        proof {
            use_type_invariant(self);
            self.lemma_keys();
            assert forall|i: int| 0 <= i < self@.len() implies valid_name(#[trigger] self@[i].0) by {
                assert(self@[i].0 == self.entries@[i].0@);
            }
        }
        self.entries.len()
    }

    /// Whether there are none.
    pub fn is_empty(&self) -> (r: bool)
        ensures
            r == (self@.len() == 0),
    {
        self.entries.len() == 0
    }

    /// The `i`-th dependency in name order.
    pub fn get_index(&self, i: usize) -> (r: &Dependency)
        requires
            i < self@.len(),
        ensures
            r.model() == self@[i as int].1,
    {
        &self.entries[i].1
    }

    /// The dependency declared under `name`, if any.
    pub fn get(&self, name: &PackageName) -> (r: Option<&Dependency>)
        ensures
            keys(self@).contains(name@) ==> (r matches Some(d) && d.model() == value_of(self@, name@)),
            !keys(self@).contains(name@) ==> r is None,
    {
        proof {
            use_type_invariant(self);
            self.lemma_keys();
        }
        let k = chars_of(name.as_str());
        let (p, found) = find_key(&self.entries, &k);
        if found {
            Some(&self.entries[p].1)
        } else {
            None
        }
    }

    /// Record `dep` under `name`, replacing any dependency already recorded
    /// under that name (which is returned).
    pub fn insert(&mut self, name: PackageName, dep: Dependency) -> (r: Option<Dependency>)
        ensures
            keys(old(self)@).contains(name@) ==> final(self)@ == crate::assoc::replace_value(
                old(self)@,
                name@,
                dep.model(),
            ) && (r matches Some(o) && o.model() == value_of(old(self)@, name@)),
            !keys(old(self)@).contains(name@) ==> final(self)@ == crate::assoc::insert_sorted(
                old(self)@,
                name@,
                dep.model(),
            ) && r is None,
    {
        proof {
            use_type_invariant(&*self);
            self.lemma_keys();
        }
        let k = chars_of(name.as_str());
        let (p, found) = find_key(&self.entries, &k);
        let ghost old_e = self.entries@;
        proof {
            lemma_lower_bound_split(skeys(old_e), name@);
        }
        let key = name.0;
        let mut entries: Vec<(String, Dependency)> = Vec::new();
        std::mem::swap(&mut entries, &mut self.entries);
        if found {
            let (_, old_dep) = entries.remove(p);
            entries.insert(p, (key, dep));
            proof {
                assert(entries@ =~= old_e.update(p as int, (key, dep)));
                assert(skeys(entries@) =~= skeys(old_e));
            }
            self.entries = entries;
            proof {
                assert(self@ =~= crate::assoc::replace_value(old(self)@, name@, dep.model()));
            }
            Some(old_dep)
        } else {
            proof {
                crate::assoc::lemma_insert_sorted(old(self)@, name@, dep.model());
            }
            entries.insert(p, (key, dep));
            proof {
                let nm = DepMap { entries: entries };
                assert(nm@ =~= crate::assoc::insert_sorted(old(self)@, name@, dep.model()));
                nm.lemma_keys();
            }
            self.entries = entries;
            proof {
                assert(self@ =~= crate::assoc::insert_sorted(old(self)@, name@, dep.model()));
            }
            None
        }
    }

    /// Remove the dependency recorded under `name`, returning it.
    pub fn remove(&mut self, name: &PackageName) -> (r: Option<Dependency>)
        ensures
            keys(old(self)@).contains(name@) ==> (r matches Some(o) && o.model() == value_of(
                old(self)@,
                name@,
            )) && final(self)@ == old(self)@.remove(keys(old(self)@).index_of(name@)),
            !keys(old(self)@).contains(name@) ==> r is None && final(self)@ == old(self)@,
    {
        proof {
            use_type_invariant(&*self);
            self.lemma_keys();
        }
        let k = chars_of(name.as_str());
        let (p, found) = find_key(&self.entries, &k);
        if found {
            let ghost old_e = self.entries@;
            let mut entries: Vec<(String, Dependency)> = Vec::new();
            std::mem::swap(&mut entries, &mut self.entries);
            let (_, d) = entries.remove(p);
            proof {
                assert forall|i: int, j: int|
                    0 <= i < j < skeys(entries@).len() implies seq_lt(
                    #[trigger] skeys(entries@)[i],
                    #[trigger] skeys(entries@)[j],
                ) by {
                    let a = if i < p { i } else { i + 1 };
                    let b = if j < p { j } else { j + 1 };
                    assert(skeys(entries@)[i] == skeys(old_e)[a]);
                    assert(skeys(entries@)[j] == skeys(old_e)[b]);
                }
            }
            self.entries = entries;
            proof {
                assert(self@ =~= old(self)@.remove(p as int));
            }
            Some(d)
        } else {
            None
        }
    }

    /// Append `dep` under `name`, which sorts after every key present.
    fn push_last(&mut self, name: String, dep: Dependency)
        requires
            valid_name(name@),
            forall|i: int| 0 <= i < old(self)@.len() ==> seq_lt(#[trigger] old(self)@[i].0, name@),
        ensures
            final(self)@ == old(self)@.push((name@, dep.model())),
    {
        proof {
            use_type_invariant(&*self);
            self.lemma_keys();
        }
        let ghost old_e = self.entries@;
        let mut entries: Vec<(String, Dependency)> = Vec::new();
        std::mem::swap(&mut entries, &mut self.entries);
        entries.push((name, dep));
        proof {
            assert forall|i: int, j: int|
                0 <= i < j < skeys(entries@).len() implies seq_lt(
                #[trigger] skeys(entries@)[i],
                #[trigger] skeys(entries@)[j],
            ) by {
                if j == old_e.len() {
                    assert(skeys(entries@)[i] == old(self)@[i].0);
                } else {
                    assert(skeys(entries@)[i] == skeys(old_e)[i]);
                    assert(skeys(entries@)[j] == skeys(old_e)[j]);
                }
            }
        }
        self.entries = entries;
        proof {
            assert(self@ =~= old(self)@.push((name@, dep.model())));
        }
    }
}

/// A fully parsed and validated `tdg.toml`.
#[derive(Debug, PartialEq, Eq)]
pub struct Manifest {
    /// The package's own name.
    pub name: PackageName,
    /// The package's version string (opaque in v0).
    pub version: String,
    /// The edition the package targets.
    pub edition: Edition,
    /// The directory (relative to the manifest) holding the `.tuo` sources.
    pub module_root: String,
    /// The package's declared dependencies, keyed by name.
    pub dependencies: DepMap,
}

/// The content of a manifest.
pub struct ManifestModel {
    pub name: Seq<char>,
    pub version: Seq<char>,
    pub edition: Edition,
    pub module_root: Seq<char>,
    pub deps: DepsModel,
}

impl Manifest {
    /// The default module root when `[modules].root` is omitted.
    pub const DEFAULT_MODULE_ROOT: &'static str = "src";

    /// The content of this manifest.
    pub open spec fn model(&self) -> ManifestModel {
        ManifestModel {
            name: self.name@,
            version: self.version@,
            edition: self.edition,
            module_root: self.module_root@,
            deps: self.dependencies@,
        }
    }

    /// Build a fresh manifest for a new package with no dependencies.
    pub fn new(name: PackageName, version: &str, edition: Edition) -> (r: Manifest)
        ensures
            r.model() == (ManifestModel {
                name: name@,
                version: version@,
                edition,
                module_root: "src"@,
                deps: Seq::empty(),
            }),
    {
        Manifest {
            name,
            version: version.to_owned(),
            edition,
            module_root: "src".to_owned(),
            dependencies: DepMap::new(),
        }
    }
}

/// An error from loading or validating a manifest.
#[derive(Debug, PartialEq, Eq)]
pub enum ManifestError {
    /// The underlying TOML did not parse.
    Toml(toml::TomlError),
    /// A required `[table]` is missing.
    MissingTable(&'static str),
    /// A required field is missing from a table (`table`, `field`).
    MissingField(&'static str, &'static str),
    /// A field had the wrong value kind (`field`, expected-kind).
    FieldType(&'static str, &'static str),
    /// A name (package or dependency) is not a valid package name.
    InvalidName(String),
    /// The `edition` string is not a supported edition.
    UnknownEdition(String),
    /// A dependency uses a source kind v0 does not support.
    UnsupportedDependency(String),
}

/// The content of a [`ManifestError`].
pub enum MErr {
    Toml(nat, Seq<char>),
    MissingTable(Seq<char>),
    MissingField(Seq<char>, Seq<char>),
    FieldType(Seq<char>, Seq<char>),
    InvalidName(Seq<char>),
    UnknownEdition(Seq<char>),
    UnsupportedDependency(Seq<char>),
}

/// The text of a manifest error.
pub open spec fn manifest_error_text(e: MErr) -> Seq<char> {
    match e {
        MErr::Toml(line, message) => "manifest is not valid TOML: "@ + ("line "@ + crate::text::decimal(line) + ": "@
            + message),
        MErr::MissingTable(t) => "manifest is missing the `["@ + t + "]` table"@,
        MErr::MissingField(t, f) => "manifest `["@ + t + "]` is missing the required `"@ + f + "` field"@,
        MErr::FieldType(f, k) => "manifest field `"@ + f + "` must be a "@ + k,
        MErr::InvalidName(n) => "`"@ + n
            + "` is not a valid package name (lowercase letters, digits, and underscores; must start with a letter)"@,
        MErr::UnknownEdition(e) => "edition `"@ + e + "` is not supported (this toolchain supports `2024`)"@,
        MErr::UnsupportedDependency(m) => m,
    }
}

impl ManifestError {
    /// The content of this error.
    pub open spec fn model(&self) -> MErr {
        match self {
            ManifestError::Toml(e) => MErr::Toml(e.line as nat, e.message@),
            ManifestError::MissingTable(t) => MErr::MissingTable(t@),
            ManifestError::MissingField(t, f) => MErr::MissingField(t@, f@),
            ManifestError::FieldType(f, k) => MErr::FieldType(f@, k@),
            ManifestError::InvalidName(n) => MErr::InvalidName(n@),
            ManifestError::UnknownEdition(e) => MErr::UnknownEdition(e@),
            ManifestError::UnsupportedDependency(m) => MErr::UnsupportedDependency(m@),
        }
    }

    /// An equal, separately owned error.
    pub fn duplicate(&self) -> (r: ManifestError)
        ensures
            r.model() == self.model(),
    {
        match self {
            ManifestError::Toml(e) => ManifestError::Toml(
                toml::TomlError { line: e.line, message: e.message.clone() },
            ),
            ManifestError::MissingTable(t) => ManifestError::MissingTable(t),
            ManifestError::MissingField(t, f) => ManifestError::MissingField(t, f),
            ManifestError::FieldType(f, k) => ManifestError::FieldType(f, k),
            ManifestError::InvalidName(n) => ManifestError::InvalidName(n.clone()),
            ManifestError::UnknownEdition(e) => ManifestError::UnknownEdition(e.clone()),
            ManifestError::UnsupportedDependency(m) => ManifestError::UnsupportedDependency(m.clone()),
        }
    }

    /// A human-readable description of the error.
    pub fn render(&self) -> (r: String)
        ensures
            r@ == manifest_error_text(self.model()),
    {
        let mut out = String::new();
        proof {
            assert(out@ =~= Seq::<char>::empty());
        }
        match self {
            ManifestError::Toml(e) => {
                push_str(&mut out, "manifest is not valid TOML: ");
                push_str(&mut out, e.render().as_str());
            },
            ManifestError::MissingTable(t) => {
                push_str(&mut out, "manifest is missing the `[");
                push_str(&mut out, t);
                push_str(&mut out, "]` table");
            },
            ManifestError::MissingField(t, field) => {
                push_str(&mut out, "manifest `[");
                push_str(&mut out, t);
                push_str(&mut out, "]` is missing the required `");
                push_str(&mut out, field);
                push_str(&mut out, "` field");
            },
            ManifestError::FieldType(field, kind) => {
                push_str(&mut out, "manifest field `");
                push_str(&mut out, field);
                push_str(&mut out, "` must be a ");
                push_str(&mut out, kind);
            },
            ManifestError::InvalidName(name) => {
                push_str(&mut out, "`");
                push_str(&mut out, name.as_str());
                push_str(
                    &mut out,
                    "` is not a valid package name (lowercase letters, digits, and underscores; must start with a letter)",
                );
            },
            ManifestError::UnknownEdition(e) => {
                push_str(&mut out, "edition `");
                push_str(&mut out, e.as_str());
                push_str(&mut out, "` is not supported (this toolchain supports `2024`)");
            },
            ManifestError::UnsupportedDependency(msg) => {
                push_str(&mut out, msg.as_str());
            },
        }
        out
    }
}

// ---------------------------------------------------------------------------
// Reading a manifest.
// ---------------------------------------------------------------------------

/// A required string field of a table.
pub open spec fn string_field_spec(t: TModel, field: Seq<char>, table_name: Seq<char>) -> Result<
    Seq<char>,
    MErr,
> {
    if !keys(t).contains(field) {
        Err(MErr::MissingField(table_name, field))
    } else {
        match value_of(t, field) {
            VModel::Str(s) => Ok(s),
            _ => Err(MErr::FieldType(field, "string"@)),
        }
    }
}

/// Validating a name.
pub open spec fn name_spec(s: Seq<char>) -> Result<Seq<char>, MErr> {
    if valid_name(s) {
        Ok(s)
    } else {
        Err(MErr::InvalidName(s))
    }
}

/// The `edition` field, defaulting to 2024 when absent.
pub open spec fn edition_field(package: TModel) -> Result<Edition, MErr> {
    if keys(package).contains("edition"@) {
        match value_of(package, "edition"@) {
            VModel::Str(s) => edition_spec(s),
            _ => Err(MErr::FieldType("package.edition"@, "string"@)),
        }
    } else {
        Ok(Edition::E2024)
    }
}

/// `[modules].root`, defaulting to `src`.
pub open spec fn module_root_spec(doc: DocModel) -> Result<Seq<char>, MErr> {
    if keys(doc.tables).contains("modules"@) && keys(value_of(doc.tables, "modules"@)).contains(
        "root"@,
    ) {
        match value_of(value_of(doc.tables, "modules"@), "root"@) {
            VModel::Str(s) => Ok(s),
            _ => Err(MErr::FieldType("modules.root"@, "string"@)),
        }
    } else {
        Ok("src"@)
    }
}

/// One dependency's source: an inline table with a string `path`.
pub open spec fn dep_source_spec(key: Seq<char>, v: VModel) -> Result<Seq<char>, MErr> {
    match v {
        VModel::Tab(t) => if keys(t).contains("path"@) {
            match value_of(t, "path"@) {
                VModel::Str(p) => Ok(p),
                _ => Err(
                    MErr::UnsupportedDependency(
                        "dependency `"@ + key + "`: `path` must be a string"@,
                    ),
                ),
            }
        } else {
            Err(
                MErr::UnsupportedDependency(
                    "dependency `"@ + key
                        + "` has no supported source; v0 supports only `path` dependencies"@,
                ),
            )
        },
        _ => Err(
            MErr::UnsupportedDependency(
                "dependency `"@ + key + "` must be an inline table like `{ path = \"...\" }`"@,
            ),
        ),
    }
}

/// The dependencies `entries[i..]`, appended to `acc` in key order.
pub open spec fn deps_spec(entries: TModel, i: nat, acc: DepsModel) -> Result<DepsModel, MErr>
    decreases entries.len() - i,
{
    if i >= entries.len() {
        Ok(acc)
    } else {
        let k = entries[i as int].0;
        match name_spec(k) {
            Err(e) => Err(e),
            Ok(_) => match dep_source_spec(k, entries[i as int].1) {
                Err(e) => Err(e),
                Ok(p) => deps_spec(entries, i + 1, acc.push((k, (k, p)))),
            },
        }
    }
}

/// The `[dependencies]` table, if present.
pub open spec fn deps_of(doc: DocModel) -> Result<DepsModel, MErr> {
    if keys(doc.tables).contains("dependencies"@) {
        deps_spec(value_of(doc.tables, "dependencies"@), 0, seq![])
    } else {
        Ok(seq![])
    }
}

/// The manifest a document describes, or the first problem with it.
pub open spec fn manifest_from_doc(doc: DocModel) -> Result<ManifestModel, MErr> {
    if !keys(doc.tables).contains("package"@) {
        Err(MErr::MissingTable("package"@))
    } else {
        let package = value_of(doc.tables, "package"@);
        match string_field_spec(package, "name"@, "package"@) {
            Err(e) => Err(e),
            Ok(n) => match name_spec(n) {
                Err(e) => Err(e),
                Ok(name) => match string_field_spec(package, "version"@, "package"@) {
                    Err(e) => Err(e),
                    Ok(version) => match edition_field(package) {
                        Err(e) => Err(e),
                        Ok(edition) => match module_root_spec(doc) {
                            Err(e) => Err(e),
                            Ok(module_root) => match deps_of(doc) {
                                Err(e) => Err(e),
                                Ok(deps) => Ok(
                                    ManifestModel { name, version, edition, module_root, deps },
                                ),
                            },
                        },
                    },
                },
            },
        }
    }
}

/// What reading manifest text yields.
pub open spec fn manifest_spec(text: Seq<char>) -> Result<ManifestModel, MErr> {
    match toml::parse_spec(text) {
        Err((l, m)) => Err(MErr::Toml(l, m)),
        Ok(doc) => manifest_from_doc(doc),
    }
}

/// Read a required string field from a table, naming the table for errors.
fn string_field<'a>(table: &'a toml::Table, field: &'static str, table_name: &'static str) -> (r:
    Result<&'a str, ManifestError>)
    requires
        toml::twf(table_model(table@)),
    ensures
        match r {
            Ok(s) => string_field_spec(table_model(table@), field@, table_name@) == Ok::<
                Seq<char>,
                MErr,
            >(s@),
            Err(e) => string_field_spec(table_model(table@), field@, table_name@) == Err::<
                Seq<char>,
                MErr,
            >(e.model()),
        },
{
    match table_get(table, field) {
        None => Err(ManifestError::MissingField(table_name, field)),
        Some(value) => match value.as_str() {
            Some(s) => Ok(s),
            None => Err(ManifestError::FieldType(field, "string")),
        },
    }
}

/// The message for a dependency value that is not an inline table.
fn not_a_table(key: &String) -> (r: String)
    ensures
        r@ == "dependency `"@ + key@ + "` must be an inline table like `{ path = \"...\" }`"@,
{
    let mut m = "dependency `".to_owned();
    push_str(&mut m, key.as_str());
    push_str(&mut m, "` must be an inline table like `{ path = \"...\" }`");
    m
}

/// The message for a non-string `path`.
fn path_not_string(key: &String) -> (r: String)
    ensures
        r@ == "dependency `"@ + key@ + "`: `path` must be a string"@,
{
    let mut m = "dependency `".to_owned();
    push_str(&mut m, key.as_str());
    push_str(&mut m, "`: `path` must be a string");
    m
}

/// The message for a dependency with no supported source.
fn no_source(key: &String) -> (r: String)
    ensures
        r@ == "dependency `"@ + key@
            + "` has no supported source; v0 supports only `path` dependencies"@,
{
    let mut m = "dependency `".to_owned();
    push_str(&mut m, key.as_str());
    push_str(&mut m, "` has no supported source; v0 supports only `path` dependencies");
    m
}

/// Parse one `[dependencies]` entry's value into a [`DependencySource`].
fn parse_dependency_source(key: &String, value: &Value) -> (r: Result<DependencySource, ManifestError>)
    requires
        toml::vwf(value.model()),
    ensures
        match r {
            Ok(s) => dep_source_spec(key@, value.model()) == Ok::<Seq<char>, MErr>(s.path()),
            Err(e) => dep_source_spec(key@, value.model()) == Err::<Seq<char>, MErr>(e.model()),
        },
{
    match value {
        Value::Table(t) => {
            proof {
                toml::lemma_table_value_model(*t);
            }
            match table_get(t, "path") {
                Some(p) => match p.as_str() {
                    Some(s) => Ok(DependencySource::Path(s.to_owned())),
                    None => Err(ManifestError::UnsupportedDependency(path_not_string(key))),
                },
                None => Err(ManifestError::UnsupportedDependency(no_source(key))),
            }
        },
        _ => Err(ManifestError::UnsupportedDependency(not_a_table(key))),
    }
}

/// Read the `[dependencies]` table's entries in key order.
#[verifier::loop_isolation(false)]
fn parse_dependencies(deps: &toml::Table) -> (r: Result<DepMap, ManifestError>)
    requires
        toml::twf(table_model(deps@)),
    ensures
        match r {
            Ok(m) => deps_spec(table_model(deps@), 0, seq![]) == Ok::<DepsModel, MErr>(m@),
            Err(e) => deps_spec(table_model(deps@), 0, seq![]) == Err::<DepsModel, MErr>(e.model()),
        },
{
    let ghost entries = table_model(deps@);
    let mut dependencies = DepMap::new();
    let mut i: usize = 0;
    while i < deps.len()
        invariant
            i <= deps@.len(),
            dependencies@.len() == i,
            forall|j: int| 0 <= j < i ==> (#[trigger] dependencies@[j]).0 == entries[j].0,
            deps_spec(entries, 0, seq![]) == deps_spec(entries, i as nat, dependencies@),
        decreases deps.len() - i,
    {
        let key = &deps[i].0;
        let value = &deps[i].1;
        assert(entries[i as int] == (key@, value.model()));
        let dep_name = PackageName::new(key.as_str())?;
        let source = parse_dependency_source(key, value)?;
        proof {
            assert forall|j: int| 0 <= j < dependencies@.len() implies seq_lt(
                #[trigger] dependencies@[j].0,
                key@,
            ) by {
                assert(keys(entries)[j] == entries[j].0);
                assert(keys(entries)[i as int] == key@);
            }
        }
        dependencies.push_last(key.clone(), Dependency { name: dep_name, source });
        i = i + 1;
    }
    Ok(dependencies)
}

impl Manifest {
    /// Parse a manifest from `tdg.toml` text: the first problem found is
    /// reported — a TOML syntax error, a missing required field, an invalid
    /// name, an unknown edition, or an unsupported dependency source.
    pub fn parse(text: &str) -> (r: Result<Manifest, ManifestError>)
        ensures
            match r {
                Ok(m) => manifest_spec(text@) == Ok::<ManifestModel, MErr>(m.model()),
                Err(e) => manifest_spec(text@) == Err::<ManifestModel, MErr>(e.model()),
            },
    {
        let doc = match toml::parse(text) {
            Ok(d) => d,
            Err(e) => return Err(ManifestError::Toml(e)),
        };
        let ghost dm = doc.model();
        let package = match doc.table("package") {
            Some(t) => t,
            None => return Err(ManifestError::MissingTable("package")),
        };
        proof {
            let i = keys(dm.tables).index_of("package"@);
            assert(toml::twf(dm.tables[i].1));
        }
        let name = PackageName::new(string_field(package, "name", "package")?)?;
        let version = string_field(package, "version", "package")?.to_owned();
        let edition = match table_get(package, "edition") {
            Some(value) => match value.as_str() {
                Some(s) => Edition::parse(s)?,
                None => return Err(ManifestError::FieldType("package.edition", "string")),
            },
            None => Edition::E2024,
        };
        let module_root = match doc.table("modules") {
            Some(m) => {
                proof {
                    let i = keys(dm.tables).index_of("modules"@);
                    assert(toml::twf(dm.tables[i].1));
                }
                match table_get(m, "root") {
                    Some(value) => match value.as_str() {
                        Some(s) => s.to_owned(),
                        None => return Err(ManifestError::FieldType("modules.root", "string")),
                    },
                    None => "src".to_owned(),
                }
            },
            None => "src".to_owned(),
        };
        let dependencies = match doc.table("dependencies") {
            Some(deps) => {
                proof {
                    let i = keys(dm.tables).index_of("dependencies"@);
                    assert(toml::twf(dm.tables[i].1));
                }
                parse_dependencies(deps)?
            },
            None => DepMap::new(),
        };
        Ok(Manifest { name, version, edition, module_root, dependencies })
    }
}

// ---------------------------------------------------------------------------
// Writing a manifest.
// ---------------------------------------------------------------------------

/// The `[dependencies]` line of one dependency.
pub open spec fn dep_line(d: (Seq<char>, (Seq<char>, Seq<char>))) -> Seq<char> {
    d.1.0 + " = { path = \""@ + escape(d.1.1) + "\" }\n"@
}

/// The `[dependencies]` lines, in key order.
pub open spec fn deps_text(ds: DepsModel) -> Seq<char>
    decreases ds.len(),
{
    if ds.len() == 0 {
        seq![]
    } else {
        deps_text(ds.drop_last()) + dep_line(ds.last())
    }
}

/// The canonical `tdg.toml` text of a manifest.
pub open spec fn manifest_text(m: ManifestModel) -> Seq<char> {
    "[package]\n"@ + "name = \""@ + m.name + "\"\n"@ + "version = \""@ + escape(m.version)
        + "\"\n"@ + "edition = \""@ + edition_str(m.edition) + "\"\n"@ + "\n"@ + "[modules]\n"@
        + "root = \""@ + escape(m.module_root) + "\"\n"@ + "\n"@ + "[dependencies]\n"@ + deps_text(
        m.deps,
    )
}

impl Manifest {
    /// Render the manifest to canonical `tdg.toml` text, dependencies in
    /// name order.
    pub fn to_toml(&self) -> (r: String)
        ensures
            r@ == manifest_text(self.model()),
    {
        let mut out = String::new();
        push_str(&mut out, "[package]\n");
        push_str(&mut out, "name = \"");
        let name = self.name.as_str();
        proof {
            crate::readback::lemma_valid_name(name@);
        }
        push_str(&mut out, escape_string(name).as_str());
        push_str(&mut out, "\"\n");
        push_str(&mut out, "version = \"");
        push_str(&mut out, escape_string(self.version.as_str()).as_str());
        push_str(&mut out, "\"\n");
        push_str(&mut out, "edition = \"");
        push_str(&mut out, self.edition.as_str());
        push_str(&mut out, "\"\n");
        push_str(&mut out, "\n");
        push_str(&mut out, "[modules]\n");
        push_str(&mut out, "root = \"");
        push_str(&mut out, escape_string(self.module_root.as_str()).as_str());
        push_str(&mut out, "\"\n");
        push_str(&mut out, "\n");
        push_str(&mut out, "[dependencies]\n");
        let ghost head = out@;
        assert(head + deps_text(self.dependencies@.take(0)) =~= head);
        let mut i: usize = 0;
        while i < self.dependencies.len()
            invariant
                i <= self.dependencies@.len(),
                out@ == head + deps_text(self.dependencies@.take(i as int)),
            decreases self.dependencies@.len() - i,
        {
            let dep = self.dependencies.get_index(i);
            match &dep.source {
                DependencySource::Path(path) => {
                    push_str(&mut out, dep.name.as_str());
                    push_str(&mut out, " = { path = \"");
                    push_str(&mut out, escape_string(path.as_str()).as_str());
                    push_str(&mut out, "\" }\n");
                },
            }
            proof {
                let ds = self.dependencies@.take(i + 1);
                assert(ds.drop_last() == self.dependencies@.take(i as int));
                assert(ds.last() == self.dependencies@[i as int]);
            }
            i = i + 1;
        }
        assert(self.dependencies@.take(self.dependencies@.len() as int) == self.dependencies@);
        out
    }
}

} // verus!
