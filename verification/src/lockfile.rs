//! The lockfile: `tdg.lock`.
//!
//! The lockfile is the machine-maintained record of a **resolved** dependency
//! graph: it pins exactly which bytes every package in the graph resolved to,
//! so a build is reproducible. `[[package]]` entries are always written in
//! package-name order, so the file is deterministic and diff-friendly.
//!
//! ```toml
//! version = 1
//!
//! [[package]]
//! name = "app"
//! version = "0.1.0"
//! source = "root"
//! checksum = "<sha256 of its concatenated module sources>"
//! dependencies = ["util"]
//! ```

use vstd::prelude::*;
use crate::assoc::{keys, value_of};
use crate::resolve::{lemma_name_upper_bound_at, lemma_sort_names_ordered, names_ordered, sort_names};
use crate::text::{chars_of, decimal, eq_str, push_decimal, push_str, seq_lt, starts_with, starts_with_at, string_lt, string_of};
use crate::toml::{self, DocModel, TModel, VModel, Value, escape, escape_string, table_get, table_model};

verus! {

/// The lockfile format version this crate reads and writes.
pub const LOCKFILE_VERSION: u64 = 1;

/// How a locked package's source was obtained.
#[derive(Debug, Clone, PartialEq, Eq)]
pub enum LockedSource {
    /// The root package under resolution (the workspace being built).
    Root,
    /// A path dependency, recorded with the path it was fetched from.
    Path(String),
}

/// The content of a [`LockedSource`].
pub enum SourceModel {
    Root,
    Path(Seq<char>),
}

impl LockedSource {
    /// The content of this source.
    pub open spec fn model(&self) -> SourceModel {
        match self {
            LockedSource::Root => SourceModel::Root,
            LockedSource::Path(p) => SourceModel::Path(p@),
        }
    }

    /// An equal, separately owned source.
    pub fn duplicate(&self) -> (r: LockedSource)
        ensures
            r.model() == self.model(),
    {
        match self {
            LockedSource::Root => LockedSource::Root,
            LockedSource::Path(p) => LockedSource::Path(p.clone()),
        }
    }

    /// The wire form written to `source = "..."`.
    pub fn to_wire(&self) -> (r: String)
        ensures
            r@ == wire(self.model()),
    {
        match self {
            LockedSource::Root => "root".to_owned(),
            LockedSource::Path(path) => {
                let mut out = "path+".to_owned();
                push_str(&mut out, path.as_str());
                out
            },
        }
    }

    /// Parse the wire form.
    fn parse(raw: &str) -> (r: Result<LockedSource, LockfileError>)
        ensures
            match r {
                Ok(s) => source_spec(raw@) == Ok::<SourceModel, LErr>(s.model()),
                Err(e) => source_spec(raw@) == Err::<SourceModel, LErr>(e.model()),
            },
    {
        let v = chars_of(raw);
        if eq_str(&v, "root") {
            Ok(LockedSource::Root)
        } else if starts_with_at(&v, 0, "path+") {
            proof {
                reveal_strlit("path+");
                assert(v@.skip(0) == v@);
            }
            assert(v@.skip(5) == v@.subrange(5, v@.len() as int));
            Ok(LockedSource::Path(string_of(&v, 5, v.len())))
        } else {
            assert(v@.skip(0) == v@);
            Err(LockfileError::UnknownSource(raw.to_owned()))
        }
    }
}

/// The wire form of a source.
pub open spec fn wire(s: SourceModel) -> Seq<char> {
    match s {
        SourceModel::Root => "root"@,
        SourceModel::Path(p) => "path+"@ + p,
    }
}

/// Reading a source's wire form.
pub open spec fn source_spec(raw: Seq<char>) -> Result<SourceModel, LErr> {
    if raw == "root"@ {
        Ok(SourceModel::Root)
    } else if starts_with(raw, "path+"@) {
        Ok(SourceModel::Path(raw.skip(5)))
    } else {
        Err(LErr::UnknownSource(raw))
    }
}

/// One resolved package in the locked graph.
#[derive(Debug, Clone, PartialEq, Eq)]
pub struct LockedPackage {
    /// The package's name.
    pub name: String,
    /// The package's version string, copied from its manifest.
    pub version: String,
    /// Where its source came from.
    pub source: LockedSource,
    /// The SHA-256 (hex) of the package's concatenated module sources.
    pub checksum: String,
    /// The names of this package's direct dependencies, in name order.
    pub dependencies: Vec<String>,
}

/// The content of a [`LockedPackage`].
pub struct PackageModel {
    pub name: Seq<char>,
    pub version: Seq<char>,
    pub source: SourceModel,
    pub checksum: Seq<char>,
    pub dependencies: Seq<Seq<char>>,
}

/// The views of a sequence of strings.
pub open spec fn strings_model(v: Seq<String>) -> Seq<Seq<char>> {
    Seq::new(v.len(), |i: int| v[i]@)
}

impl LockedPackage {
    /// The content of this package record.
    pub open spec fn model(&self) -> PackageModel {
        PackageModel {
            name: self.name@,
            version: self.version@,
            source: self.source.model(),
            checksum: self.checksum@,
            dependencies: strings_model(self.dependencies@),
        }
    }
}

/// The contents of a sequence of package records.
pub open spec fn packages_model(v: Seq<LockedPackage>) -> Seq<PackageModel> {
    Seq::new(v.len(), |i: int| v[i].model())
}

/// A parsed or freshly resolved `tdg.lock`.
#[derive(Debug, Clone, PartialEq, Eq)]
pub struct Lockfile {
    /// The lockfile format version.
    pub version: u64,
    /// Every package in the resolved graph, kept in name order.
    pub packages: Vec<LockedPackage>,
}

/// The content of a [`Lockfile`].
pub struct LockModel {
    pub version: u64,
    pub packages: Seq<PackageModel>,
}

impl Lockfile {
    /// The content of this lockfile.
    pub open spec fn model(&self) -> LockModel {
        LockModel { version: self.version, packages: packages_model(self.packages@) }
    }
}

// ---------------------------------------------------------------------------
// Name order.
// ---------------------------------------------------------------------------

/// The position after every leading record that does not sort after `name`:
/// where a stable insertion puts a record named `name`.
pub open spec fn upper_bound(s: Seq<PackageModel>, name: Seq<char>) -> nat
    decreases s.len(),
{
    if s.len() == 0 {
        0
    } else if !seq_lt(name, s[0].name) {
        1 + upper_bound(s.drop_first(), name)
    } else {
        0
    }
}

/// `s` with `x` inserted after every leading record not sorting after it.
pub open spec fn insert_stable(s: Seq<PackageModel>, x: PackageModel) -> Seq<PackageModel> {
    let p = upper_bound(s, x.name) as int;
    s.take(p) + seq![x] + s.skip(p)
}

/// A stable sort by name: records with equal names keep their order.
pub open spec fn sort_by_name(xs: Seq<PackageModel>) -> Seq<PackageModel>
    decreases xs.len(),
{
    if xs.len() == 0 {
        seq![]
    } else {
        insert_stable(sort_by_name(xs.drop_last()), xs.last())
    }
}

/// Names never decrease along the sequence.
pub open spec fn name_ordered(s: Seq<PackageModel>) -> bool {
    forall|i: int, j: int| 0 <= i < j < s.len() ==> !seq_lt(#[trigger] s[j].name, #[trigger] s[i].name)
}

proof fn lemma_upper_bound(s: Seq<PackageModel>, name: Seq<char>)
    ensures
        upper_bound(s, name) <= s.len(),
        forall|j: int| 0 <= j < upper_bound(s, name) ==> !seq_lt(name, #[trigger] s[j].name),
        upper_bound(s, name) < s.len() ==> seq_lt(name, s[upper_bound(s, name) as int].name),
    decreases s.len(),
{
    if s.len() > 0 && !seq_lt(name, s[0].name) {
        lemma_upper_bound(s.drop_first(), name);
        assert forall|j: int| 0 <= j < upper_bound(s, name) implies !seq_lt(name, #[trigger] s[j].name) by {
            if j > 0 {
                assert(s[j] == s.drop_first()[j - 1]);
            }
        }
    }
}

/// Stable insertion keeps a name-ordered sequence name-ordered.
proof fn lemma_insert_stable_ordered(s: Seq<PackageModel>, x: PackageModel)
    requires
        name_ordered(s),
    ensures
        name_ordered(insert_stable(s, x)),
        insert_stable(s, x).len() == s.len() + 1,
{
    lemma_upper_bound(s, x.name);
    let p = upper_bound(s, x.name) as int;
    let n = insert_stable(s, x);
    assert forall|i: int, j: int| 0 <= i < j < n.len() implies !seq_lt(
        #[trigger] n[j].name,
        #[trigger] n[i].name,
    ) by {
        let a = if i < p { i } else if i == p { -1 } else { i - 1 };
        let b = if j < p { j } else if j == p { -1 } else { j - 1 };
        if i == p {
            // n[j] = s[b] with b >= p
            if seq_lt(s[b].name, x.name) {
                crate::text::lemma_seq_lt_asym(x.name, s[b].name);
                if b == p {
                    crate::text::lemma_seq_lt_asym(x.name, s[p].name);
                } else {
                    crate::text::lemma_seq_lt_total(s[p].name, s[b].name);
                    if s[p].name == s[b].name {
                        crate::text::lemma_seq_lt_asym(s[b].name, x.name);
                    } else if seq_lt(s[b].name, s[p].name) {
                    } else {
                        crate::text::lemma_seq_lt_trans(x.name, s[p].name, s[b].name);
                        crate::text::lemma_seq_lt_asym(x.name, s[b].name);
                    }
                }
            }
        } else if j == p {
            // n[i] = s[a] with a < p
            if seq_lt(x.name, s[a].name) {
            }
        } else {
            assert(n[i] == s[a] && n[j] == s[b]);
        }
    }
}

/// Sorting by name orders the records by name.
pub proof fn lemma_sort_by_name_ordered(xs: Seq<PackageModel>)
    ensures
        name_ordered(sort_by_name(xs)),
        sort_by_name(xs).len() == xs.len(),
    decreases xs.len(),
{
    if xs.len() > 0 {
        lemma_sort_by_name_ordered(xs.drop_last());
        lemma_insert_stable_ordered(sort_by_name(xs.drop_last()), xs.last());
    }
}

/// Sorting records already in name order leaves them as they are.
pub proof fn lemma_sort_by_name_id(xs: Seq<PackageModel>)
    requires
        name_ordered(xs),
    ensures
        sort_by_name(xs) == xs,
    decreases xs.len(),
{
    if xs.len() > 0 {
        let init = xs.drop_last();
        assert forall|i: int, j: int| 0 <= i < j < init.len() implies !seq_lt(
            #[trigger] init[j].name,
            #[trigger] init[i].name,
        ) by {
            assert(init[i] == xs[i] && init[j] == xs[j]);
        }
        lemma_sort_by_name_id(init);
        let x = xs.last();
        assert forall|j: int| 0 <= j < init.len() implies !seq_lt(x.name, #[trigger] init[j].name) by {
            assert(init[j] == xs[j]);
            assert(x == xs[xs.len() - 1]);
        }
        lemma_upper_bound_at(init, x.name, init.len() as int);
        assert(init.take(init.len() as int) + seq![x] + init.skip(init.len() as int) =~= xs);
    }
}

/// Sort records stably by name.
fn sort_packages(packages: Vec<LockedPackage>) -> (r: Vec<LockedPackage>)
    ensures
        packages_model(r@) == sort_by_name(packages_model(packages@)),
        name_ordered(packages_model(r@)),
{
    let ghost orig = packages_model(packages@);
    let mut rest = packages;
    let mut out: Vec<LockedPackage> = Vec::new();
    let mut k: usize = 0;
    let total = rest.len();
    assert(orig.take(0) =~= Seq::<PackageModel>::empty());
    assert(orig.skip(0) =~= orig);
    assert(packages_model(out@) =~= Seq::<PackageModel>::empty());
    while rest.len() > 0
        invariant
            k + rest@.len() == orig.len(),
            k + rest.len() == total,
            packages_model(rest@) == orig.skip(k as int),
            packages_model(out@) == sort_by_name(orig.take(k as int)),
        decreases rest.len(),
    {
        let ghost before = rest@;
        let x = rest.remove(0);
        assert(packages_model(before)[0] == before[0].model());
        assert(x.model() == orig[k as int]);
        assert forall|j: int| 0 <= j < rest@.len() implies packages_model(rest@)[j] == orig.skip(k + 1)[j] by {
            assert(rest@[j] == before[j + 1]);
            assert(packages_model(before)[j + 1] == orig.skip(k as int)[j + 1]);
        }
        assert(packages_model(rest@) =~= orig.skip(k + 1));
        let mut pos: usize = 0;
        while pos < out.len() && !string_lt(&x.name, &out[pos].name)
            invariant
                pos <= out@.len(),
                forall|j: int| 0 <= j < pos ==> !seq_lt(x.name@, #[trigger] out@[j].name@),
            decreases out.len() - pos,
        {
            pos = pos + 1;
        }
        proof {
            let s = packages_model(out@);
            lemma_upper_bound_at(s, x.name@, pos as int);
            assert(orig.take(k + 1).drop_last() =~= orig.take(k as int));
            assert(orig.take(k + 1).last() == orig[k as int]);
        }
        let ghost old_out = out@;
        out.insert(pos, x);
        assert(packages_model(out@) =~= packages_model(old_out).take(pos as int) + seq![x.model()]
            + packages_model(old_out).skip(pos as int));
        k = k + 1;
    }
    assert(orig.take(k as int) =~= orig);
    proof {
        lemma_sort_by_name_ordered(orig);
    }
    out
}

/// The scan position of a stable insertion is the upper bound.
proof fn lemma_upper_bound_at(s: Seq<PackageModel>, name: Seq<char>, p: int)
    requires
        0 <= p <= s.len(),
        forall|j: int| 0 <= j < p ==> !seq_lt(name, #[trigger] s[j].name),
        p == s.len() || seq_lt(name, s[p].name),
    ensures
        upper_bound(s, name) == p,
    decreases s.len(),
{
    if s.len() > 0 && !seq_lt(name, s[0].name) {
        assert forall|j: int| 0 <= j < p - 1 implies !seq_lt(name, #[trigger] s.drop_first()[j].name) by {
            assert(s.drop_first()[j] == s[j + 1]);
        }
        lemma_upper_bound_at(s.drop_first(), name, p - 1);
    }
}

impl Lockfile {
    /// Build a lockfile from resolved packages, sorting them (stably) into the
    /// canonical name order the file is always written in.
    pub fn new(packages: Vec<LockedPackage>) -> (r: Lockfile)
        ensures
            r.version == LOCKFILE_VERSION,
            packages_model(r.packages@) == sort_by_name(packages_model(packages@)),
            name_ordered(packages_model(r.packages@)),
    {
        Lockfile { version: LOCKFILE_VERSION, packages: sort_packages(packages) }
    }

    /// Build a lockfile with an explicit version.
    fn new_with_version(version: u64, packages: Vec<LockedPackage>) -> (r: Lockfile)
        ensures
            r.version == version,
            packages_model(r.packages@) == sort_by_name(packages_model(packages@)),
            name_ordered(packages_model(r.packages@)),
    {
        Lockfile { version, packages: sort_packages(packages) }
    }

    /// Look up a locked package by name: the first one so named.
    pub fn package(&self, name: &str) -> (r: Option<&LockedPackage>)
        ensures
            match r {
                Some(p) => exists|i: int|
                    0 <= i < self.packages@.len() && self.packages@[i] == *p && p.name@ == name@
                        && forall|j: int| 0 <= j < i ==> #[trigger] self.packages@[j].name@ != name@,
                None => forall|j: int| 0 <= j < self.packages@.len() ==> #[trigger] self.packages@[j].name@ != name@,
            },
    {
        let target = chars_of(name);
        let mut i: usize = 0;
        while i < self.packages.len()
            invariant
                i <= self.packages@.len(),
                target@ == name@,
                forall|j: int| 0 <= j < i ==> #[trigger] self.packages@[j].name@ != name@,
            decreases self.packages.len() - i,
        {
            if crate::text::chars_eq(&chars_of(self.packages[i].name.as_str()), &target) {
                return Some(&self.packages[i]);
            }
            i = i + 1;
        }
        None
    }
}

/// An error from loading a lockfile.
#[derive(Debug, PartialEq, Eq)]
pub enum LockfileError {
    /// The underlying TOML did not parse.
    Toml(toml::TomlError),
    /// The top-level `version` key is missing.
    MissingVersion,
    /// The lockfile version is not one this toolchain reads.
    UnsupportedVersion(u64),
    /// A required `[[package]]` field is missing.
    MissingField(&'static str),
    /// A field had the wrong value kind (`field`, expected-kind).
    FieldType(&'static str, &'static str),
    /// A `source` string used an unrecognized form.
    UnknownSource(String),
}

/// The content of a [`LockfileError`].
pub enum LErr {
    Toml(nat, Seq<char>),
    MissingVersion,
    UnsupportedVersion(u64),
    MissingField(Seq<char>),
    FieldType(Seq<char>, Seq<char>),
    UnknownSource(Seq<char>),
}

/// The text of a lockfile error.
pub open spec fn lock_error_text(e: LErr) -> Seq<char> {
    match e {
        LErr::Toml(line, message) => "lockfile is not valid TOML: "@ + ("line "@ + decimal(line) + ": "@ + message),
        LErr::MissingVersion => "lockfile is missing its `version` key"@,
        LErr::UnsupportedVersion(v) => "lockfile version "@ + decimal(v as nat)
            + " is not supported (this toolchain writes version "@ + decimal(LOCKFILE_VERSION as nat) + ")"@,
        LErr::MissingField(f) => "a `[[package]]` entry is missing its `"@ + f + "` field"@,
        LErr::FieldType(f, k) => "lockfile field `"@ + f + "` must be a "@ + k,
        LErr::UnknownSource(s) => "lockfile source `"@ + s + "` is not a recognized source form"@,
    }
}

impl LockfileError {
    /// The content of this error.
    pub open spec fn model(&self) -> LErr {
        match self {
            LockfileError::Toml(e) => LErr::Toml(e.line as nat, e.message@),
            LockfileError::MissingVersion => LErr::MissingVersion,
            LockfileError::UnsupportedVersion(v) => LErr::UnsupportedVersion(*v),
            LockfileError::MissingField(f) => LErr::MissingField(f@),
            LockfileError::FieldType(f, k) => LErr::FieldType(f@, k@),
            LockfileError::UnknownSource(s) => LErr::UnknownSource(s@),
        }
    }

    /// A human-readable description of the error.
    pub fn render(&self) -> (r: String)
        ensures
            r@ == lock_error_text(self.model()),
    {
        let mut out = String::new();
        proof {
            assert(out@ =~= Seq::<char>::empty());
        }
        match self {
            LockfileError::Toml(e) => {
                push_str(&mut out, "lockfile is not valid TOML: ");
                push_str(&mut out, e.render().as_str());
            },
            LockfileError::MissingVersion => {
                push_str(&mut out, "lockfile is missing its `version` key");
            },
            LockfileError::UnsupportedVersion(v) => {
                push_str(&mut out, "lockfile version ");
                push_decimal(&mut out, *v);
                push_str(&mut out, " is not supported (this toolchain writes version ");
                push_decimal(&mut out, LOCKFILE_VERSION);
                push_str(&mut out, ")");
            },
            LockfileError::MissingField(field) => {
                push_str(&mut out, "a `[[package]]` entry is missing its `");
                push_str(&mut out, field);
                push_str(&mut out, "` field");
            },
            LockfileError::FieldType(field, kind) => {
                push_str(&mut out, "lockfile field `");
                push_str(&mut out, field);
                push_str(&mut out, "` must be a ");
                push_str(&mut out, kind);
            },
            LockfileError::UnknownSource(s) => {
                push_str(&mut out, "lockfile source `");
                push_str(&mut out, s.as_str());
                push_str(&mut out, "` is not a recognized source form");
            },
        }
        out
    }
}

// ---------------------------------------------------------------------------
// Reading a lockfile.
// ---------------------------------------------------------------------------

/// A required string field of a `[[package]]` table.
pub open spec fn req_string_spec(t: TModel, field: Seq<char>) -> Result<Seq<char>, LErr> {
    if !keys(t).contains(field) {
        Err(LErr::MissingField(field))
    } else {
        match value_of(t, field) {
            VModel::Str(s) => Ok(s),
            _ => Err(LErr::FieldType(field, "string"@)),
        }
    }
}

/// Every item is a string.
pub open spec fn all_str(items: Seq<VModel>) -> bool {
    forall|i: int| 0 <= i < items.len() ==> #[trigger] items[i] is Str
}

/// The `dependencies` field: an array of strings, empty when absent.
pub open spec fn deps_field_spec(t: TModel) -> Result<Seq<Seq<char>>, LErr> {
    if keys(t).contains("dependencies"@) {
        match value_of(t, "dependencies"@) {
            VModel::Arr(items) => if all_str(items) {
                Ok(Seq::new(items.len(), |i: int| items[i]->Str_0))
            } else {
                Err(LErr::FieldType("dependencies"@, "array of strings"@))
            },
            _ => Err(LErr::FieldType("dependencies"@, "array"@)),
        }
    } else {
        Ok(seq![])
    }
}

/// One `[[package]]` table.
pub open spec fn package_spec(t: TModel) -> Result<PackageModel, LErr> {
    match req_string_spec(t, "name"@) {
        Err(e) => Err(e),
        Ok(name) => match req_string_spec(t, "version"@) {
            Err(e) => Err(e),
            Ok(version) => match req_string_spec(t, "source"@) {
                Err(e) => Err(e),
                Ok(raw) => match source_spec(raw) {
                    Err(e) => Err(e),
                    Ok(source) => match req_string_spec(t, "checksum"@) {
                        Err(e) => Err(e),
                        Ok(checksum) => match deps_field_spec(t) {
                            Err(e) => Err(e),
                            Ok(dependencies) => Ok(
                                PackageModel { name, version, source, checksum, dependencies },
                            ),
                        },
                    },
                },
            },
        },
    }
}

/// The `[[package]]` tables `ts[i..]`, appended to `acc` in document order.
pub open spec fn packages_spec(ts: Seq<TModel>, i: nat, acc: Seq<PackageModel>) -> Result<
    Seq<PackageModel>,
    LErr,
>
    decreases ts.len() - i,
{
    if i >= ts.len() {
        Ok(acc)
    } else {
        match package_spec(ts[i as int]) {
            Err(e) => Err(e),
            Ok(p) => packages_spec(ts, i + 1, acc.push(p)),
        }
    }
}

/// The lockfile a document describes, or the first problem with it.
pub open spec fn lockfile_from_doc(doc: DocModel) -> Result<LockModel, LErr> {
    if !(keys(doc.root).contains("version"@) && value_of(doc.root, "version"@) is Int) {
        Err(LErr::MissingVersion)
    } else {
        let v = value_of(doc.root, "version"@)->Int_0;
        if v != LOCKFILE_VERSION {
            Err(LErr::UnsupportedVersion(v))
        } else {
            let ts = if keys(doc.array_tables).contains("package"@) {
                value_of(doc.array_tables, "package"@)
            } else {
                seq![]
            };
            match packages_spec(ts, 0, seq![]) {
                Err(e) => Err(e),
                Ok(ps) => Ok(LockModel { version: v, packages: sort_by_name(ps) }),
            }
        }
    }
}

/// What reading lockfile text yields.
pub open spec fn lockfile_spec(text: Seq<char>) -> Result<LockModel, LErr> {
    match toml::parse_spec(text) {
        Err((l, m)) => Err(LErr::Toml(l, m)),
        Ok(doc) => lockfile_from_doc(doc),
    }
}

/// Read a required string field from a `[[package]]` table.
fn req_string<'a>(table: &'a toml::Table, field: &'static str) -> (r: Result<&'a str, LockfileError>)
    requires
        toml::twf(table_model(table@)),
    ensures
        match r {
            Ok(s) => req_string_spec(table_model(table@), field@) == Ok::<Seq<char>, LErr>(s@),
            Err(e) => req_string_spec(table_model(table@), field@) == Err::<Seq<char>, LErr>(e.model()),
        },
{
    match table_get(table, field) {
        None => Err(LockfileError::MissingField(field)),
        Some(value) => match value.as_str() {
            Some(s) => Ok(s),
            None => Err(LockfileError::FieldType(field, "string")),
        },
    }
}

/// Read the `dependencies` field of a `[[package]]` table.
#[verifier::loop_isolation(false)]
fn deps_field(table: &toml::Table) -> (r: Result<Vec<String>, LockfileError>)
    requires
        toml::twf(table_model(table@)),
    ensures
        match r {
            Ok(d) => deps_field_spec(table_model(table@)) == Ok::<Seq<Seq<char>>, LErr>(strings_model(d@)),
            Err(e) => deps_field_spec(table_model(table@)) == Err::<Seq<Seq<char>>, LErr>(e.model()),
        },
{
    match table_get(table, "dependencies") {
        None => {
            let d: Vec<String> = Vec::new();
            assert(strings_model(d@) =~= Seq::<Seq<char>>::empty());
            Ok(d)
        },
        Some(value) => match value.as_array() {
            None => Err(LockfileError::FieldType("dependencies", "array")),
            Some(items) => {
                proof {
                    toml::lemma_array_value_model(*items);
                }
                let ghost ms = Seq::new(items@.len(), |i: int| items@[i].model());
                let mut out: Vec<String> = Vec::new();
                let mut i: usize = 0;
                while i < items.len()
                    invariant
                        i <= items@.len(),
                        ms == Seq::new(items@.len(), |i: int| items@[i].model()),
                        forall|j: int| 0 <= j < i ==> #[trigger] ms[j] is Str,
                        strings_model(out@) == Seq::new(i as nat, |j: int| ms[j]->Str_0),
                    decreases items.len() - i,
                {
                    match items[i].as_str() {
                        Some(s) => {
                            assert(ms[i as int] == items@[i as int].model());
                            assert(ms[i as int] is Str && ms[i as int]->Str_0 == s@);
                            let ghost before = out@;
                            out.push(s.to_owned());
                            assert forall|j: int| 0 <= j < i implies strings_model(out@)[j] == ms[j]->Str_0 by {
                                assert(out@[j] == before[j]);
                                assert(strings_model(before)[j] == ms[j]->Str_0);
                            }
                            assert(strings_model(out@) =~= Seq::new(
                                (i + 1) as nat,
                                |j: int| ms[j]->Str_0,
                            ));
                        },
                        None => {
                            assert(ms[i as int] == items@[i as int].model());
                            assert(!(ms[i as int] is Str));
                            assert(!all_str(ms));
                            return Err(LockfileError::FieldType("dependencies", "array of strings"));
                        },
                    }
                    i = i + 1;
                }
                Ok(out)
            },
        },
    }
}

/// Read one `[[package]]` table.
fn parse_package(table: &toml::Table) -> (r: Result<LockedPackage, LockfileError>)
    requires
        toml::twf(table_model(table@)),
    ensures
        match r {
            Ok(p) => package_spec(table_model(table@)) == Ok::<PackageModel, LErr>(p.model()),
            Err(e) => package_spec(table_model(table@)) == Err::<PackageModel, LErr>(e.model()),
        },
{
    let name = req_string(table, "name")?.to_owned();
    let version = req_string(table, "version")?.to_owned();
    let source = LockedSource::parse(req_string(table, "source")?)?;
    let checksum = req_string(table, "checksum")?.to_owned();
    let dependencies = deps_field(table)?;
    Ok(LockedPackage { name, version, source, checksum, dependencies })
}

impl Lockfile {
    /// Parse a lockfile from `tdg.lock` text: a TOML syntax error, an
    /// unsupported lockfile version, a missing field, or an unknown source
    /// form is reported; the packages come out in name order.
    #[verifier::loop_isolation(false)]
    pub fn parse(text: &str) -> (r: Result<Lockfile, LockfileError>)
        ensures
            match r {
                Ok(l) => lockfile_spec(text@) == Ok::<LockModel, LErr>(l.model()),
                Err(e) => lockfile_spec(text@) == Err::<LockModel, LErr>(e.model()),
            },
    {
        let doc = match toml::parse(text) {
            Ok(d) => d,
            Err(e) => return Err(LockfileError::Toml(e)),
        };
        let ghost dm = doc.model();
        proof {
            toml::lemma_doc_root_model(&doc);
        }
        let version = match table_get(&doc.root, "version") {
            Some(v) => match v.as_integer() {
                Some(n) => n,
                None => return Err(LockfileError::MissingVersion),
            },
            None => return Err(LockfileError::MissingVersion),
        };
        if version != LOCKFILE_VERSION {
            return Err(LockfileError::UnsupportedVersion(version));
        }
        let tables = doc.array_table("package");
        let ghost ts = tables_model_of(tables@);
        proof {
            if keys(dm.array_tables).contains("package"@) {
                let k = keys(dm.array_tables).index_of("package"@);
                assert forall|j: int| 0 <= j < ts.len() implies toml::twf(#[trigger] ts[j]) by {
                    assert(ts[j] == dm.array_tables[k].1[j]);
                }
            } else {
                assert(ts =~= Seq::<TModel>::empty());
            }
        }
        let mut packages: Vec<LockedPackage> = Vec::new();
        let mut i: usize = 0;
        assert(packages_model(packages@) =~= Seq::<PackageModel>::empty());
        while i < tables.len()
            invariant
                i <= tables@.len(),
                ts == tables_model_of(tables@),
                forall|j: int| 0 <= j < ts.len() ==> toml::twf(#[trigger] ts[j]),
                packages_spec(ts, 0, seq![]) == packages_spec(ts, i as nat, packages_model(packages@)),
            decreases tables.len() - i,
        {
            assert(ts[i as int] == table_model(tables@[i as int]@));
            let p = parse_package(&tables[i])?;
            let ghost before = packages@;
            packages.push(p);
            assert(packages_model(packages@) =~= packages_model(before).push(p.model()));
            i = i + 1;
        }
        Ok(Lockfile::new_with_version(version, packages))
    }
}

/// The contents of a slice of tables.
pub open spec fn tables_model_of(ts: Seq<toml::Table>) -> Seq<TModel> {
    Seq::new(ts.len(), |j: int| table_model(ts[j]@))
}

// ---------------------------------------------------------------------------
// Writing a lockfile.
// ---------------------------------------------------------------------------

/// A double-quoted, escaped string.
pub open spec fn quoted(s: Seq<char>) -> Seq<char> {
    "\""@ + escape(s) + "\""@
}

/// Quoted strings joined by `, `.
pub open spec fn join_quoted(ds: Seq<Seq<char>>) -> Seq<char>
    decreases ds.len(),
{
    if ds.len() == 0 {
        seq![]
    } else if ds.len() == 1 {
        quoted(ds[0])
    } else {
        join_quoted(ds.drop_last()) + ", "@ + quoted(ds.last())
    }
}

/// The `[[package]]` block of one package; its dependencies are written
/// in name order.
pub open spec fn package_text(p: PackageModel) -> Seq<char> {
    "\n[[package]]\n"@ + "name = \""@ + escape(p.name) + "\"\n"@ + "version = \""@ + escape(
        p.version,
    ) + "\"\n"@ + "source = \""@ + escape(wire(p.source)) + "\"\n"@ + "checksum = \""@ + escape(
        p.checksum,
    ) + "\"\n"@ + "dependencies = ["@ + join_quoted(sort_names(p.dependencies)) + "]\n"@
}

/// The dependency names in name order (stably sorted).
fn sorted_names(ds: &Vec<String>) -> (r: Vec<String>)
    ensures
        strings_model(r@) == sort_names(strings_model(ds@)),
{
    let ghost orig = strings_model(ds@);
    let mut out: Vec<String> = Vec::new();
    let mut k: usize = 0;
    assert(orig.take(0) =~= Seq::<Seq<char>>::empty());
    assert(strings_model(out@) =~= Seq::<Seq<char>>::empty());
    while k < ds.len()
        invariant
            k <= ds@.len(),
            orig == strings_model(ds@),
            strings_model(out@) == sort_names(orig.take(k as int)),
        decreases ds.len() - k,
    {
        let x = ds[k].clone();
        assert(x@ == orig[k as int]);
        let mut pos: usize = 0;
        while pos < out.len() && !string_lt(&x, &out[pos])
            invariant
                pos <= out@.len(),
                forall|j: int| 0 <= j < pos ==> !seq_lt(x@, #[trigger] out@[j]@),
            decreases out.len() - pos,
        {
            pos = pos + 1;
        }
        proof {
            let s = strings_model(out@);
            assert forall|j: int| 0 <= j < pos implies !seq_lt(x@, #[trigger] s[j]) by {
                assert(s[j] == out@[j]@);
            }
            lemma_name_upper_bound_at(s, x@, pos as int);
            assert(orig.take(k + 1).drop_last() =~= orig.take(k as int));
            assert(orig.take(k + 1).last() == orig[k as int]);
        }
        let ghost old_out = out@;
        out.insert(pos, x);
        assert(strings_model(out@) =~= strings_model(old_out).take(pos as int) + seq![x@]
            + strings_model(old_out).skip(pos as int));
        k = k + 1;
    }
    assert(orig.take(ds@.len() as int) =~= orig);
    out
}

/// The blocks of all packages, in order.
pub open spec fn packages_text(ps: Seq<PackageModel>) -> Seq<char>
    decreases ps.len(),
{
    if ps.len() == 0 {
        seq![]
    } else {
        packages_text(ps.drop_last()) + package_text(ps.last())
    }
}

/// The banner lines at the top of every lockfile.
pub open spec fn banner() -> Seq<char> {
    "# This file is @generated by tuo.\n"@ + "# It is machine-maintained; edit tdg.toml and re-resolve instead.\n"@
}

/// The canonical `tdg.lock` text of a lockfile.
pub open spec fn lockfile_text(l: LockModel) -> Seq<char> {
    banner() + "version = "@ + decimal(l.version as nat) + "\n"@ + packages_text(l.packages)
}

/// Append the `[[package]]` block of `p`.
fn push_package(out: &mut String, p: &LockedPackage)
    ensures
        final(out)@ == old(out)@ + package_text(p.model()),
{
    push_str(out, "\n[[package]]\n");
    push_str(out, "name = \"");
    push_str(out, escape_string(p.name.as_str()).as_str());
    push_str(out, "\"\n");
    push_str(out, "version = \"");
    push_str(out, escape_string(p.version.as_str()).as_str());
    push_str(out, "\"\n");
    push_str(out, "source = \"");
    push_str(out, escape_string(p.source.to_wire().as_str()).as_str());
    push_str(out, "\"\n");
    push_str(out, "checksum = \"");
    push_str(out, escape_string(p.checksum.as_str()).as_str());
    push_str(out, "\"\n");
    push_str(out, "dependencies = [");
    let deps = sorted_names(&p.dependencies);
    let ghost head = out@;
    let ghost ds = strings_model(deps@);
    assert(ds.take(0) =~= Seq::<Seq<char>>::empty());
    let mut i: usize = 0;
    while i < deps.len()
        invariant
            i <= deps@.len(),
            ds == strings_model(deps@),
            out@ == head + join_quoted(ds.take(i as int)),
        decreases deps.len() - i,
    {
        if i > 0 {
            push_str(out, ", ");
        }
        push_str(out, "\"");
        push_str(out, escape_string(deps[i].as_str()).as_str());
        push_str(out, "\"");
        proof {
            let t = ds.take(i + 1);
            assert(t.drop_last() == ds.take(i as int));
            assert(t.last() == ds[i as int]);
            if i == 0 {
                assert(t.len() == 1);
                assert(t[0] == ds[0]);
            }
        }
        i = i + 1;
    }
    assert(ds.take(deps@.len() as int) == ds);
    push_str(out, "]\n");
}

impl Lockfile {
    /// Render the lockfile to canonical `tdg.lock` text: a banner, the
    /// version, then each package's block in stored order, its dependency
    /// list in name order.
    pub fn to_toml(&self) -> (r: String)
        ensures
            r@ == lockfile_text(self.model()),
            forall|i: int|
                0 <= i < self.model().packages.len() ==> names_ordered(
                    sort_names(#[trigger] self.model().packages[i].dependencies),
                ),
    {
        proof {
            assert forall|i: int| 0 <= i < self.model().packages.len() implies names_ordered(
                sort_names(#[trigger] self.model().packages[i].dependencies),
            ) by {
                lemma_sort_names_ordered(self.model().packages[i].dependencies);
            }
        }
        let mut out = String::new();
        push_str(&mut out, "# This file is @generated by tuo.\n");
        push_str(&mut out, "# It is machine-maintained; edit tdg.toml and re-resolve instead.\n");
        push_str(&mut out, "version = ");
        push_decimal(&mut out, self.version);
        push_str(&mut out, "\n");
        let ghost head = out@;
        let ghost ps = packages_model(self.packages@);
        assert(ps.take(0) =~= Seq::<PackageModel>::empty());
        let mut i: usize = 0;
        while i < self.packages.len()
            invariant
                i <= self.packages@.len(),
                ps == packages_model(self.packages@),
                out@ == head + packages_text(ps.take(i as int)),
            decreases self.packages.len() - i,
        {
            push_package(&mut out, &self.packages[i]);
            proof {
                let t = ps.take(i + 1);
                assert(t.drop_last() == ps.take(i as int));
                assert(t.last() == ps[i as int]);
            }
            i = i + 1;
        }
        assert(ps.take(self.packages@.len() as int) == ps);
        out
    }
}

} // verus!
