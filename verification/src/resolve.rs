//! Dependency resolution over a loaded package set.
//!
//! Resolution walks a root package's manifest, follows every path dependency
//! transitively, and produces two things:
//!
//! * a [`ResolvedGraph`] — the full set of packages (root + all transitive
//!   dependencies) with their module sources, in a form any host can feed into
//!   its own source map and pipeline; and
//! * the [`Lockfile`] that pins the graph.
//!
//! The walk itself is pure: the host reads every reachable directory first
//! (its manifest and its module sources, or the error reading them) into a
//! [`PackageSet`], and [`resolve`] decides from that alone — cycles,
//! duplicate names, and which load failure is reported first — exactly as a
//! walk that read each file on arrival would. v0 resolves **local/path
//! dependencies** only, deterministically: the graph is discovered by a
//! fixed depth-first walk and packages come out in name order, so the same
//! workspace always resolves to the same lockfile.

use vstd::prelude::*;
use sha2::Digest;
use crate::assoc::{find_key, insert_sorted, keys, lemma_insert_sorted, replace_value, skeys, sorted, value_of};
use crate::lockfile::{LockedPackage, LockedSource, Lockfile, PackageModel, SourceModel, packages_model, sort_by_name, strings_model};
use crate::manifest::{MErr, Manifest, ManifestError, PackageName, manifest_error_text};
use crate::text::{chars_eq, chars_of, push_str, seq_lt, string_lt};

verus! {

/// The manifest file name a package directory must contain.
pub const MANIFEST_FILE: &'static str = "tdg.toml";

/// The lockfile name written beside the root manifest.
pub const LOCKFILE_FILE: &'static str = "tdg.lock";

/// The extension of a tuonelang module source file.
pub const MODULE_EXTENSION: &'static str = "tuo";

/// One module source belonging to a resolved package.
#[derive(Debug, PartialEq, Eq)]
pub struct ModuleSource {
    /// A stable, package-qualified name for diagnostics and interning, e.g.
    /// `"util/lib.tuo"`. Unique across the whole resolved graph.
    pub name: String,
    /// The module's full tuonelang source text.
    pub text: String,
}

impl ModuleSource {
    /// The module as (name, text).
    pub open spec fn model(&self) -> (Seq<char>, Seq<char>) {
        (self.name@, self.text@)
    }

    /// An equal, separately owned module source.
    pub fn duplicate(&self) -> (r: ModuleSource)
        ensures
            r.model() == self.model(),
    {
        ModuleSource { name: self.name.clone(), text: self.text.clone() }
    }
}

/// The contents of a sequence of module sources.
pub open spec fn modules_model(ms: Seq<ModuleSource>) -> Seq<(Seq<char>, Seq<char>)> {
    Seq::new(ms.len(), |i: int| ms[i].model())
}

// ---------------------------------------------------------------------------
// Checksums.
// ---------------------------------------------------------------------------

/// The SHA-256 digest of `data`, as `sha2` computes it.
pub uninterp spec fn sha256_of(data: Seq<u8>) -> Seq<u8>;

/// `sha2::Sha256::digest`: the SHA-256 digest of `data`, which is a function
/// of the bytes alone and always 32 bytes long.
#[verifier::external_body]
fn sha256_digest(data: &[u8]) -> (r: Vec<u8>)
    ensures
        r@ == sha256_of(data@),
        r@.len() == 32,
{
    sha2::Sha256::digest(data).to_vec()
}

/// The bytes a package's checksum covers: each module's name and text, in
/// order, each followed by a zero byte.
pub open spec fn module_bytes(ms: Seq<(Seq<char>, Seq<char>)>) -> Seq<u8>
    decreases ms.len(),
{
    if ms.len() == 0 {
        seq![]
    } else {
        module_bytes(ms.drop_last()) + vstd::utf8::encode_utf8(ms.last().0) + seq![0u8]
            + vstd::utf8::encode_utf8(ms.last().1) + seq![0u8]
    }
}

/// The lowercase hex digit of a nibble.
pub open spec fn hex_digit(n: u8) -> char {
    if n < 10 {
        ('0' as u8 + n) as char
    } else {
        ('a' as u8 + n - 10) as char
    }
}

/// Lowercase hex, two digits per byte.
pub open spec fn hex(bytes: Seq<u8>) -> Seq<char>
    decreases bytes.len(),
{
    if bytes.len() == 0 {
        seq![]
    } else {
        hex(bytes.drop_last()) + seq![hex_digit(bytes.last() / 16), hex_digit(bytes.last() % 16)]
    }
}

/// The checksum of a package's module sources.
pub open spec fn checksum_spec(ms: Seq<(Seq<char>, Seq<char>)>) -> Seq<char> {
    hex(sha256_of(module_bytes(ms)))
}

/// The lowercase hex digit of `n < 16`.
fn hex_char(n: u8) -> (r: char)
    requires
        n < 16,
    ensures
        r == hex_digit(n),
{
    if n < 10 {
        ('0' as u8 + n) as char
    } else {
        ('a' as u8 + (n - 10)) as char
    }
}

/// Lowercase hex of `bytes`.
fn to_hex(bytes: &Vec<u8>) -> (r: String)
    ensures
        r@ == hex(bytes@),
{
    let mut out = String::new();
    let mut i: usize = 0;
    assert(bytes@.take(0) =~= Seq::<u8>::empty());
    while i < bytes.len()
        invariant
            i <= bytes@.len(),
            out@ == hex(bytes@.take(i as int)),
        decreases bytes.len() - i,
    {
        let b = bytes[i];
        out.push(hex_char(b / 16));
        out.push(hex_char(b % 16));
        proof {
            let t = bytes@.take(i + 1);
            assert(t.drop_last() =~= bytes@.take(i as int));
            assert(t.last() == b);
        }
        i = i + 1;
    }
    assert(bytes@.take(bytes@.len() as int) =~= bytes@);
    out
}

/// Append the UTF-8 bytes of `s`.
fn push_utf8(out: &mut Vec<u8>, s: &str)
    ensures
        final(out)@ == old(out)@ + vstd::utf8::encode_utf8(s@),
{
    let b = s.as_bytes();
    let mut i: usize = 0;
    let ghost head = out@;
    while i < b.len()
        invariant
            i <= b@.len(),
            b@ == vstd::utf8::encode_utf8(s@),
            out@ == head + b@.take(i as int),
        decreases b.len() - i,
    {
        out.push(b[i]);
        assert(b@.take(i + 1) =~= b@.take(i as int).push(b@[i as int]));
        i = i + 1;
    }
    assert(b@.take(b@.len() as int) =~= b@);
}

/// The content checksum of a package: SHA-256 over each module's name and
/// text in order, so both the sources and their layout are pinned.
pub fn checksum_of(modules: &[ModuleSource]) -> (r: String)
    ensures
        r@ == checksum_spec(modules_model(modules@)),
{
    let mut bytes: Vec<u8> = Vec::new();
    let ghost ms = modules_model(modules@);
    assert(ms.take(0) =~= Seq::<(Seq<char>, Seq<char>)>::empty());
    let mut i: usize = 0;
    while i < modules.len()
        invariant
            i <= modules@.len(),
            ms == modules_model(modules@),
            bytes@ == module_bytes(ms.take(i as int)),
        decreases modules.len() - i,
    {
        push_utf8(&mut bytes, modules[i].name.as_str());
        bytes.push(0u8);
        push_utf8(&mut bytes, modules[i].text.as_str());
        bytes.push(0u8);
        proof {
            let t = ms.take(i + 1);
            assert(t.drop_last() =~= ms.take(i as int));
            assert(t.last() == ms[i as int]);
        }
        i = i + 1;
    }
    assert(ms.take(modules@.len() as int) =~= ms);
    let digest = sha256_digest(bytes.as_slice());
    to_hex(&digest)
}

// ---------------------------------------------------------------------------
// The resolved graph.
// ---------------------------------------------------------------------------

/// A single resolved package: its identity, where it lives, its module
/// sources (in a stable order), its content checksum, and its direct
/// dependency names.
#[derive(Debug, PartialEq, Eq)]
pub struct ResolvedPackage {
    /// The package's name.
    pub name: PackageName,
    /// The package's version, from its manifest.
    pub version: String,
    /// Where the package's source came from.
    pub source: LockedSource,
    /// The absolute directory the package was loaded from.
    pub root_dir: String,
    /// Every `.tuo` module under the package's module root, in path order.
    pub modules: Vec<ModuleSource>,
    /// The SHA-256 (hex) of the concatenated module sources.
    pub checksum: String,
    /// The names of this package's direct dependencies, in name order.
    pub dependencies: Vec<PackageName>,
}

/// The content of a [`ResolvedPackage`].
pub struct ResolvedModel {
    pub name: Seq<char>,
    pub version: Seq<char>,
    pub source: SourceModel,
    pub root_dir: Seq<char>,
    pub modules: Seq<(Seq<char>, Seq<char>)>,
    pub checksum: Seq<char>,
    pub dependencies: Seq<Seq<char>>,
}

/// The views of a sequence of names.
pub open spec fn names_model(v: Seq<PackageName>) -> Seq<Seq<char>> {
    Seq::new(v.len(), |i: int| v[i]@)
}

/// The lock record of a resolved package.
pub open spec fn locked_model(p: ResolvedModel) -> PackageModel {
    PackageModel {
        name: p.name,
        version: p.version,
        source: p.source,
        checksum: p.checksum,
        dependencies: p.dependencies,
    }
}

impl ResolvedPackage {
    /// The content of this package.
    pub open spec fn model(&self) -> ResolvedModel {
        ResolvedModel {
            name: self.name@,
            version: self.version@,
            source: self.source.model(),
            root_dir: self.root_dir@,
            modules: modules_model(self.modules@),
            checksum: self.checksum@,
            dependencies: names_model(self.dependencies@),
        }
    }

    /// The locked-graph record for this package.
    pub fn to_locked(&self) -> (r: LockedPackage)
        ensures
            r.model() == locked_model(self.model()),
    {
        let mut dependencies: Vec<String> = Vec::new();
        let mut i: usize = 0;
        while i < self.dependencies.len()
            invariant
                i <= self.dependencies@.len(),
                strings_model(dependencies@) == names_model(self.dependencies@).take(i as int),
            decreases self.dependencies.len() - i,
        {
            let ghost before = dependencies@;
            dependencies.push(self.dependencies[i].as_str().to_owned());
            assert(strings_model(dependencies@) =~= strings_model(before).push(
                self.dependencies@[i as int]@,
            ));
            assert(names_model(self.dependencies@).take(i + 1) =~= names_model(
                self.dependencies@,
            ).take(i as int).push(self.dependencies@[i as int]@));
            i = i + 1;
        }
        assert(names_model(self.dependencies@).take(self.dependencies@.len() as int)
            =~= names_model(self.dependencies@));
        LockedPackage {
            name: self.name.as_str().to_owned(),
            version: self.version.clone(),
            source: self.source.duplicate(),
            checksum: self.checksum.clone(),
            dependencies,
        }
    }
}

/// The contents of a sequence of resolved packages.
pub open spec fn resolved_models(v: Seq<ResolvedPackage>) -> Seq<ResolvedModel> {
    Seq::new(v.len(), |i: int| v[i].model())
}

/// Every module of every package, package by package.
pub open spec fn graph_modules(ps: Seq<ResolvedModel>) -> Seq<(Seq<char>, Seq<char>)>
    decreases ps.len(),
{
    if ps.len() == 0 {
        seq![]
    } else {
        graph_modules(ps.drop_last()) + ps.last().modules
    }
}

/// The fully resolved dependency graph of a root package.
#[derive(Debug, PartialEq, Eq)]
pub struct ResolvedGraph {
    /// The name of the root package (its own manifest's package name).
    pub root: PackageName,
    /// Every package in the graph (root + transitive deps), in name order.
    pub packages: Vec<ResolvedPackage>,
}

impl ResolvedGraph {
    /// Every module source across every package in the graph, in a stable
    /// order (package name, then module path): exactly what a host interns
    /// into a source map to compile or query the whole graph.
    pub fn all_modules(&self) -> (r: Vec<&ModuleSource>)
        ensures
            r@.len() == graph_modules(resolved_models(self.packages@)).len(),
            forall|i: int| 0 <= i < r@.len() ==> #[trigger] r@[i].model() == graph_modules(
                resolved_models(self.packages@),
            )[i],
    {
        let ghost ps = resolved_models(self.packages@);
        let mut out: Vec<&ModuleSource> = Vec::new();
        let mut i: usize = 0;
        assert(ps.take(0) =~= Seq::<ResolvedModel>::empty());
        while i < self.packages.len()
            invariant
                i <= self.packages@.len(),
                ps == resolved_models(self.packages@),
                out@.len() == graph_modules(ps.take(i as int)).len(),
                forall|k: int| 0 <= k < out@.len() ==> #[trigger] out@[k].model() == graph_modules(
                    ps.take(i as int),
                )[k],
            decreases self.packages.len() - i,
        {
            let p = &self.packages[i];
            let ghost base = out@;
            let mut j: usize = 0;
            while j < p.modules.len()
                invariant
                    j <= p.modules@.len(),
                    out@.len() == base.len() + j,
                    forall|k: int| 0 <= k < base.len() ==> #[trigger] out@[k] == base[k],
                    forall|k: int| 0 <= k < j ==> #[trigger] out@[base.len() + k].model()
                        == p.modules@[k].model(),
                decreases p.modules.len() - j,
            {
                out.push(&p.modules[j]);
                j = j + 1;
            }
            proof {
                let t = ps.take(i + 1);
                assert(t.drop_last() =~= ps.take(i as int));
                assert(t.last() == ps[i as int]);
                let g = graph_modules(t);
                assert forall|k: int| 0 <= k < out@.len() implies #[trigger] out@[k].model() == g[k] by {
                    if k < base.len() {
                        assert(out@[k] == base[k]);
                    } else {
                        assert(out@[base.len() + (k - base.len())].model() == p.modules@[k
                            - base.len()].model());
                    }
                }
            }
            i = i + 1;
        }
        assert(ps.take(self.packages@.len() as int) =~= ps);
        out
    }

    /// Look up a resolved package by name: the first one so named.
    pub fn package(&self, name: &PackageName) -> (r: Option<&ResolvedPackage>)
        ensures
            match r {
                Some(p) => exists|i: int|
                    0 <= i < self.packages@.len() && self.packages@[i] == *p && p.name@ == name@
                        && forall|j: int| 0 <= j < i ==> #[trigger] self.packages@[j].name@ != name@,
                None => forall|j: int| 0 <= j < self.packages@.len() ==> #[trigger] self.packages@[j].name@ != name@,
            },
    {
        let mut i: usize = 0;
        while i < self.packages.len()
            invariant
                i <= self.packages@.len(),
                forall|j: int| 0 <= j < i ==> #[trigger] self.packages@[j].name@ != name@,
            decreases self.packages.len() - i,
        {
            if self.packages[i].name == *name {
                return Some(&self.packages[i]);
            }
            i = i + 1;
        }
        None
    }

    /// The lockfile pinning this graph: every package's lock record, in name
    /// order.
    pub fn to_lockfile(&self) -> (r: Lockfile)
        ensures
            r.model().version == crate::lockfile::LOCKFILE_VERSION,
            r.model().packages == sort_by_name(
                Seq::new(self.packages@.len(), |i: int| locked_model(self.packages@[i].model())),
            ),
    {
        let mut locked: Vec<LockedPackage> = Vec::new();
        let mut i: usize = 0;
        let ghost want = Seq::new(self.packages@.len(), |i: int| locked_model(self.packages@[i].model()));
        while i < self.packages.len()
            invariant
                i <= self.packages@.len(),
                want == Seq::new(self.packages@.len(), |i: int| locked_model(self.packages@[i].model())),
                packages_model(locked@) == want.take(i as int),
            decreases self.packages.len() - i,
        {
            let ghost before = locked@;
            locked.push(self.packages[i].to_locked());
            assert(packages_model(locked@) =~= packages_model(before).push(want[i as int]));
            assert(want.take(i + 1) =~= want.take(i as int).push(want[i as int]));
            i = i + 1;
        }
        assert(want.take(self.packages@.len() as int) =~= want);
        Lockfile::new(locked)
    }
}

// ---------------------------------------------------------------------------
// Errors.
// ---------------------------------------------------------------------------

/// An error from resolving or loading a package graph.
#[derive(Debug)]
pub enum ResolveError {
    /// A package directory has no `tdg.toml`.
    MissingManifest(String),
    /// A manifest failed to parse or validate.
    Manifest {
        /// The manifest path.
        path: String,
        /// The underlying error.
        error: ManifestError,
    },
    /// A filesystem read failed.
    Io {
        /// The path being read.
        path: String,
        /// The OS error text.
        error: String,
    },
    /// A package's declared module root does not exist or is not a directory.
    MissingModuleRoot {
        /// The offending package.
        package: PackageName,
        /// The module-root directory that was expected.
        path: String,
    },
    /// The dependency graph contains a cycle (a package reachable from itself).
    Cycle(Vec<PackageName>),
    /// Two distinct paths in the graph declare the same package name.
    DuplicateName {
        /// The clashing name.
        name: PackageName,
        /// The first directory that claimed it.
        first: String,
        /// The second directory that claimed it.
        second: String,
    },
    /// A locked checksum did not match the freshly computed one (drift).
    ChecksumMismatch {
        /// The package whose bytes drifted.
        name: String,
        /// The checksum recorded in the lockfile.
        locked: String,
        /// The checksum computed from the sources on disk.
        actual: String,
    },
}

/// The content of a [`ResolveError`].
pub enum RErr {
    MissingManifest(Seq<char>),
    Manifest(Seq<char>, MErr),
    Io(Seq<char>, Seq<char>),
    MissingModuleRoot(Seq<char>, Seq<char>),
    Cycle(Seq<Seq<char>>),
    DuplicateName(Seq<char>, Seq<char>, Seq<char>),
    ChecksumMismatch(Seq<char>, Seq<char>, Seq<char>),
}

/// Names joined by ` -> `.
pub open spec fn chain_text(ns: Seq<Seq<char>>) -> Seq<char>
    decreases ns.len(),
{
    if ns.len() == 0 {
        seq![]
    } else if ns.len() == 1 {
        ns[0]
    } else {
        chain_text(ns.drop_last()) + " -> "@ + ns.last()
    }
}

/// The text of a resolution error.
pub open spec fn resolve_error_text(e: RErr) -> Seq<char> {
    match e {
        RErr::MissingManifest(p) => "no `"@ + MANIFEST_FILE@ + "` found at "@ + p,
        RErr::Manifest(path, error) => path + ": "@ + manifest_error_text(error),
        RErr::Io(path, error) => "cannot read "@ + path + ": "@ + error,
        RErr::MissingModuleRoot(package, path) => "package `"@ + package + "` module root "@ + path + " does not exist"@,
        RErr::Cycle(names) => "dependency cycle: "@ + chain_text(names),
        RErr::DuplicateName(name, first, second) => "two packages both named `"@ + name + "`: "@ + first + " and "@
            + second,
        RErr::ChecksumMismatch(name, locked, actual) => "checksum mismatch for `"@ + name + "`: lockfile has "@
            + locked + ", sources hash to "@ + actual,
    }
}

impl ResolveError {
    /// The content of this error.
    pub open spec fn model(&self) -> RErr {
        match self {
            ResolveError::MissingManifest(p) => RErr::MissingManifest(p@),
            ResolveError::Manifest { path, error } => RErr::Manifest(path@, error.model()),
            ResolveError::Io { path, error } => RErr::Io(path@, error@),
            ResolveError::MissingModuleRoot { package, path } => RErr::MissingModuleRoot(
                package@,
                path@,
            ),
            ResolveError::Cycle(names) => RErr::Cycle(names_model(names@)),
            ResolveError::DuplicateName { name, first, second } => RErr::DuplicateName(
                name@,
                first@,
                second@,
            ),
            ResolveError::ChecksumMismatch { name, locked, actual } => RErr::ChecksumMismatch(
                name@,
                locked@,
                actual@,
            ),
        }
    }

    /// An equal, separately owned error.
    pub fn duplicate(&self) -> (r: ResolveError)
        ensures
            r.model() == self.model(),
    {
        match self {
            ResolveError::MissingManifest(p) => ResolveError::MissingManifest(p.clone()),
            ResolveError::Manifest { path, error } => ResolveError::Manifest {
                path: path.clone(),
                error: error.duplicate(),
            },
            ResolveError::Io { path, error } => ResolveError::Io {
                path: path.clone(),
                error: error.clone(),
            },
            ResolveError::MissingModuleRoot { package, path } => ResolveError::MissingModuleRoot {
                package: package.clone(),
                path: path.clone(),
            },
            ResolveError::Cycle(names) => ResolveError::Cycle(copy_names(names)),
            ResolveError::DuplicateName { name, first, second } => ResolveError::DuplicateName {
                name: name.clone(),
                first: first.clone(),
                second: second.clone(),
            },
            ResolveError::ChecksumMismatch { name, locked, actual } => ResolveError::ChecksumMismatch {
                name: name.clone(),
                locked: locked.clone(),
                actual: actual.clone(),
            },
        }
    }

    /// A human-readable description of the error.
    pub fn render(&self) -> (r: String)
        ensures
            r@ == resolve_error_text(self.model()),
    {
        let mut out = String::new();
        proof {
            assert(out@ =~= Seq::<char>::empty());
        }
        match self {
            ResolveError::MissingManifest(p) => {
                push_str(&mut out, "no `");
                push_str(&mut out, MANIFEST_FILE);
                push_str(&mut out, "` found at ");
                push_str(&mut out, p.as_str());
            },
            ResolveError::Manifest { path, error } => {
                push_str(&mut out, path.as_str());
                push_str(&mut out, ": ");
                push_str(&mut out, error.render().as_str());
            },
            ResolveError::Io { path, error } => {
                push_str(&mut out, "cannot read ");
                push_str(&mut out, path.as_str());
                push_str(&mut out, ": ");
                push_str(&mut out, error.as_str());
            },
            ResolveError::MissingModuleRoot { package, path } => {
                push_str(&mut out, "package `");
                push_str(&mut out, package.as_str());
                push_str(&mut out, "` module root ");
                push_str(&mut out, path.as_str());
                push_str(&mut out, " does not exist");
            },
            ResolveError::Cycle(names) => {
                push_str(&mut out, "dependency cycle: ");
                let ghost head = out@;
                let ghost ns = names_model(names@);
                let mut i: usize = 0;
                assert(ns.take(0) =~= Seq::<Seq<char>>::empty());
                while i < names.len()
                    invariant
                        i <= names@.len(),
                        ns == names_model(names@),
                        out@ == head + chain_text(ns.take(i as int)),
                    decreases names.len() - i,
                {
                    assert(ns.take(i + 1).drop_last() =~= ns.take(i as int));
                    assert(ns.take(i + 1).last() == names@[i as int]@);
                    if i > 0 {
                        push_str(&mut out, " -> ");
                    }
                    push_str(&mut out, names[i].as_str());
                    assert(out@ =~= head + chain_text(ns.take(i + 1)));
                    i = i + 1;
                }
                assert(ns.take(i as int) =~= ns);
            },
            ResolveError::DuplicateName { name, first, second } => {
                push_str(&mut out, "two packages both named `");
                push_str(&mut out, name.as_str());
                push_str(&mut out, "`: ");
                push_str(&mut out, first.as_str());
                push_str(&mut out, " and ");
                push_str(&mut out, second.as_str());
            },
            ResolveError::ChecksumMismatch { name, locked, actual } => {
                push_str(&mut out, "checksum mismatch for `");
                push_str(&mut out, name.as_str());
                push_str(&mut out, "`: lockfile has ");
                push_str(&mut out, locked.as_str());
                push_str(&mut out, ", sources hash to ");
                push_str(&mut out, actual.as_str());
            },
        }
        out
    }
}

/// Equal, separately owned names.
fn copy_names(names: &Vec<PackageName>) -> (r: Vec<PackageName>)
    ensures
        names_model(r@) == names_model(names@),
{
    let mut out: Vec<PackageName> = Vec::new();
    let mut i: usize = 0;
    while i < names.len()
        invariant
            i <= names@.len(),
            names_model(out@) == names_model(names@).take(i as int),
        decreases names.len() - i,
    {
        let ghost before = out@;
        out.push(names[i].clone());
        assert(names_model(out@) =~= names_model(before).push(names@[i as int]@));
        assert(names_model(names@).take(i + 1) =~= names_model(names@).take(i as int).push(
            names@[i as int]@,
        ));
        i = i + 1;
    }
    assert(names_model(names@).take(names@.len() as int) =~= names_model(names@));
    out
}

// ---------------------------------------------------------------------------
// Checking a graph against a lockfile.
// ---------------------------------------------------------------------------

/// The first lock record named `name` from position `j` on, if any.
pub open spec fn first_locked(lock: Seq<PackageModel>, name: Seq<char>, j: nat) -> Option<PackageModel>
    decreases lock.len() - j,
{
    if j >= lock.len() {
        None
    } else if lock[j as int].name == name {
        Some(lock[j as int])
    } else {
        first_locked(lock, name, j + 1)
    }
}

/// Checking packages `ps[i..]` against the lock: the first non-root package
/// whose locked checksum differs from its computed one is a mismatch.
pub open spec fn verify_spec(ps: Seq<ResolvedModel>, lock: Seq<PackageModel>, i: nat) -> Result<(), RErr>
    decreases ps.len() - i,
{
    if i >= ps.len() {
        Ok(())
    } else {
        let p = ps[i as int];
        if p.source is Root {
            verify_spec(ps, lock, i + 1)
        } else {
            match first_locked(lock, p.name, 0) {
                Some(l) => if l.checksum != p.checksum {
                    Err(RErr::ChecksumMismatch(p.name, l.checksum, p.checksum))
                } else {
                    verify_spec(ps, lock, i + 1)
                },
                None => verify_spec(ps, lock, i + 1),
            }
        }
    }
}

/// Verify a resolved graph's **dependencies** against a previously written
/// lockfile: every locked dependency's freshly computed checksum must match
/// the one the lockfile pinned, so a build never silently compiles drifted
/// dependency bytes. The **root** package is exempt: it is the package under
/// active development, so its own bytes changing is expected, not drift.
/// Packages the lockfile does not mention are not checked.
pub fn verify_against_lock(graph: &ResolvedGraph, lock: &Lockfile) -> (r: Result<(), ResolveError>)
    ensures
        match r {
            Ok(()) => verify_spec(resolved_models(graph.packages@), lock.model().packages, 0) == Ok::<(), RErr>(()),
            Err(e) => verify_spec(resolved_models(graph.packages@), lock.model().packages, 0) == Err::<(), RErr>(e.model()),
        },
{
    let ghost ps = resolved_models(graph.packages@);
    let ghost lk = lock.model().packages;
    let mut i: usize = 0;
    while i < graph.packages.len()
        invariant
            i <= graph.packages@.len(),
            ps == resolved_models(graph.packages@),
            lk == lock.model().packages,
            verify_spec(ps, lk, 0) == verify_spec(ps, lk, i as nat),
        decreases graph.packages.len() - i,
    {
        let package = &graph.packages[i];
        assert(ps[i as int] == package.model());
        let is_root = match &package.source {
            LockedSource::Root => true,
            LockedSource::Path(_) => false,
        };
        if !is_root {
            match lock.package(package.name.as_str()) {
                Some(locked) => {
                    proof {
                        let k = choose|k: int|
                            0 <= k < lock.packages@.len() && lock.packages@[k] == *locked
                                && locked.name@ == package.name@ && forall|j: int|
                                0 <= j < k ==> #[trigger] lock.packages@[j].name@ != package.name@;
                        lemma_first_locked_at(lk, package.name@, 0, k);
                        assert(lk[k] == locked.model());
                    }
                    if !chars_eq(&chars_of(locked.checksum.as_str()), &chars_of(package.checksum.as_str())) {
                        return Err(ResolveError::ChecksumMismatch {
                            name: package.name.as_str().to_owned(),
                            locked: locked.checksum.clone(),
                            actual: package.checksum.clone(),
                        });
                    }
                },
                None => {
                    proof {
                        lemma_first_locked_none(lk, package.name@, 0);
                    }
                },
            }
        }
        i = i + 1;
    }
    Ok(())
}

/// The first record with a name is found where it stands.
proof fn lemma_first_locked_at(lock: Seq<PackageModel>, name: Seq<char>, j: nat, k: int)
    requires
        j <= k < lock.len(),
        lock[k].name == name,
        forall|m: int| j <= m < k ==> #[trigger] lock[m].name != name,
    ensures
        first_locked(lock, name, j) == Some(lock[k]),
    decreases k - j,
{
    if j < k {
        lemma_first_locked_at(lock, name, j + 1, k);
    }
}

/// No record with a name is found when none has it.
proof fn lemma_first_locked_none(lock: Seq<PackageModel>, name: Seq<char>, j: nat)
    requires
        forall|m: int| j <= m < lock.len() ==> #[trigger] lock[m].name != name,
    ensures
        first_locked(lock, name, j) is None,
    decreases lock.len() - j,
{
    if j < lock.len() {
        lemma_first_locked_none(lock, name, j + 1);
    }
}

// ---------------------------------------------------------------------------
// Sorting dependency names.
// ---------------------------------------------------------------------------

/// The position after every leading name that does not sort after `x`.
pub open spec fn name_upper_bound(s: Seq<Seq<char>>, x: Seq<char>) -> nat
    decreases s.len(),
{
    if s.len() == 0 {
        0
    } else if !seq_lt(x, s[0]) {
        1 + name_upper_bound(s.drop_first(), x)
    } else {
        0
    }
}

/// Names sorted by insertion, each inserted after the names not sorting
/// after it.
pub open spec fn sort_names(xs: Seq<Seq<char>>) -> Seq<Seq<char>>
    decreases xs.len(),
{
    if xs.len() == 0 {
        seq![]
    } else {
        let s = sort_names(xs.drop_last());
        let p = name_upper_bound(s, xs.last()) as int;
        s.take(p) + seq![xs.last()] + s.skip(p)
    }
}

/// Names never decrease along the sequence.
pub open spec fn names_ordered(s: Seq<Seq<char>>) -> bool {
    forall|i: int, j: int| 0 <= i < j < s.len() ==> !seq_lt(#[trigger] s[j], #[trigger] s[i])
}

/// The upper bound lies within the names, every name before it does not
/// sort after `x`, and the name at it does.
proof fn lemma_name_upper_bound(s: Seq<Seq<char>>, x: Seq<char>)
    ensures
        name_upper_bound(s, x) <= s.len(),
        forall|j: int| 0 <= j < name_upper_bound(s, x) ==> !seq_lt(x, #[trigger] s[j]),
        name_upper_bound(s, x) < s.len() ==> seq_lt(x, s[name_upper_bound(s, x) as int]),
    decreases s.len(),
{
    if s.len() > 0 && !seq_lt(x, s[0]) {
        lemma_name_upper_bound(s.drop_first(), x);
        assert forall|j: int| 0 <= j < name_upper_bound(s, x) implies !seq_lt(x, #[trigger] s[j]) by {
            if j > 0 {
                assert(s[j] == s.drop_first()[j - 1]);
            }
        }
    }
}

/// Sorting names puts them in name order and keeps their number.
pub proof fn lemma_sort_names_ordered(xs: Seq<Seq<char>>)
    ensures
        names_ordered(sort_names(xs)),
        sort_names(xs).len() == xs.len(),
    decreases xs.len(),
{
    if xs.len() > 0 {
        lemma_sort_names_ordered(xs.drop_last());
        let s = sort_names(xs.drop_last());
        let x = xs.last();
        lemma_name_upper_bound(s, x);
        let p = name_upper_bound(s, x) as int;
        let n = s.take(p) + seq![x] + s.skip(p);
        assert forall|i: int, j: int| 0 <= i < j < n.len() implies !seq_lt(#[trigger] n[j], #[trigger] n[i]) by {
            let a = if i < p { i } else if i == p { -1 } else { i - 1 };
            let b = if j < p { j } else if j == p { -1 } else { j - 1 };
            if i == p {
                if seq_lt(s[b], x) {
                    crate::text::lemma_seq_lt_asym(x, s[b]);
                    if b == p {
                        crate::text::lemma_seq_lt_asym(x, s[p]);
                    } else {
                        crate::text::lemma_seq_lt_total(s[p], s[b]);
                        if s[p] == s[b] {
                            crate::text::lemma_seq_lt_asym(s[b], x);
                        } else if seq_lt(s[b], s[p]) {
                        } else {
                            crate::text::lemma_seq_lt_trans(x, s[p], s[b]);
                            crate::text::lemma_seq_lt_asym(x, s[b]);
                        }
                    }
                }
            } else if j == p {
            } else {
                assert(n[i] == s[a] && n[j] == s[b]);
            }
        }
    }
}

/// Sorting names already in name order leaves them as they are.
pub proof fn lemma_sort_names_id(xs: Seq<Seq<char>>)
    requires
        names_ordered(xs),
    ensures
        sort_names(xs) == xs,
    decreases xs.len(),
{
    if xs.len() > 0 {
        let init = xs.drop_last();
        assert forall|i: int, j: int| 0 <= i < j < init.len() implies !seq_lt(#[trigger] init[j], #[trigger] init[i]) by {
            assert(init[i] == xs[i] && init[j] == xs[j]);
        }
        lemma_sort_names_id(init);
        let x = xs.last();
        assert forall|j: int| 0 <= j < init.len() implies !seq_lt(x, #[trigger] init[j]) by {
            assert(init[j] == xs[j]);
            assert(x == xs[xs.len() - 1]);
        }
        lemma_name_upper_bound_at(init, x, init.len() as int);
        assert(init.take(init.len() as int) + seq![x] + init.skip(init.len() as int) =~= xs);
    }
}

/// The scan position of an insertion is the upper bound.
pub proof fn lemma_name_upper_bound_at(s: Seq<Seq<char>>, x: Seq<char>, p: int)
    requires
        0 <= p <= s.len(),
        forall|j: int| 0 <= j < p ==> !seq_lt(x, #[trigger] s[j]),
        p == s.len() || seq_lt(x, s[p]),
    ensures
        name_upper_bound(s, x) == p,
    decreases s.len(),
{
    if s.len() > 0 && !seq_lt(x, s[0]) {
        assert forall|j: int| 0 <= j < p - 1 implies !seq_lt(x, #[trigger] s.drop_first()[j]) by {
            assert(s.drop_first()[j] == s[j + 1]);
        }
        lemma_name_upper_bound_at(s.drop_first(), x, p - 1);
    }
}

/// Sort names into name order.
fn sort_package_names(names: Vec<PackageName>) -> (r: Vec<PackageName>)
    ensures
        names_model(r@) == sort_names(names_model(names@)),
{
    let ghost orig = names_model(names@);
    let mut out: Vec<PackageName> = Vec::new();
    let mut k: usize = 0;
    assert(orig.take(0) =~= Seq::<Seq<char>>::empty());
    assert(names_model(out@) =~= Seq::<Seq<char>>::empty());
    while k < names.len()
        invariant
            k <= names@.len(),
            orig == names_model(names@),
            names_model(out@) == sort_names(orig.take(k as int)),
        decreases names.len() - k,
    {
        let x = names[k].clone();
        let mut pos: usize = 0;
        while pos < out.len() && !x.sorts_before(&out[pos])
            invariant
                pos <= out@.len(),
                forall|j: int| 0 <= j < pos ==> !seq_lt(x@, #[trigger] out@[j]@),
            decreases out.len() - pos,
        {
            pos = pos + 1;
        }
        proof {
            let s = names_model(out@);
            assert forall|j: int| 0 <= j < pos implies !seq_lt(x@, #[trigger] s[j]) by {
                assert(s[j] == out@[j]@);
            }
            lemma_name_upper_bound_at(s, x@, pos as int);
            assert(orig.take(k + 1).drop_last() =~= orig.take(k as int));
            assert(orig.take(k + 1).last() == orig[k as int]);
        }
        let ghost old_out = out@;
        out.insert(pos, x);
        assert(names_model(out@) =~= names_model(old_out).take(pos as int) + seq![x@]
            + names_model(old_out).skip(pos as int));
        k = k + 1;
    }
    assert(orig.take(names@.len() as int) =~= orig);
    out
}

// ---------------------------------------------------------------------------
// The loaded package set and the walk.
// ---------------------------------------------------------------------------

/// One package directory as the host read it: the directory, what reading
/// its manifest gave, the package set index of each path dependency's
/// directory (in the manifest's dependency order), and what reading its
/// module sources gave.
#[derive(Debug)]
pub struct LoadedPackage {
    /// The package's absolute directory.
    pub dir: String,
    /// Its manifest, or the error loading it.
    pub manifest: Result<Manifest, ResolveError>,
    /// For each declared dependency, in name order, the index of the
    /// package loaded from its directory.
    pub deps: Vec<usize>,
    /// Its module sources in path order, or the error loading them.
    pub modules: Result<Vec<ModuleSource>, ResolveError>,
}

/// The content of a [`LoadedPackage`]: directory, manifest (name, version)
/// or error, dependency indices, modules or error.
pub struct LoadedModel {
    pub dir: Seq<char>,
    pub manifest: Result<(Seq<char>, Seq<char>), RErr>,
    pub deps: Seq<usize>,
    pub modules: Result<Seq<(Seq<char>, Seq<char>)>, RErr>,
}

impl LoadedPackage {
    /// The content of this loaded package.
    pub open spec fn model(&self) -> LoadedModel {
        LoadedModel {
            dir: self.dir@,
            manifest: match &self.manifest {
                Ok(m) => Ok::<(Seq<char>, Seq<char>), RErr>((m.name@, m.version@)),
                Err(e) => Err(e.model()),
            },
            deps: self.deps@,
            modules: match &self.modules {
                Ok(ms) => Ok::<Seq<(Seq<char>, Seq<char>)>, RErr>(modules_model(ms@)),
                Err(e) => Err(e.model()),
            },
        }
    }
}

/// Every package directory reachable from a root, as the host read them.
#[derive(Debug)]
pub struct PackageSet {
    /// The loaded packages.
    pub packages: Vec<LoadedPackage>,
    /// The index of the root package.
    pub root: usize,
}

/// The contents of a sequence of loaded packages.
pub open spec fn loaded_models(v: Seq<LoadedPackage>) -> Seq<LoadedModel> {
    Seq::new(v.len(), |i: int| v[i].model())
}

/// The root and every dependency index name a loaded package.
pub open spec fn set_wf(g: Seq<LoadedModel>, root: int) -> bool {
    &&& 0 <= root < g.len()
    &&& forall|i: int, k: int| 0 <= i < g.len() && 0 <= k < g[i].deps.len() ==> #[trigger] g[i].deps[k] < g.len()
}

impl PackageSet {
    /// The content of this package set.
    pub open spec fn model(&self) -> Seq<LoadedModel> {
        loaded_models(self.packages@)
    }

    /// Whether the root and every dependency index name a loaded package.
    pub open spec fn wf(&self) -> bool {
        set_wf(self.model(), self.root as int)
    }

    /// Check [`PackageSet::wf`].
    pub fn well_formed(&self) -> (r: bool)
        ensures
            r == self.wf(),
    {
        if self.root >= self.packages.len() {
            return false;
        }
        let n = self.packages.len();
        let mut i: usize = 0;
        while i < n
            invariant
                i <= n,
                n == self.packages@.len(),
                forall|a: int, k: int| 0 <= a < i && 0 <= k < self.model()[a].deps.len() ==> #[trigger] self.model()[a].deps[k] < n,
            decreases n - i,
        {
            let deps = &self.packages[i].deps;
            let mut k: usize = 0;
            while k < deps.len()
                invariant
                    k <= deps@.len(),
                    i < n,
                    n == self.packages@.len(),
                    deps@ == self.model()[i as int].deps,
                    forall|a: int, m: int| 0 <= a < i && 0 <= m < self.model()[a].deps.len() ==> #[trigger] self.model()[a].deps[m] < n,
                    forall|m: int| 0 <= m < k ==> #[trigger] deps@[m] < n,
                decreases deps.len() - k,
            {
                if deps[k] >= n {
                    assert(self.model()[i as int].deps[k as int] >= n);
                    return false;
                }
                k = k + 1;
            }
            i = i + 1;
        }
        true
    }
}

/// The state a walk threads: which directory claimed each name, and the
/// packages resolved so far, both keyed by name in name order.
pub struct WalkState {
    pub claimed: Seq<(Seq<char>, Seq<char>)>,
    pub packages: Seq<(Seq<char>, ResolvedModel)>,
}

/// `t` with `k` mapped to `v`: replaced in place or inserted in order.
pub open spec fn map_put<V>(t: Seq<(Seq<char>, V)>, k: Seq<char>, v: V) -> Seq<(Seq<char>, V)> {
    if keys(t).contains(k) {
        replace_value(t, k, v)
    } else {
        insert_sorted(t, k, v)
    }
}

/// The record of package `name` loaded from `dir`, whose dependencies are
/// `names` (in walk order).
pub open spec fn package_record(
    name: Seq<char>,
    version: Seq<char>,
    is_root: bool,
    dir: Seq<char>,
    mods: Seq<(Seq<char>, Seq<char>)>,
    names: Seq<Seq<char>>,
) -> ResolvedModel {
    ResolvedModel {
        name,
        version,
        source: if is_root {
            SourceModel::Root
        } else {
            SourceModel::Path(dir)
        },
        root_dir: dir,
        modules: mods,
        checksum: checksum_spec(mods),
        dependencies: sort_names(names),
    }
}

/// Walking package `i` with `path` the names on the active path: a name on
/// the path is a cycle; a name claimed by another directory is a
/// duplicate; a name claimed by the same directory is already done.
/// Otherwise the package is claimed, its dependencies walked in order, its
/// modules loaded, and its record stored.
pub open spec fn walk_spec(g: Seq<LoadedModel>, i: int, is_root: bool, path: Seq<Seq<char>>, st: WalkState) -> Result<
    WalkState,
    RErr,
>
    decreases g.len() + 1 - path.len(), 0int, 0int,
{
    if path.len() > g.len() || i < 0 || i >= g.len() {
        Ok(st)
    } else {
        match g[i].manifest {
            Err(e) => Err(e),
            Ok((name, version)) => if path.contains(name) {
                Err(RErr::Cycle(path.push(name)))
            } else if keys(st.claimed).contains(name) {
                if value_of(st.claimed, name) == g[i].dir {
                    Ok(st)
                } else {
                    Err(RErr::DuplicateName(name, value_of(st.claimed, name), g[i].dir))
                }
            } else {
                let st1 = WalkState {
                    claimed: insert_sorted(st.claimed, name, g[i].dir),
                    packages: st.packages,
                };
                match deps_spec(g, i, path.push(name), 0, seq![], st1) {
                    Err(e) => Err(e),
                    Ok((names, st2)) => match g[i].modules {
                        Err(e) => Err(e),
                        Ok(mods) => Ok(
                            WalkState {
                                claimed: st2.claimed,
                                packages: map_put(
                                    st2.packages,
                                    name,
                                    package_record(name, version, is_root, g[i].dir, mods, names),
                                ),
                            },
                        ),
                    },
                }
            },
        }
    }
}

/// Walking the dependencies of package `i` from the `k`-th on: each
/// dependency's manifest must load, its name is recorded, and it is walked.
pub open spec fn deps_spec(
    g: Seq<LoadedModel>,
    i: int,
    path: Seq<Seq<char>>,
    k: int,
    names: Seq<Seq<char>>,
    st: WalkState,
) -> Result<(Seq<Seq<char>>, WalkState), RErr>
    decreases g.len() + 1 - path.len(), 1int, if 0 <= i < g.len() {
        g[i].deps.len() - k
    } else {
        0
    },
{
    if i < 0 || i >= g.len() || k < 0 || k >= g[i].deps.len() || g[i].deps[k] >= g.len() {
        Ok((names, st))
    } else {
        let j = g[i].deps[k] as int;
        match g[j].manifest {
            Err(e) => Err(e),
            Ok((dn, _)) => match walk_spec(g, j, false, path, st) {
                Err(e) => Err(e),
                Ok(st2) => deps_spec(g, i, path, k + 1, names.push(dn), st2),
            },
        }
    }
}

/// The content of a resolved graph: the root's name and the packages.
pub struct GraphModel {
    pub root: Seq<char>,
    pub packages: Seq<ResolvedModel>,
}

impl ResolvedGraph {
    /// The content of this graph.
    pub open spec fn model(&self) -> GraphModel {
        GraphModel { root: self.root@, packages: resolved_models(self.packages@) }
    }
}

/// Resolving a package set: the root's manifest must load; then the walk
/// from the root decides the graph, whose packages come out in name order.
pub open spec fn resolve_spec(g: Seq<LoadedModel>, root: int) -> Result<GraphModel, RErr> {
    match g[root].manifest {
        Err(e) => Err(e),
        Ok((name, _)) => match walk_spec(
            g,
            root,
            true,
            seq![],
            WalkState { claimed: seq![], packages: seq![] },
        ) {
            Err(e) => Err(e),
            Ok(st) => Ok(
                GraphModel {
                    root: name,
                    packages: Seq::new(st.packages.len(), |k: int| st.packages[k].1),
                },
            ),
        },
    }
}

/// The names of the loaded packages (empty where the manifest failed).
pub open spec fn node_names(g: Seq<LoadedModel>) -> Seq<Seq<char>> {
    Seq::new(
        g.len(),
        |j: int|
            match g[j].manifest {
                Ok((n, _)) => n,
                Err(_) => seq![],
            },
    )
}

/// The active path holds distinct names of loaded packages.
pub open spec fn path_ok(g: Seq<LoadedModel>, path: Seq<Seq<char>>) -> bool {
    &&& path.no_duplicates()
    &&& forall|x: Seq<char>| path.contains(x) ==> node_names(g).contains(x)
}

/// An active path is never longer than the package set.
proof fn lemma_path_len(g: Seq<LoadedModel>, path: Seq<Seq<char>>)
    requires
        path_ok(g, path),
    ensures
        path.len() <= g.len(),
{
    let nn = node_names(g);
    path.unique_seq_to_set();
    nn.lemma_cardinality_of_set();
    vstd::seq_lib::seq_to_set_is_finite(nn);
    assert(path.to_set().subset_of(nn.to_set()));
    vstd::set_lib::lemma_len_subset(path.to_set(), nn.to_set());
}

/// The content of a name-to-directory claim list.
pub open spec fn claimed_model(v: Seq<(String, String)>) -> Seq<(Seq<char>, Seq<char>)> {
    Seq::new(v.len(), |i: int| (v[i].0@, v[i].1@))
}

/// The content of a name-to-package list.
pub open spec fn stored_model(v: Seq<(String, ResolvedPackage)>) -> Seq<(Seq<char>, ResolvedModel)> {
    Seq::new(v.len(), |i: int| (v[i].0@, v[i].1.model()))
}

/// Equal, separately owned module sources.
fn copy_modules(ms: &Vec<ModuleSource>) -> (r: Vec<ModuleSource>)
    ensures
        modules_model(r@) == modules_model(ms@),
{
    let mut out: Vec<ModuleSource> = Vec::new();
    let mut i: usize = 0;
    while i < ms.len()
        invariant
            i <= ms@.len(),
            modules_model(out@) == modules_model(ms@).take(i as int),
        decreases ms.len() - i,
    {
        let ghost before = out@;
        out.push(ms[i].duplicate());
        assert(modules_model(out@) =~= modules_model(before).push(ms@[i as int].model()));
        assert(modules_model(ms@).take(i + 1) =~= modules_model(ms@).take(i as int).push(
            ms@[i as int].model(),
        ));
        i = i + 1;
    }
    assert(modules_model(ms@).take(ms@.len() as int) =~= modules_model(ms@));
    out
}

/// The walk state held in `claimed` and `packages`.
pub open spec fn state_of(claimed: Seq<(String, String)>, packages: Seq<(String, ResolvedPackage)>) -> WalkState {
    WalkState { claimed: claimed_model(claimed), packages: stored_model(packages) }
}

/// Store `record` under `key`, replacing any record already stored there.
fn put_package(packages: &mut Vec<(String, ResolvedPackage)>, key: String, record: ResolvedPackage)
    requires
        sorted(skeys(old(packages)@)),
    ensures
        sorted(skeys(final(packages)@)),
        stored_model(final(packages)@) == map_put(stored_model(old(packages)@), key@, record.model()),
{
    let ghost old_p = packages@;
    proof {
        assert(keys(stored_model(old_p)) =~= skeys(old_p));
    }
    let k = chars_of(key.as_str());
    let (p, found) = find_key(packages, &k);
    proof {
        crate::assoc::lemma_lower_bound_split(skeys(old_p), key@);
    }
    if found {
        let _ = packages.remove(p);
        packages.insert(p, (key, record));
        proof {
            assert(packages@ =~= old_p.update(p as int, (key, record)));
            assert(skeys(packages@) =~= skeys(old_p));
            assert(stored_model(packages@) =~= replace_value(stored_model(old_p), key@, record.model()));
        }
    } else {
        proof {
            lemma_insert_sorted(stored_model(old_p), key@, record.model());
        }
        packages.insert(p, (key, record));
        proof {
            assert(stored_model(packages@) =~= insert_sorted(stored_model(old_p), key@, record.model()));
            assert(keys(stored_model(packages@)) =~= skeys(packages@));
        }
    }
}

/// Walk package `i` of `g` (whose manifest loaded), with `stack` the names
/// on the active path: the executable form of [`walk_spec`].
#[verifier::loop_isolation(false)]
#[verifier::rlimit(50)]
fn walk(
    g: &PackageSet,
    i: usize,
    is_root: bool,
    claimed: &mut Vec<(String, String)>,
    packages: &mut Vec<(String, ResolvedPackage)>,
    stack: &mut Vec<PackageName>,
) -> (r: Result<(), ResolveError>)
    requires
        g.wf(),
        i < g.packages@.len(),
        sorted(skeys(old(claimed)@)),
        sorted(skeys(old(packages)@)),
        path_ok(g.model(), names_model(old(stack)@)),
    ensures
        sorted(skeys(final(claimed)@)),
        sorted(skeys(final(packages)@)),
        match r {
            Ok(()) => walk_spec(
                g.model(),
                i as int,
                is_root,
                names_model(old(stack)@),
                state_of(old(claimed)@, old(packages)@),
            ) == Ok::<WalkState, RErr>(state_of(final(claimed)@, final(packages)@)) && names_model(
                final(stack)@,
            ) == names_model(old(stack)@),
            Err(e) => walk_spec(
                g.model(),
                i as int,
                is_root,
                names_model(old(stack)@),
                state_of(old(claimed)@, old(packages)@),
            ) == Err::<WalkState, RErr>(e.model()),
        },
    decreases g.packages@.len() + 1 - old(stack)@.len(),
{
    let ghost gm = g.model();
    let ghost path = names_model(stack@);
    let ghost st0 = state_of(claimed@, packages@);
    proof {
        lemma_path_len(gm, path);
    }
    let node = &g.packages[i];
    assert(gm[i as int] == node.model());
    let manifest = match &node.manifest {
        Ok(m) => m,
        Err(e) => {
            return Err(e.duplicate());
        },
    };
    let name = manifest.name.clone();
    // A name already on the active path closes a cycle.
    let mut s: usize = 0;
    while s < stack.len()
        invariant
            s <= stack@.len(),
            path == names_model(stack@),
            forall|t: int| 0 <= t < s ==> #[trigger] stack@[t]@ != name@,
        decreases stack.len() - s,
    {
        if stack[s] == name {
            proof {
                assert(path[s as int] == name@);
            }
            let mut chain = copy_names(stack);
            let ghost before = chain@;
            chain.push(name);
            proof {
                assert(names_model(chain@) =~= names_model(before).push(name@));
            }
            return Err(ResolveError::Cycle(chain));
        }
        s = s + 1;
    }
    proof {
        if path.contains(name@) {
            let t = path.index_of(name@);
            assert(stack@[t]@ == name@);
        }
    }
    // A name claimed by another directory is a duplicate; by the same one,
    // the package is already loaded.
    let key = chars_of(name.as_str());
    proof {
        assert(keys(claimed_model(claimed@)) =~= skeys(claimed@));
    }
    let (p, found) = find_key(claimed, &key);
    proof {
        crate::assoc::lemma_lower_bound_split(skeys(claimed@), name@);
    }
    if found {
        assert(value_of(st0.claimed, name@) == claimed@[p as int].1@);
        if chars_eq(&chars_of(claimed[p].1.as_str()), &chars_of(node.dir.as_str())) {
            return Ok(());
        }
        return Err(ResolveError::DuplicateName {
            name,
            first: claimed[p].1.clone(),
            second: node.dir.clone(),
        });
    }
    proof {
        lemma_insert_sorted(st0.claimed, name@, node.dir@);
    }
    claimed.insert(p, (name.as_str().to_owned(), node.dir.clone()));
    proof {
        assert(claimed_model(claimed@) =~= insert_sorted(st0.claimed, name@, node.dir@));
        assert(keys(claimed_model(claimed@)) =~= skeys(claimed@));
    }
    let ghost path1 = path.push(name@);
    let ghost st1 = state_of(claimed@, packages@);
    stack.push(name.clone());
    proof {
        assert(names_model(stack@) =~= path1);
        assert(path_ok(gm, path1)) by {
            assert forall|a: int, b: int| 0 <= a < b < path1.len() implies path1[a] != path1[b] by {
                if b == path.len() {
                    assert(path.contains(path1[a]));
                }
            }
            assert forall|x: Seq<char>| path1.contains(x) implies node_names(gm).contains(x) by {
                if x == name@ {
                    assert(node_names(gm)[i as int] == name@);
                } else {
                    let t = path1.index_of(x);
                    assert(path.contains(x));
                }
            }
        }
    }
    // Walk each path dependency in turn.
    let mut dep_names: Vec<PackageName> = Vec::new();
    assert(names_model(dep_names@) =~= Seq::<Seq<char>>::empty());
    let mut k: usize = 0;
    while k < node.deps.len()
        invariant
            k <= node.deps@.len(),
            names_model(stack@) == path1,
            sorted(skeys(claimed@)),
            sorted(skeys(packages@)),
            deps_spec(gm, i as int, path1, 0, seq![], st1) == deps_spec(
                gm,
                i as int,
                path1,
                k as int,
                names_model(dep_names@),
                state_of(claimed@, packages@),
            ),
        decreases node.deps.len() - k,
    {
        let j = node.deps[k];
        assert(gm[i as int].deps[k as int] == j);
        assert(gm[j as int] == g.packages@[j as int].model());
        let dm = match &g.packages[j].manifest {
            Ok(m) => m,
            Err(e) => {
                return Err(e.duplicate());
            },
        };
        let ghost before = dep_names@;
        dep_names.push(dm.name.clone());
        assert(names_model(dep_names@) =~= names_model(before).push(dm.name@));
        match walk(g, j, false, claimed, packages, stack) {
            Ok(()) => {},
            Err(e) => {
                return Err(e);
            },
        }
        k = k + 1;
    }
    let dependencies = sort_package_names(dep_names);
    let modules = match &node.modules {
        Ok(ms) => copy_modules(ms),
        Err(e) => {
            return Err(e.duplicate());
        },
    };
    let checksum = checksum_of(modules.as_slice());
    let source = if is_root {
        LockedSource::Root
    } else {
        LockedSource::Path(node.dir.clone())
    };
    let record = ResolvedPackage {
        name: name.clone(),
        version: manifest.version.clone(),
        source,
        root_dir: node.dir.clone(),
        modules,
        checksum,
        dependencies,
    };
    let ghost st2 = state_of(claimed@, packages@);
    put_package(packages, name.as_str().to_owned(), record);
    let ghost full = stack@;
    let _ = stack.pop();
    proof {
        assert forall|t: int| 0 <= t < stack@.len() implies #[trigger] names_model(stack@)[t] == path[t] by {
            assert(stack@[t] == full[t]);
            assert(names_model(full)[t] == path1[t]);
        }
        assert(names_model(stack@) =~= path);
    }
    Ok(())
}

/// Resolve a loaded package set from its root: follow path dependencies
/// transitively from the root, detecting cycles and duplicate names, and
/// return the full graph with its packages in name order.
pub fn resolve(set: &PackageSet) -> (r: Result<ResolvedGraph, ResolveError>)
    requires
        set.wf(),
    ensures
        match r {
            Ok(graph) => resolve_spec(set.model(), set.root as int) == Ok::<GraphModel, RErr>(graph.model()),
            Err(e) => resolve_spec(set.model(), set.root as int) == Err::<GraphModel, RErr>(e.model()),
        },
{
    let root = &set.packages[set.root];
    assert(set.model()[set.root as int] == root.model());
    let root_name = match &root.manifest {
        Ok(m) => m.name.clone(),
        Err(e) => {
            return Err(e.duplicate());
        },
    };
    let mut claimed: Vec<(String, String)> = Vec::new();
    let mut packages: Vec<(String, ResolvedPackage)> = Vec::new();
    let mut stack: Vec<PackageName> = Vec::new();
    proof {
        assert(state_of(claimed@, packages@) == WalkState { claimed: seq![], packages: seq![] }) by {
            assert(claimed_model(claimed@) =~= Seq::<(Seq<char>, Seq<char>)>::empty());
            assert(stored_model(packages@) =~= Seq::<(Seq<char>, ResolvedModel)>::empty());
        }
        assert(names_model(stack@) =~= Seq::<Seq<char>>::empty());
    }
    match walk(set, set.root, true, &mut claimed, &mut packages, &mut stack) {
        Ok(()) => {},
        Err(e) => {
            return Err(e);
        },
    }
    let ghost all = stored_model(packages@);
    let ghost vals = Seq::new(all.len(), |k: int| all[k].1);
    let mut ordered: Vec<ResolvedPackage> = Vec::new();
    let ghost mut c: int = 0;
    while packages.len() > 0
        invariant
            0 <= c <= all.len(),
            vals == Seq::new(all.len(), |k: int| all[k].1),
            stored_model(packages@) == all.skip(c),
            resolved_models(ordered@) == vals.take(c),
        decreases packages.len(),
    {
        let ghost before = packages@;
        assert(stored_model(before).len() == before.len());
        assert(c < all.len());
        let (_, p) = packages.remove(0);
        assert(stored_model(before)[0] == all.skip(c)[0]);
        let ghost prev = ordered@;
        ordered.push(p);
        proof {
            assert(stored_model(packages@) =~= all.skip(c + 1)) by {
                assert forall|t: int| 0 <= t < packages@.len() implies stored_model(packages@)[t] == all.skip(c + 1)[t] by {
                    assert(packages@[t] == before[t + 1]);
                    assert(stored_model(before)[t + 1] == all.skip(c)[t + 1]);
                }
            }
            assert(resolved_models(ordered@) =~= resolved_models(prev).push(vals[c]));
            assert(vals.take(c + 1) =~= vals.take(c).push(vals[c]));
            c = c + 1;
        }
    }
    assert(vals.take(c) =~= vals);
    Ok(ResolvedGraph { root: root_name, packages: ordered })
}

// ---------------------------------------------------------------------------
// Laws of the walk.
// ---------------------------------------------------------------------------

/// A resolved record whose checksum is that of its modules and whose
/// dependency names are in name order.
pub open spec fn record_ok(r: ResolvedModel) -> bool {
    &&& r.checksum == checksum_spec(r.modules)
    &&& names_ordered(r.dependencies)
}

/// A name-keyed table whose keys are in order and name their records, each
/// record consistent.
pub open spec fn table_ok(t: Seq<(Seq<char>, ResolvedModel)>) -> bool {
    &&& sorted(keys(t))
    &&& forall|k: int| 0 <= k < t.len() ==> #[trigger] t[k].1.name == t[k].0 && record_ok(t[k].1)
}

/// Storing a record under its own name keeps a table in order.
proof fn lemma_map_put_ok(t: Seq<(Seq<char>, ResolvedModel)>, k: Seq<char>, v: ResolvedModel)
    requires
        table_ok(t),
        v.name == k,
        record_ok(v),
    ensures
        table_ok(map_put(t, k, v)),
        keys(map_put(t, k, v)).contains(k),
{
    if keys(t).contains(k) {
        crate::assoc::lemma_replace_value_keys(t, k, v);
        let n = map_put(t, k, v);
        let idx = keys(t).index_of(k);
        assert forall|m: int| 0 <= m < n.len() implies #[trigger] n[m].1.name == n[m].0 && record_ok(n[m].1) by {
            if m != idx {
                assert(n[m] == t[m]);
            }
        }
    } else {
        lemma_insert_sorted(t, k, v);
        crate::assoc::lemma_lower_bound_split(keys(t), k);
        let p = crate::assoc::lower_bound(keys(t), k) as int;
        let n = map_put(t, k, v);
        assert forall|m: int| 0 <= m < n.len() implies #[trigger] n[m].1.name == n[m].0 && record_ok(n[m].1) by {
            if m < p {
                assert(n[m] == t[m]);
            } else if m > p {
                assert(n[m] == t[m - 1]);
            }
        }
    }
}

/// A successful walk keeps the claim list sorted and the package table in
/// order.
proof fn lemma_walk_ok(g: Seq<LoadedModel>, i: int, is_root: bool, path: Seq<Seq<char>>, st: WalkState)
    requires
        sorted(keys(st.claimed)),
        table_ok(st.packages),
    ensures
        walk_spec(g, i, is_root, path, st) is Ok ==> sorted(keys(walk_spec(g, i, is_root, path, st)->Ok_0.claimed))
            && table_ok(walk_spec(g, i, is_root, path, st)->Ok_0.packages),
    decreases g.len() + 1 - path.len(), 0int, 0int,
{
    if path.len() > g.len() || i < 0 || i >= g.len() {
    } else {
        match g[i].manifest {
            Err(_) => {},
            Ok((name, version)) => {
                if !path.contains(name) && !keys(st.claimed).contains(name) {
                    lemma_insert_sorted(st.claimed, name, g[i].dir);
                    let st1 = WalkState {
                        claimed: insert_sorted(st.claimed, name, g[i].dir),
                        packages: st.packages,
                    };
                    lemma_deps_ok(g, i, path.push(name), 0, seq![], st1);
                    match deps_spec(g, i, path.push(name), 0, seq![], st1) {
                        Err(_) => {},
                        Ok((names, st2)) => match g[i].modules {
                            Err(_) => {},
                            Ok(mods) => {
                                lemma_sort_names_ordered(names);
                                lemma_map_put_ok(
                                    st2.packages,
                                    name,
                                    package_record(name, version, is_root, g[i].dir, mods, names),
                                );
                            },
                        },
                    }
                }
            },
        }
    }
}

/// A successful walk of dependencies keeps the claim list sorted and the
/// package table in order.
proof fn lemma_deps_ok(
    g: Seq<LoadedModel>,
    i: int,
    path: Seq<Seq<char>>,
    k: int,
    names: Seq<Seq<char>>,
    st: WalkState,
)
    requires
        sorted(keys(st.claimed)),
        table_ok(st.packages),
    ensures
        deps_spec(g, i, path, k, names, st) is Ok ==> sorted(keys(deps_spec(g, i, path, k, names, st)->Ok_0.1.claimed))
            && table_ok(deps_spec(g, i, path, k, names, st)->Ok_0.1.packages),
    decreases g.len() + 1 - path.len(), 1int, if 0 <= i < g.len() {
        g[i].deps.len() - k
    } else {
        0
    },
{
    if i < 0 || i >= g.len() || k < 0 || k >= g[i].deps.len() || g[i].deps[k] >= g.len() {
    } else {
        let j = g[i].deps[k] as int;
        match g[j].manifest {
            Err(_) => {},
            Ok((dn, _)) => {
                lemma_walk_ok(g, j, false, path, st);
                match walk_spec(g, j, false, path, st) {
                    Err(_) => {},
                    Ok(st2) => {
                        lemma_deps_ok(g, i, path, k + 1, names.push(dn), st2);
                    },
                }
            },
        }
    }
}

/// A resolved graph lists each package once, in strictly increasing name
/// order, and contains its root.
pub proof fn law_resolved_packages_in_name_order(g: Seq<LoadedModel>, root: int)
    requires
        set_wf(g, root),
        resolve_spec(g, root) is Ok,
    ensures
        forall|a: int, b: int|
            0 <= a < b < resolve_spec(g, root)->Ok_0.packages.len() ==> seq_lt(
                #[trigger] resolve_spec(g, root)->Ok_0.packages[a].name,
                #[trigger] resolve_spec(g, root)->Ok_0.packages[b].name,
            ),
        exists|k: int|
            0 <= k < resolve_spec(g, root)->Ok_0.packages.len()
                && #[trigger] resolve_spec(g, root)->Ok_0.packages[k].name == resolve_spec(g, root)->Ok_0.root,
{
    let st0 = WalkState { claimed: seq![], packages: seq![] };
    assert(keys(st0.claimed) =~= Seq::<Seq<char>>::empty());
    assert(keys(st0.packages) =~= Seq::<Seq<char>>::empty());
    lemma_walk_ok(g, root, true, seq![], st0);
    let st = walk_spec(g, root, true, seq![], st0)->Ok_0;
    let gm = resolve_spec(g, root)->Ok_0;
    assert forall|a: int, b: int| 0 <= a < b < gm.packages.len() implies seq_lt(
        #[trigger] gm.packages[a].name,
        #[trigger] gm.packages[b].name,
    ) by {
        assert(keys(st.packages)[a] == st.packages[a].0);
        assert(keys(st.packages)[b] == st.packages[b].0);
    }
    // The root itself is stored by the walk that starts from it.
    let name = g[root].manifest->Ok_0.0;
    let version = g[root].manifest->Ok_0.1;
    assert(!Seq::<Seq<char>>::empty().contains(name));
    let st1 = WalkState { claimed: insert_sorted(st0.claimed, name, g[root].dir), packages: st0.packages };
    lemma_insert_sorted(st0.claimed, name, g[root].dir);
    lemma_deps_ok(g, root, seq![name], 0, seq![], st1);
    assert(seq![].push(name) =~= seq![name]);
    let (names, st2) = deps_spec(g, root, seq![name], 0, seq![], st1)->Ok_0;
    let mods = g[root].modules->Ok_0;
    lemma_sort_names_ordered(names);
    lemma_map_put_ok(st2.packages, name, package_record(name, version, true, g[root].dir, mods, names));
    let kk = keys(st.packages).index_of(name);
    assert(gm.packages[kk].name == st.packages[kk].0);
}

/// A table with no record of the root source and none stored under `x`.
pub open spec fn free_of(t: Seq<(Seq<char>, ResolvedModel)>, x: Seq<char>) -> bool {
    &&& !keys(t).contains(x)
    &&& forall|k: int| 0 <= k < t.len() ==> !((#[trigger] t[k]).1.source is Root)
}

/// Storing a dependency record under a name other than `x` keeps the table
/// free of `x` and of root records.
proof fn lemma_map_put_free(t: Seq<(Seq<char>, ResolvedModel)>, n: Seq<char>, v: ResolvedModel, x: Seq<char>)
    requires
        sorted(keys(t)),
        free_of(t, x),
        n != x,
        !(v.source is Root),
    ensures
        free_of(map_put(t, n, v), x),
{
    let m = map_put(t, n, v);
    if keys(t).contains(n) {
        crate::assoc::lemma_replace_value_keys(t, n, v);
        let idx = keys(t).index_of(n);
        assert forall|k: int| 0 <= k < m.len() implies !((#[trigger] m[k]).1.source is Root) by {
            if k != idx {
                assert(m[k] == t[k]);
            }
        }
    } else {
        lemma_insert_sorted(t, n, v);
        crate::assoc::lemma_lower_bound_split(keys(t), n);
        let p = crate::assoc::lower_bound(keys(t), n) as int;
        assert forall|k: int| 0 <= k < m.len() implies !((#[trigger] m[k]).1.source is Root) by {
            if k < p {
                assert(m[k] == t[k]);
            } else if k > p {
                assert(m[k] == t[k - 1]);
            }
        }
        assert(!keys(m).to_set().contains(x));
        if keys(m).contains(x) {
            let j = keys(m).index_of(x);
            assert(keys(m).to_set().contains(keys(m)[j]));
        }
    }
}

/// A successful walk below a path that holds `x` stores no record under
/// `x` and no record of the root source.
proof fn lemma_walk_free(g: Seq<LoadedModel>, i: int, path: Seq<Seq<char>>, st: WalkState, x: Seq<char>)
    requires
        path.contains(x),
        sorted(keys(st.claimed)),
        table_ok(st.packages),
        free_of(st.packages, x),
    ensures
        walk_spec(g, i, false, path, st) is Ok ==> free_of(walk_spec(g, i, false, path, st)->Ok_0.packages, x),
    decreases g.len() + 1 - path.len(), 0int, 0int,
{
    if path.len() > g.len() || i < 0 || i >= g.len() {
    } else {
        match g[i].manifest {
            Err(_) => {},
            Ok((name, version)) => {
                if !path.contains(name) && !keys(st.claimed).contains(name) {
                    lemma_insert_sorted(st.claimed, name, g[i].dir);
                    let st1 = WalkState {
                        claimed: insert_sorted(st.claimed, name, g[i].dir),
                        packages: st.packages,
                    };
                    let p2 = path.push(name);
                    assert(p2.contains(x)) by {
                        let j = path.index_of(x);
                        assert(p2[j] == x);
                    }
                    lemma_deps_ok(g, i, p2, 0, seq![], st1);
                    lemma_deps_free(g, i, p2, 0, seq![], st1, x);
                    match deps_spec(g, i, p2, 0, seq![], st1) {
                        Err(_) => {},
                        Ok((names, st2)) => match g[i].modules {
                            Err(_) => {},
                            Ok(mods) => {
                                lemma_map_put_free(
                                    st2.packages,
                                    name,
                                    package_record(name, version, false, g[i].dir, mods, names),
                                    x,
                                );
                            },
                        },
                    }
                }
            },
        }
    }
}

/// A successful walk of dependencies below a path that holds `x` stores no
/// record under `x` and no record of the root source.
proof fn lemma_deps_free(
    g: Seq<LoadedModel>,
    i: int,
    path: Seq<Seq<char>>,
    k: int,
    names: Seq<Seq<char>>,
    st: WalkState,
    x: Seq<char>,
)
    requires
        path.contains(x),
        sorted(keys(st.claimed)),
        table_ok(st.packages),
        free_of(st.packages, x),
    ensures
        deps_spec(g, i, path, k, names, st) is Ok ==> free_of(deps_spec(g, i, path, k, names, st)->Ok_0.1.packages, x),
    decreases g.len() + 1 - path.len(), 1int, if 0 <= i < g.len() {
        g[i].deps.len() - k
    } else {
        0
    },
{
    if i < 0 || i >= g.len() || k < 0 || k >= g[i].deps.len() || g[i].deps[k] >= g.len() {
    } else {
        let j = g[i].deps[k] as int;
        match g[j].manifest {
            Err(_) => {},
            Ok((dn, _)) => {
                lemma_walk_ok(g, j, false, path, st);
                lemma_walk_free(g, j, path, st, x);
                match walk_spec(g, j, false, path, st) {
                    Err(_) => {},
                    Ok(st2) => {
                        lemma_deps_free(g, i, path, k + 1, names.push(dn), st2, x);
                    },
                }
            },
        }
    }
}

/// Every dependency name of every record is a key of the table.
pub open spec fn deps_closed(t: Seq<(Seq<char>, ResolvedModel)>) -> bool {
    forall|k: int, m: int|
        0 <= k < t.len() && 0 <= m < t[k].1.dependencies.len() ==> keys(t).contains(
            #[trigger] t[k].1.dependencies[m],
        )
}

/// Every claimed name is stored already or still on the active path.
pub open spec fn claims_settled(st: WalkState, path: Seq<Seq<char>>) -> bool {
    forall|c: Seq<char>|
        #[trigger] keys(st.claimed).contains(c) ==> keys(st.packages).contains(c) || path.contains(c)
}

/// Storing a record adds its key and keeps every other.
proof fn lemma_map_put_keys(t: Seq<(Seq<char>, ResolvedModel)>, n: Seq<char>, v: ResolvedModel)
    requires
        sorted(keys(t)),
    ensures
        forall|x: Seq<char>| #[trigger] keys(map_put(t, n, v)).contains(x) == (keys(t).contains(x) || x == n),
{
    if keys(t).contains(n) {
        crate::assoc::lemma_replace_value_keys(t, n, v);
    } else {
        lemma_insert_sorted(t, n, v);
        assert forall|x: Seq<char>| #[trigger] keys(map_put(t, n, v)).contains(x) == (keys(t).contains(x) || x == n) by {
            assert(keys(map_put(t, n, v)).to_set().contains(x) == keys(map_put(t, n, v)).contains(x));
            assert(keys(t).to_set().contains(x) == keys(t).contains(x));
        }
    }
}

/// Storing a record whose dependencies are all stored keeps the table
/// closed.
proof fn lemma_map_put_closed(t: Seq<(Seq<char>, ResolvedModel)>, n: Seq<char>, v: ResolvedModel)
    requires
        sorted(keys(t)),
        deps_closed(t),
        forall|m: int| 0 <= m < v.dependencies.len() ==> keys(t).contains(#[trigger] v.dependencies[m]),
    ensures
        deps_closed(map_put(t, n, v)),
{
    lemma_map_put_keys(t, n, v);
    let u = map_put(t, n, v);
    if keys(t).contains(n) {
        let idx = keys(t).index_of(n);
        assert forall|k: int, m: int| 0 <= k < u.len() && 0 <= m < u[k].1.dependencies.len() implies keys(u).contains(
            #[trigger] u[k].1.dependencies[m],
        ) by {
            if k != idx {
                assert(u[k] == t[k]);
                assert(keys(t).contains(t[k].1.dependencies[m]));
            } else {
                assert(keys(t).contains(v.dependencies[m]));
            }
        }
    } else {
        crate::assoc::lemma_lower_bound_split(keys(t), n);
        let p = crate::assoc::lower_bound(keys(t), n) as int;
        assert forall|k: int, m: int| 0 <= k < u.len() && 0 <= m < u[k].1.dependencies.len() implies keys(u).contains(
            #[trigger] u[k].1.dependencies[m],
        ) by {
            if k < p {
                assert(u[k] == t[k]);
                assert(keys(t).contains(t[k].1.dependencies[m]));
            } else if k > p {
                assert(u[k] == t[k - 1]);
                assert(keys(t).contains(t[k - 1].1.dependencies[m]));
            } else {
                assert(keys(t).contains(v.dependencies[m]));
            }
        }
    }
}

/// Sorting names keeps exactly the names it was given.
pub proof fn lemma_sort_names_contains(xs: Seq<Seq<char>>)
    ensures
        forall|m: int| 0 <= m < sort_names(xs).len() ==> xs.contains(#[trigger] sort_names(xs)[m]),
    decreases xs.len(),
{
    lemma_sort_names_ordered(xs);
    if xs.len() > 0 {
        let init = xs.drop_last();
        lemma_sort_names_contains(init);
        lemma_sort_names_ordered(init);
        let s = sort_names(init);
        lemma_name_upper_bound(s, xs.last());
        let p = name_upper_bound(s, xs.last()) as int;
        let r = sort_names(xs);
        assert(r == s.take(p) + seq![xs.last()] + s.skip(p));
        assert forall|m: int| 0 <= m < r.len() implies xs.contains(#[trigger] r[m]) by {
            if m < p {
                assert(r[m] == s[m]);
                let j = init.index_of(s[m]);
                assert(xs[j] == init[j]);
            } else if m > p {
                assert(r[m] == s[m - 1]);
                let j = init.index_of(s[m - 1]);
                assert(xs[j] == init[j]);
            } else {
                assert(xs[xs.len() - 1] == xs.last());
            }
        }
    }
}

/// A successful walk leaves the table closed and the claims settled, and
/// stores the walked package.
proof fn lemma_walk_closed(g: Seq<LoadedModel>, i: int, is_root: bool, path: Seq<Seq<char>>, st: WalkState)
    requires
        set_wf(g, 0),
        path_ok(g, path),
        0 <= i < g.len(),
        sorted(keys(st.claimed)),
        table_ok(st.packages),
        deps_closed(st.packages),
        claims_settled(st, path),
    ensures
        walk_spec(g, i, is_root, path, st) is Ok ==> {
            let r = walk_spec(g, i, is_root, path, st)->Ok_0;
            &&& deps_closed(r.packages)
            &&& claims_settled(r, path)
            &&& forall|x: Seq<char>| keys(st.packages).contains(x) ==> #[trigger] keys(r.packages).contains(x)
            &&& keys(r.packages).contains(g[i].manifest->Ok_0.0)
        },
    decreases g.len() + 1 - path.len(), 0int, 0int,
{
    lemma_path_len(g, path);
    match g[i].manifest {
        Err(_) => {},
        Ok((name, version)) => {
            if path.contains(name) {
            } else if keys(st.claimed).contains(name) {
            } else {
                lemma_insert_sorted(st.claimed, name, g[i].dir);
                let st1 = WalkState { claimed: insert_sorted(st.claimed, name, g[i].dir), packages: st.packages };
                let p2 = path.push(name);
                assert(path_ok(g, p2)) by {
                    assert forall|a: int, b: int| 0 <= a < b < p2.len() implies p2[a] != p2[b] by {
                        if b == path.len() {
                            assert(path.contains(p2[a]));
                        }
                    }
                    assert forall|x: Seq<char>| p2.contains(x) implies node_names(g).contains(x) by {
                        if x == name {
                            assert(node_names(g)[i] == name);
                        } else {
                            let t = p2.index_of(x);
                            assert(path.contains(x));
                        }
                    }
                }
                assert(claims_settled(st1, p2)) by {
                    assert forall|c: Seq<char>| #[trigger] keys(st1.claimed).contains(c) implies keys(st1.packages).contains(c)
                        || p2.contains(c) by {
                        assert(keys(st1.claimed).to_set().contains(c));
                        if c == name {
                            assert(p2[path.len() as int] == name);
                        } else {
                            assert(keys(st.claimed).to_set().contains(c));
                            if path.contains(c) {
                                let j = path.index_of(c);
                                assert(p2[j] == c);
                            }
                        }
                    }
                }
                lemma_deps_ok(g, i, p2, 0, seq![], st1);
                lemma_deps_closed(g, i, p2, 0, seq![], st1);
                match deps_spec(g, i, p2, 0, seq![], st1) {
                    Err(_) => {},
                    Ok((names, st2)) => match g[i].modules {
                        Err(_) => {},
                        Ok(mods) => {
                            let rec = package_record(name, version, is_root, g[i].dir, mods, names);
                            lemma_sort_names_contains(names);
                            assert forall|m: int| 0 <= m < rec.dependencies.len() implies keys(st2.packages).contains(
                                #[trigger] rec.dependencies[m],
                            ) by {
                                let j = names.index_of(sort_names(names)[m]);
                                assert(keys(st2.packages).contains(names[j]));
                            }
                            lemma_map_put_closed(st2.packages, name, rec);
                            lemma_map_put_keys(st2.packages, name, rec);
                            let r = WalkState { claimed: st2.claimed, packages: map_put(st2.packages, name, rec) };
                            assert forall|c: Seq<char>| #[trigger] keys(r.claimed).contains(c) implies keys(r.packages).contains(c)
                                || path.contains(c) by {
                                assert(keys(st2.claimed).contains(c));
                                if c != name && p2.contains(c) {
                                    let j = p2.index_of(c);
                                    assert(path[j] == c);
                                }
                            }
                        },
                    },
                }
            }
        },
    }
}

/// A successful walk of dependencies leaves the table closed and the claims
/// settled, and stores every dependency name it records.
proof fn lemma_deps_closed(
    g: Seq<LoadedModel>,
    i: int,
    path: Seq<Seq<char>>,
    k: int,
    names: Seq<Seq<char>>,
    st: WalkState,
)
    requires
        set_wf(g, 0),
        path_ok(g, path),
        sorted(keys(st.claimed)),
        table_ok(st.packages),
        deps_closed(st.packages),
        claims_settled(st, path),
        forall|m: int| 0 <= m < names.len() ==> keys(st.packages).contains(#[trigger] names[m]),
    ensures
        deps_spec(g, i, path, k, names, st) is Ok ==> {
            let r = deps_spec(g, i, path, k, names, st)->Ok_0;
            &&& deps_closed(r.1.packages)
            &&& claims_settled(r.1, path)
            &&& forall|x: Seq<char>| keys(st.packages).contains(x) ==> #[trigger] keys(r.1.packages).contains(x)
            &&& forall|m: int| 0 <= m < r.0.len() ==> keys(r.1.packages).contains(#[trigger] r.0[m])
        },
    decreases g.len() + 1 - path.len(), 1int, if 0 <= i < g.len() {
        g[i].deps.len() - k
    } else {
        0
    },
{
    if i < 0 || i >= g.len() || k < 0 || k >= g[i].deps.len() || g[i].deps[k] >= g.len() {
    } else {
        let j = g[i].deps[k] as int;
        match g[j].manifest {
            Err(_) => {},
            Ok((dn, _)) => {
                lemma_walk_ok(g, j, false, path, st);
                lemma_walk_closed(g, j, false, path, st);
                match walk_spec(g, j, false, path, st) {
                    Err(_) => {},
                    Ok(st2) => {
                        let n2 = names.push(dn);
                        assert forall|m: int| 0 <= m < n2.len() implies keys(st2.packages).contains(#[trigger] n2[m]) by {
                            if m < names.len() {
                                assert(keys(st.packages).contains(names[m]));
                            }
                        }
                        lemma_deps_closed(g, i, path, k + 1, n2, st2);
                    },
                }
            },
        }
    }
}

/// Every package of a resolved graph carries the checksum of its modules
/// and lists its dependencies in name order, each the name of a package of
/// the graph; exactly one package, the one named as the root, has the root
/// source.
pub proof fn law_resolved_records(g: Seq<LoadedModel>, root: int)
    requires
        set_wf(g, root),
        resolve_spec(g, root) is Ok,
    ensures
        forall|k: int|
            0 <= k < resolve_spec(g, root)->Ok_0.packages.len() ==> (#[trigger] resolve_spec(g, root)->Ok_0.packages[k]).checksum
                == checksum_spec(resolve_spec(g, root)->Ok_0.packages[k].modules) && names_ordered(
                resolve_spec(g, root)->Ok_0.packages[k].dependencies,
            ),
        forall|k: int|
            0 <= k < resolve_spec(g, root)->Ok_0.packages.len() ==> ((
            #[trigger] resolve_spec(g, root)->Ok_0.packages[k]).source is Root
                <==> resolve_spec(g, root)->Ok_0.packages[k].name == resolve_spec(g, root)->Ok_0.root),
        forall|k: int, m: int|
            0 <= k < resolve_spec(g, root)->Ok_0.packages.len() && 0 <= m < resolve_spec(
                g,
                root,
            )->Ok_0.packages[k].dependencies.len() ==> exists|q: int|
                0 <= q < resolve_spec(g, root)->Ok_0.packages.len() && resolve_spec(g, root)->Ok_0.packages[q].name
                    == #[trigger] resolve_spec(g, root)->Ok_0.packages[k].dependencies[m],
{
    let st0 = WalkState { claimed: seq![], packages: seq![] };
    assert(keys(st0.claimed) =~= Seq::<Seq<char>>::empty());
    assert(keys(st0.packages) =~= Seq::<Seq<char>>::empty());
    lemma_walk_ok(g, root, true, seq![], st0);
    let st = walk_spec(g, root, true, seq![], st0)->Ok_0;
    let gm = resolve_spec(g, root)->Ok_0;
    assert(set_wf(g, 0));
    assert(path_ok(g, seq![]));
    lemma_walk_closed(g, root, true, seq![], st0);
    assert forall|k: int, m: int| 0 <= k < gm.packages.len() && 0 <= m < gm.packages[k].dependencies.len() implies exists|q: int|
        0 <= q < gm.packages.len() && gm.packages[q].name == #[trigger] gm.packages[k].dependencies[m] by {
        assert(gm.packages[k] == st.packages[k].1);
        let d = st.packages[k].1.dependencies[m];
        assert(keys(st.packages).contains(d));
        let q = keys(st.packages).index_of(d);
        assert(st.packages[q].1.name == st.packages[q].0);
        assert(gm.packages[q] == st.packages[q].1);
    }
    assert forall|k: int| 0 <= k < gm.packages.len() implies (#[trigger] gm.packages[k]).checksum == checksum_spec(
        gm.packages[k].modules,
    ) && names_ordered(gm.packages[k].dependencies) by {
        assert(gm.packages[k] == st.packages[k].1);
        assert(st.packages[k].1.name == st.packages[k].0 && record_ok(st.packages[k].1));
    }
    let name = g[root].manifest->Ok_0.0;
    let version = g[root].manifest->Ok_0.1;
    assert(!Seq::<Seq<char>>::empty().contains(name));
    let st1 = WalkState { claimed: insert_sorted(st0.claimed, name, g[root].dir), packages: st0.packages };
    lemma_insert_sorted(st0.claimed, name, g[root].dir);
    assert(seq![].push(name) =~= seq![name]);
    assert(seq![name].contains(name)) by {
        assert(seq![name][0] == name);
    }
    lemma_deps_ok(g, root, seq![name], 0, seq![], st1);
    lemma_deps_free(g, root, seq![name], 0, seq![], st1, name);
    let (names, st2) = deps_spec(g, root, seq![name], 0, seq![], st1)->Ok_0;
    let mods = g[root].modules->Ok_0;
    let rec = package_record(name, version, true, g[root].dir, mods, names);
    let t = st2.packages;
    assert(st.packages == insert_sorted(t, name, rec));
    crate::assoc::lemma_lower_bound_split(keys(t), name);
    let p = crate::assoc::lower_bound(keys(t), name) as int;
    assert forall|k: int| 0 <= k < gm.packages.len() implies ((#[trigger] gm.packages[k]).source is Root
        <==> gm.packages[k].name == gm.root) by {
        assert(gm.packages[k] == st.packages[k].1);
        if k < p {
            assert(st.packages[k] == t[k]);
            assert(keys(t)[k] == t[k].0);
        } else if k > p {
            assert(st.packages[k] == t[k - 1]);
            assert(keys(t)[k - 1] == t[k - 1].0);
        }
    }
}

} // verus!
