//! The data model: source identities, package identities, dependencies and
//! summaries, together with their spec-level views and the total order used
//! for deterministic output.

use vstd::prelude::*;

use crate::bytes::{bytes_eq, clone_bytes};
use crate::version::{Version, VersionReq};

verus! {

/// Where a package's data originates: a registry stored at a local path, or a
/// registry addressed by an alternate (virtual) name.
#[derive(Clone, Copy, PartialEq, Eq, Structural, Debug)]
pub enum SourceKind {
    LocalRegistry,
    AlternateRegistry,
}

/// Identifies where a package comes from: a kind plus a canonical location.
/// Two `SourceId`s are equal exactly when kind and location both match.
#[derive(Debug)]
pub struct SourceId {
    pub kind: SourceKind,
    pub location: Vec<u8>,
}

/// Spec-level model of a `SourceId`.
pub struct SourceIdV {
    pub kind: SourceKind,
    pub location: Seq<u8>,
}

impl View for SourceId {
    type V = SourceIdV;

    open spec fn view(&self) -> SourceIdV {
        SourceIdV { kind: self.kind, location: self.location@ }
    }
}

/// Identifies one concrete package: name, version, and the source it came
/// from.
#[derive(Debug)]
pub struct PackageId {
    pub name: Vec<u8>,
    pub version: Version,
    pub source: SourceId,
}

/// Spec-level model of a `PackageId`.
pub struct PackageIdV {
    pub name: Seq<u8>,
    pub version: Version,
    pub source: SourceIdV,
}

impl View for PackageId {
    type V = PackageIdV;

    open spec fn view(&self) -> PackageIdV {
        PackageIdV { name: self.name@, version: self.version, source: self.source@ }
    }
}

impl DeepView for PackageId {
    type V = PackageIdV;

    open spec fn deep_view(&self) -> PackageIdV {
        self@
    }
}

/// A dependency declared by a package or by the workspace root: the target
/// package name, the version requirement, the source it must resolve
/// against, whether it is optional, the features it requests of the target,
/// and an optional target-platform condition.
#[derive(Debug)]
pub struct Dependency {
    pub name: Vec<u8>,
    pub req: VersionReq,
    pub source: SourceId,
    pub optional: bool,
    pub features: Vec<Vec<u8>>,
    pub target: Option<Vec<u8>>,
}

/// Spec-level model of a `Dependency`.
pub struct DependencyV {
    pub name: Seq<u8>,
    pub req: VersionReq,
    pub source: SourceIdV,
    pub optional: bool,
    pub features: Seq<Seq<u8>>,
    pub target: Option<Seq<u8>>,
}

impl DeepView for Dependency {
    type V = DependencyV;

    open spec fn deep_view(&self) -> DependencyV {
        self@
    }
}

impl View for Dependency {
    type V = DependencyV;

    open spec fn view(&self) -> DependencyV {
        DependencyV {
            name: self.name@,
            req: self.req,
            source: self.source@,
            optional: self.optional,
            features: self.features.deep_view(),
            target: self.target.deep_view(),
        }
    }
}

/// One entry of a summary's feature map: a feature name, the other features
/// it activates, and the optional dependencies it enables.
pub struct FeatureEntry {
    pub name: Vec<u8>,
    pub activates: Vec<Vec<u8>>,
    pub enables_deps: Vec<Vec<u8>>,
}

/// Spec-level model of a `FeatureEntry`.
pub struct FeatureEntryV {
    pub name: Seq<u8>,
    pub activates: Seq<Seq<u8>>,
    pub enables_deps: Seq<Seq<u8>>,
}

impl View for FeatureEntry {
    type V = FeatureEntryV;

    open spec fn view(&self) -> FeatureEntryV {
        FeatureEntryV {
            name: self.name@,
            activates: self.activates.deep_view(),
            enables_deps: self.enables_deps.deep_view(),
        }
    }
}

impl DeepView for FeatureEntry {
    type V = FeatureEntryV;

    open spec fn deep_view(&self) -> FeatureEntryV {
        self@
    }
}

/// One version's metadata as reported by a source: its identity, its
/// dependencies in declaration order, its feature map, whether the version
/// has been yanked, and an optional content checksum.
pub struct Summary {
    pub pid: PackageId,
    pub deps: Vec<Dependency>,
    pub features: Vec<FeatureEntry>,
    pub yanked: bool,
    pub checksum: Option<Vec<u8>>,
}

/// Spec-level model of a `Summary`.
pub struct SummaryV {
    pub pid: PackageIdV,
    pub deps: Seq<DependencyV>,
    pub features: Seq<FeatureEntryV>,
    pub yanked: bool,
    pub checksum: Option<Seq<u8>>,
}

impl View for Summary {
    type V = SummaryV;

    open spec fn view(&self) -> SummaryV {
        SummaryV {
            pid: self.pid@,
            deps: Seq::new(self.deps@.len(), |i: int| self.deps@[i]@),
            features: Seq::new(self.features@.len(), |i: int| self.features@[i]@),
            yanked: self.yanked,
            checksum: self.checksum.deep_view(),
        }
    }
}

/// Rank used to order source kinds deterministically.
pub open spec fn kind_rank(k: SourceKind) -> int {
    match k {
        SourceKind::LocalRegistry => 0,
        SourceKind::AlternateRegistry => 1,
    }
}

/// Strict order on source identities: by kind, then by location.
pub open spec fn sid_lt(a: SourceIdV, b: SourceIdV) -> bool {
    if a.kind != b.kind {
        kind_rank(a.kind) < kind_rank(b.kind)
    } else {
        crate::bytes::bytes_lt(a.location, b.location)
    }
}

/// Strict order on package identities: by name, then version, then source —
/// the order lock entries are listed in.
pub open spec fn pid_lt(a: PackageIdV, b: PackageIdV) -> bool {
    if a.name != b.name {
        crate::bytes::bytes_lt(a.name, b.name)
    } else if a.version != b.version {
        crate::version::version_lt(a.version, b.version)
    } else {
        sid_lt(a.source, b.source)
    }
}

/// Decides `pid_lt` on package identities.
pub fn pid_less(a: &PackageId, b: &PackageId) -> (r: bool)
    ensures
        r == pid_lt(a@, b@),
{
    if !bytes_eq(&a.name, &b.name) {
        return crate::bytes::bytes_less(&a.name, &b.name);
    }
    if !(a.version == b.version) {
        return crate::version::version_less(&a.version, &b.version);
    }
    let kinds_equal = match (a.source.kind, b.source.kind) {
        (SourceKind::LocalRegistry, SourceKind::LocalRegistry) => true,
        (SourceKind::AlternateRegistry, SourceKind::AlternateRegistry) => true,
        _ => false,
    };
    if !kinds_equal {
        let r = match a.source.kind {
            SourceKind::LocalRegistry => true,
            SourceKind::AlternateRegistry => false,
        };
        return r;
    }
    crate::bytes::bytes_less(&a.source.location, &b.source.location)
}

/// Decides equality of source identities on their models.
pub fn sid_eq(a: &SourceId, b: &SourceId) -> (r: bool)
    ensures
        r == (a@ == b@),
{
    let kind_same = match (a.kind, b.kind) {
        (SourceKind::LocalRegistry, SourceKind::LocalRegistry) => true,
        (SourceKind::AlternateRegistry, SourceKind::AlternateRegistry) => true,
        _ => false,
    };
    if !kind_same {
        return false;
    }
    let r = bytes_eq(&a.location, &b.location);
    proof {
        if r {
            assert(a@ =~= b@);
        }
    }
    r
}

/// Decides equality of package identities on their models.
pub fn pid_eq(a: &PackageId, b: &PackageId) -> (r: bool)
    ensures
        r == (a@ == b@),
{
    let names = bytes_eq(&a.name, &b.name);
    if !names {
        return false;
    }
    if !(a.version == b.version) {
        return false;
    }
    let r = sid_eq(&a.source, &b.source);
    proof {
        if r {
            assert(a@ =~= b@);
        }
    }
    r
}

/// Copy of a source identity, equal in model.
pub fn clone_sid(a: &SourceId) -> (r: SourceId)
    ensures
        r@ == a@,
{
    let r = SourceId { kind: a.kind, location: clone_bytes(&a.location) };
    proof {
        assert(r@ =~= a@);
    }
    r
}

/// Copy of a package identity, equal in model.
pub fn clone_pid(a: &PackageId) -> (r: PackageId)
    ensures
        r@ == a@,
{
    let r = PackageId {
        name: clone_bytes(&a.name),
        version: a.version,
        source: clone_sid(&a.source),
    };
    proof {
        assert(r@ =~= a@);
    }
    r
}

/// Copy of a list of byte strings, equal in deep view.
pub fn clone_byte_list(a: &Vec<Vec<u8>>) -> (r: Vec<Vec<u8>>)
    ensures
        r.deep_view() == a.deep_view(),
{
    let mut r: Vec<Vec<u8>> = Vec::new();
    let n = a.len();
    let mut i: usize = 0;
    while i < n
        invariant
            n == a@.len(),
            0 <= i <= n,
            r@.len() == i,
            forall|k: int| 0 <= k < i ==> r.deep_view()[k] == a.deep_view()[k],
        decreases n - i,
    {
        r.push(clone_bytes(&a[i]));
        i = i + 1;
    }
    proof {
        assert(r.deep_view() =~= a.deep_view());
    }
    r
}

/// Copy of a dependency, equal in model.
pub fn clone_dep(a: &Dependency) -> (r: Dependency)
    ensures
        r@ == a@,
{
    let target: Option<Vec<u8>> = match &a.target {
        Option::Some(t) => Option::Some(clone_bytes(t)),
        Option::None => Option::None,
    };
    let r = Dependency {
        name: clone_bytes(&a.name),
        req: a.req,
        source: clone_sid(&a.source),
        optional: a.optional,
        features: clone_byte_list(&a.features),
        target,
    };
    proof {
        assert(r@ =~= a@);
    }
    r
}

/// Copy of a feature-map entry, equal in model.
pub fn clone_feature_entry(a: &FeatureEntry) -> (r: FeatureEntry)
    ensures
        r@ == a@,
{
    let r = FeatureEntry {
        name: clone_bytes(&a.name),
        activates: clone_byte_list(&a.activates),
        enables_deps: clone_byte_list(&a.enables_deps),
    };
    proof {
        assert(r@ =~= a@);
    }
    r
}

/// Copy of a summary, equal in model.
pub fn clone_summary(a: &Summary) -> (r: Summary)
    ensures
        r@ == a@,
{
    let mut deps: Vec<Dependency> = Vec::new();
    let nd = a.deps.len();
    let mut i: usize = 0;
    while i < nd
        invariant
            nd == a.deps@.len(),
            0 <= i <= nd,
            deps@.len() == i,
            forall|k: int| 0 <= k < i ==> deps@[k]@ == a.deps@[k]@,
        decreases nd - i,
    {
        deps.push(clone_dep(&a.deps[i]));
        i = i + 1;
    }
    let mut features: Vec<FeatureEntry> = Vec::new();
    let nf = a.features.len();
    let mut j: usize = 0;
    while j < nf
        invariant
            nf == a.features@.len(),
            0 <= j <= nf,
            features@.len() == j,
            forall|k: int| 0 <= k < j ==> features@[k]@ == a.features@[k]@,
        decreases nf - j,
    {
        features.push(clone_feature_entry(&a.features[j]));
        j = j + 1;
    }
    let checksum: Option<Vec<u8>> = match &a.checksum {
        Option::Some(c) => Option::Some(clone_bytes(c)),
        Option::None => Option::None,
    };
    let r = Summary { pid: clone_pid(&a.pid), deps, features, yanked: a.yanked, checksum };
    proof {
        assert(r@.deps =~= a@.deps);
        assert(r@.features =~= a@.features);
        assert(r@ =~= a@);
    }
    r
}

} // verus!
