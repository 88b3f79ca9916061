//! Versions and version requirements.
//!
//! A full semantic-version grammar is out of scope: a version is the numeric
//! triple plus a pre-release rank, and a requirement is one of the range
//! shapes the resolver needs (any, exact, caret-compatible).

use vstd::prelude::*;

verus! {

/// A package version. `pre == 0` means a release; `pre > 0` is a pre-release
/// rank, which sorts below the release with the same numeric triple.
#[derive(Clone, Copy, PartialEq, Eq, Structural, Debug)]
pub struct Version {
    pub major: u64,
    pub minor: u64,
    pub patch: u64,
    pub pre: u64,
}

/// Strict order on pre-release ranks: a release (`0`) sorts above every
/// pre-release; pre-releases sort by rank.
pub open spec fn pre_lt(a: u64, b: u64) -> bool {
    if a == b {
        false
    } else if a == 0 {
        false
    } else if b == 0 {
        true
    } else {
        a < b
    }
}

/// Strict version order: numeric fields compare numerically, and a
/// pre-release sorts below its corresponding release.
pub open spec fn version_lt(a: Version, b: Version) -> bool {
    if a.major != b.major {
        a.major < b.major
    } else if a.minor != b.minor {
        a.minor < b.minor
    } else if a.patch != b.patch {
        a.patch < b.patch
    } else {
        pre_lt(a.pre, b.pre)
    }
}

pub open spec fn version_le(a: Version, b: Version) -> bool {
    a == b || version_lt(a, b)
}

/// Decides `version_lt`.
pub fn version_less(a: &Version, b: &Version) -> (r: bool)
    ensures
        r == version_lt(*a, *b),
{
    if a.major != b.major {
        a.major < b.major
    } else if a.minor != b.minor {
        a.minor < b.minor
    } else if a.patch != b.patch {
        a.patch < b.patch
    } else if a.pre == b.pre {
        false
    } else if a.pre == 0 {
        false
    } else if b.pre == 0 {
        true
    } else {
        a.pre < b.pre
    }
}

/// A version requirement: the predicate a dependency places on candidate
/// versions.
#[derive(Clone, Copy, PartialEq, Eq, Structural, Debug)]
pub enum VersionReq {
    /// Matches every release.
    Any,
    /// Matches exactly one version.
    Exact(Version),
    /// Caret compatibility: at least the base version, same major line
    /// (same minor line as well when the major is zero).
    Caret(Version),
}

/// Whether a pre-release version is admitted by a requirement whose base is
/// `base`: only a release, or a pre-release of exactly the base triple when
/// the base itself is a pre-release.
pub open spec fn pre_admitted(base: Version, v: Version) -> bool {
    v.pre == 0 || (base.pre > 0 && v.major == base.major && v.minor == base.minor && v.patch
        == base.patch)
}

/// The meaning of a requirement, as a predicate over versions.
pub open spec fn req_matches(req: VersionReq, v: Version) -> bool {
    match req {
        VersionReq::Any => v.pre == 0,
        VersionReq::Exact(base) => v == base,
        VersionReq::Caret(base) => version_le(base, v) && v.major == base.major && (base.major > 0
            || v.minor == base.minor) && pre_admitted(base, v),
    }
}

/// Decides `req_matches`.
pub fn matches_req(req: &VersionReq, v: &Version) -> (r: bool)
    ensures
        r == req_matches(*req, *v),
{
    match req {
        VersionReq::Any => v.pre == 0,
        VersionReq::Exact(base) => {
            v.major == base.major && v.minor == base.minor && v.patch == base.patch && v.pre
                == base.pre
        },
        VersionReq::Caret(base) => {
            let le = *v == *base || version_less(base, v);
            let line = v.major == base.major && (base.major > 0 || v.minor == base.minor);
            let pre_ok = v.pre == 0 || (base.pre > 0 && v.major == base.major && v.minor
                == base.minor && v.patch == base.patch);
            le && line && pre_ok
        },
    }
}

} // verus!
