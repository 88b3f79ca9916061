//! Configuration of the virtualized registries: which local registries
//! exist and under what alternate name each one is presented, plus the
//! derivation of the source-identity pairs the virtualizer uses.

use vstd::prelude::*;

use vstd::string::StringSliceAdditionalSpecFns;

use crate::model::{SourceId, SourceKind};

verus! {

/// One local registry: the alternate name it is virtualized under and the
/// local path its bits are actually served from.
pub struct LocalRegistry {
    pub name: String,
    pub path: String,
}

/// The caller-supplied configuration: the list of local registries.
pub struct GeneratorConfig {
    pub registry: Vec<LocalRegistry>,
}

/// One registry's pair of identities: the physical source the bits live at
/// and the virtual source the rest of the system sees.
pub struct SourcePair {
    pub physical: SourceId,
    pub virtual_id: SourceId,
}

/// The UTF-8 bytes of a string.
pub fn str_to_bytes(s: &str) -> (r: Vec<u8>)
    ensures
        r@ == s.spec_bytes(),
{
    vstd::slice::slice_to_vec(s.as_bytes())
}

/// Derives, for each configured registry, the physical identity (a
/// local-path registry at the configured path) and the virtual identity (an
/// alternate registry under the configured name).
pub fn plan_sources(cfg: &GeneratorConfig) -> (r: Vec<SourcePair>)
    ensures
        r@.len() == cfg.registry@.len(),
        forall|i: int| 0 <= i < r@.len() ==> {
            &&& (#[trigger] r@[i]).physical@.kind == SourceKind::LocalRegistry
            &&& r@[i].physical@.location == cfg.registry@[i].path.view_as_bytes()
            &&& r@[i].virtual_id@.kind == SourceKind::AlternateRegistry
            &&& r@[i].virtual_id@.location == cfg.registry@[i].name.view_as_bytes()
        },
{
    let mut r: Vec<SourcePair> = Vec::new();
    let n = cfg.registry.len();
    let mut i: usize = 0;
    while i < n
        invariant
            n == cfg.registry@.len(),
            0 <= i <= n,
            r@.len() == i,
            forall|k: int| 0 <= k < i ==> {
                &&& (#[trigger] r@[k]).physical@.kind == SourceKind::LocalRegistry
                &&& r@[k].physical@.location == cfg.registry@[k].path.view_as_bytes()
                &&& r@[k].virtual_id@.kind == SourceKind::AlternateRegistry
                &&& r@[k].virtual_id@.location == cfg.registry@[k].name.view_as_bytes()
            },
        decreases n - i,
    {
        let entry = &cfg.registry[i];
        let physical = SourceId {
            kind: SourceKind::LocalRegistry,
            location: str_to_bytes(entry.path.as_str()),
        };
        let virtual_id = SourceId {
            kind: SourceKind::AlternateRegistry,
            location: str_to_bytes(entry.name.as_str()),
        };
        r.push(SourcePair { physical, virtual_id });
        i = i + 1;
    }
    r
}

/// The UTF-8 bytes of a `String`, as a spec-level view.
pub trait StringViewAsBytes {
    spec fn view_as_bytes(&self) -> Seq<u8>;
}

impl StringViewAsBytes for String {
    open spec fn view_as_bytes(&self) -> Seq<u8> {
        vstd::utf8::encode_utf8(self@)
    }
}

} // verus!
