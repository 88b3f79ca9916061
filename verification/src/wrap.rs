//! Source identity virtualization: presents one index-backed source under a
//! caller-chosen virtual identity distinct from the source's physical one.
//!
//! Every dependency crossing inward and every summary crossing outward has
//! its source identities rewritten by the bijection that exchanges the
//! wrapper's two identities; anything referencing a third source passes
//! through unmodified.

use vstd::prelude::*;

use crate::index::{query_spec, summary_models, LocalIndex};
use crate::model::{clone_sid, sid_eq, DependencyV, SourceId, SourceIdV, Summary, SummaryV};
use crate::model::{Dependency, PackageIdV};

verus! {

/// The bijection on source identities held by one wrapper: exchanges the
/// virtual and physical identity and fixes every other identity.
pub open spec fn swap_sid(virt: SourceIdV, phys: SourceIdV, s: SourceIdV) -> SourceIdV {
    if s == virt {
        phys
    } else if s == phys {
        virt
    } else {
        s
    }
}

/// The rewrite applied to a dependency crossing the boundary: only its
/// source identity changes, by the wrapper's bijection.
pub open spec fn swap_dep(virt: SourceIdV, phys: SourceIdV, d: DependencyV) -> DependencyV {
    DependencyV { source: swap_sid(virt, phys, d.source), ..d }
}

/// The rewrite applied to a summary crossing the boundary: its package
/// identity's source and each of its dependencies' sources change by the
/// wrapper's bijection; every other field is kept.
pub open spec fn swap_summary(virt: SourceIdV, phys: SourceIdV, s: SummaryV) -> SummaryV {
    SummaryV {
        pid: PackageIdV { source: swap_sid(virt, phys, s.pid.source), ..s.pid },
        deps: Seq::new(s.deps.len(), |i: int| swap_dep(virt, phys, s.deps[i])),
        ..s
    }
}

/// The wrapper's rewrite is an involution on source identities.
pub proof fn lemma_swap_sid_involution(virt: SourceIdV, phys: SourceIdV, s: SourceIdV)
    ensures
        swap_sid(virt, phys, swap_sid(virt, phys, s)) == s,
{
}

/// Virtualization bijection for dependencies: one crossing of the boundary
/// changes nothing but the source identity, and crossing inbound then
/// outbound is the identity.
pub proof fn lemma_virtualization_bijection_dep(virt: SourceIdV, phys: SourceIdV, d: DependencyV)
    ensures
        swap_dep(virt, phys, d).name == d.name,
        swap_dep(virt, phys, d).req == d.req,
        swap_dep(virt, phys, d).optional == d.optional,
        swap_dep(virt, phys, d).features == d.features,
        swap_dep(virt, phys, d).target == d.target,
        swap_dep(virt, phys, swap_dep(virt, phys, d)) == d,
{
}

/// Virtualization bijection for summaries: one crossing keeps every field
/// but the source identities, and crossing inbound then outbound is the
/// identity.
pub proof fn lemma_virtualization_bijection_summary(
    virt: SourceIdV,
    phys: SourceIdV,
    s: SummaryV,
)
    ensures
        swap_summary(virt, phys, s).pid.name == s.pid.name,
        swap_summary(virt, phys, s).pid.version == s.pid.version,
        swap_summary(virt, phys, s).features == s.features,
        swap_summary(virt, phys, s).yanked == s.yanked,
        swap_summary(virt, phys, s).checksum == s.checksum,
        swap_summary(virt, phys, s).deps.len() == s.deps.len(),
        forall|i: int| 0 <= i < s.deps.len() ==> #[trigger] swap_summary(
            virt,
            phys,
            s,
        ).deps[i] == swap_dep(virt, phys, s.deps[i]),
        swap_summary(virt, phys, swap_summary(virt, phys, s)) == s,
{
    let once = swap_summary(virt, phys, s);
    let twice = swap_summary(virt, phys, once);
    assert(twice.deps =~= s.deps);
    assert(twice.pid == s.pid);
    assert(twice == s);
}

/// A registry source masquerading under a virtual identity: queries cross
/// inward with the virtual identity rewritten to the physical one, and
/// summaries cross outward with the physical identity rewritten back.
pub struct WrappedRegistrySource {
    pub src: LocalIndex,
    pub outer_id: SourceId,
    pub inner_id: SourceId,
}

impl WrappedRegistrySource {
    /// The wrapper's own two identities are distinct values.
    pub open spec fn wf(self) -> bool {
        &&& self.src.wf()
        &&& self.inner_id@ == self.src.source@
        &&& self.outer_id@ != self.inner_id@
    }

    /// The summaries this source offers to the outside: the wrapped index's
    /// entries, rewritten to the virtual identity.
    pub open spec fn models(self) -> Seq<SummaryV> {
        Seq::new(
            self.src.models().len(),
            |i: int| swap_summary(self.outer_id@, self.inner_id@, self.src.models()[i]),
        )
    }

    /// Wraps `src` under the virtual identity `outer_id`.
    pub fn new(src: LocalIndex, outer_id: SourceId) -> (r: WrappedRegistrySource)
        requires
            src.wf(),
            outer_id@ != src.source@,
        ensures
            r.wf(),
            r.src == src,
            r.outer_id@ == outer_id@,
            r.inner_id@ == src.source@,
    {
        let inner_id = clone_sid(&src.source);
        WrappedRegistrySource { src, outer_id, inner_id }
    }

    /// The identity this source presents to callers: the virtual one.
    pub fn source_id(&self) -> (r: &SourceId)
        ensures
            r@ == self.outer_id@,
    {
        &self.outer_id
    }

    /// Passes through to the wrapped store.
    pub fn supports_checksums(&self) -> (r: bool)
        ensures
            r == self.src.checksums,
    {
        self.src.supports_checksums()
    }

    /// Passes through to the wrapped store.
    pub fn requires_precise(&self) -> (r: bool)
        ensures
            r == self.src.precise,
    {
        self.src.requires_precise()
    }

    /// A human-readable label identifying this source as a wrapper.
    pub fn describe(&self) -> (r: String)
        ensures
            r@ == "wrapper around local registry"@,
    {
        "wrapper around local registry".to_owned()
    }

    /// Applies the wrapper's bijection to one source identity.
    fn swap(&self, s: &SourceId) -> (r: SourceId)
        ensures
            r@ == swap_sid(self.outer_id@, self.inner_id@, s@),
    {
        if sid_eq(s, &self.outer_id) {
            clone_sid(&self.inner_id)
        } else if sid_eq(s, &self.inner_id) {
            clone_sid(&self.outer_id)
        } else {
            clone_sid(s)
        }
    }

    /// Rewrites a dependency crossing inward: its source identity is mapped
    /// by the bijection (virtual to physical) and every other field is kept.
    pub fn rewrite_dep(&self, d: &Dependency) -> (r: Dependency)
        ensures
            r@ == swap_dep(self.outer_id@, self.inner_id@, d@),
    {
        let c = crate::model::clone_dep(d);
        let source = self.swap(&c.source);
        let r = Dependency {
            name: c.name,
            req: c.req,
            source,
            optional: c.optional,
            features: c.features,
            target: c.target,
        };
        proof {
            assert(r@ =~= swap_dep(self.outer_id@, self.inner_id@, d@));
        }
        r
    }

    /// Rewrites a summary crossing outward: its package identity's source
    /// and its dependencies' sources are mapped by the bijection (physical
    /// to virtual) and every other field is kept.
    pub fn rewrite_summary(&self, s: &Summary) -> (r: Summary)
        ensures
            r@ == swap_summary(self.outer_id@, self.inner_id@, s@),
    {
        let c = crate::model::clone_summary(s);
        let pid_source = self.swap(&c.pid.source);
        let pid = crate::model::PackageId {
            name: c.pid.name,
            version: c.pid.version,
            source: pid_source,
        };
        let mut deps: Vec<Dependency> = Vec::new();
        let old_deps = c.deps;
        let n = old_deps.len();
        let mut i: usize = 0;
        while i < n
            invariant
                n == old_deps@.len(),
                0 <= i <= n,
                deps@.len() == i,
                forall|k: int| 0 <= k < n ==> old_deps@[k]@ == s@.deps[k],
                forall|k: int| 0 <= k < i ==> deps@[k]@ == swap_dep(
                    self.outer_id@,
                    self.inner_id@,
                    s@.deps[k],
                ),
            decreases n - i,
        {
            deps.push(self.rewrite_dep(&old_deps[i]));
            i = i + 1;
        }
        let r = Summary { pid, deps, features: c.features, yanked: c.yanked, checksum: c.checksum };
        proof {
            assert(r@.deps =~= swap_summary(self.outer_id@, self.inner_id@, s@).deps);
            assert(r@ =~= swap_summary(self.outer_id@, self.inner_id@, s@));
        }
        r
    }

    /// Queries the wrapped source for the candidates of `dep`: the incoming
    /// dependency crosses inward with its source identity rewritten from
    /// virtual to physical, and every summary the wrapped store yields
    /// crosses outward with the physical identity rewritten back to the
    /// virtual one. Callers never observe the physical identity.
    pub fn query(&self, dep: &Dependency) -> (r: Vec<Summary>)
        requires
            self.wf(),
        ensures
            summary_models(r@) == Seq::new(
                query_spec(self.src.models(), dep@.name).len(),
                |i: int| swap_summary(
                    self.outer_id@,
                    self.inner_id@,
                    query_spec(self.src.models(), dep@.name)[i],
                ),
            ),
    {
        let inner_dep = self.rewrite_dep(dep);
        let found = self.src.query(&inner_dep.name);
        let mut r: Vec<Summary> = Vec::new();
        let n = found.len();
        let mut i: usize = 0;
        while i < n
            invariant
                n == found@.len(),
                0 <= i <= n,
                r@.len() == i,
                summary_models(found@) == query_spec(self.src.models(), dep@.name),
                forall|k: int| 0 <= k < i ==> r@[k]@ == swap_summary(
                    self.outer_id@,
                    self.inner_id@,
                    found@[k]@,
                ),
            decreases n - i,
        {
            r.push(self.rewrite_summary(&found[i]));
            i = i + 1;
        }
        proof {
            let spec_r = Seq::new(
                query_spec(self.src.models(), dep@.name).len(),
                |i: int| swap_summary(
                    self.outer_id@,
                    self.inner_id@,
                    query_spec(self.src.models(), dep@.name)[i],
                ),
            );
            assert(summary_models(r@) =~= spec_r);
        }
        r
    }

    /// `fuzzy_query` follows the identical rewrite discipline as `query`,
    /// matching by name prefix instead of exact name.
    pub fn fuzzy_query(&self, dep: &Dependency) -> (r: Vec<Summary>)
        requires
            self.wf(),
        ensures
            summary_models(r@) == Seq::new(
                crate::index::fuzzy_query_spec(self.src.models(), dep@.name).len(),
                |i: int| swap_summary(
                    self.outer_id@,
                    self.inner_id@,
                    crate::index::fuzzy_query_spec(self.src.models(), dep@.name)[i],
                ),
            ),
    {
        let inner_dep = self.rewrite_dep(dep);
        let found = self.src.fuzzy_query(&inner_dep.name);
        let mut r: Vec<Summary> = Vec::new();
        let n = found.len();
        let mut i: usize = 0;
        while i < n
            invariant
                n == found@.len(),
                0 <= i <= n,
                r@.len() == i,
                summary_models(found@) == crate::index::fuzzy_query_spec(
                    self.src.models(),
                    dep@.name,
                ),
                forall|k: int| 0 <= k < i ==> r@[k]@ == swap_summary(
                    self.outer_id@,
                    self.inner_id@,
                    found@[k]@,
                ),
            decreases n - i,
        {
            r.push(self.rewrite_summary(&found[i]));
            i = i + 1;
        }
        proof {
            let spec_r = Seq::new(
                crate::index::fuzzy_query_spec(self.src.models(), dep@.name).len(),
                |i: int| swap_summary(
                    self.outer_id@,
                    self.inner_id@,
                    crate::index::fuzzy_query_spec(self.src.models(), dep@.name)[i],
                ),
            );
            assert(summary_models(r@) =~= spec_r);
        }
        r
    }
}

} // verus!
