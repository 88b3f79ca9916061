//! Candidate query layer: an ordered set of sources (direct or virtualized,
//! a subset marked as overrides), answering "which candidates satisfy this
//! dependency" as a deterministic sequence — sorted by version descending,
//! ties resolved in favour of the source with higher declared precedence.

use vstd::prelude::*;

use crate::bytes::bytes_eq;
use crate::index::{summary_models, LocalIndex};
use crate::model::{
    clone_summary, pid_eq, Dependency, DependencyV, PackageId, PackageIdV, Summary, SummaryV,
};
use crate::version::{matches_req, req_matches, version_less, version_lt};
use crate::wrap::{swap_summary, WrappedRegistrySource};

verus! {

/// Whether a list of package identities contains `pid`.
pub open spec fn wl_has(wl: Seq<PackageIdV>, pid: PackageIdV) -> bool {
    exists|k: int| 0 <= k < wl.len() && wl[k] == pid
}

/// Decides `wl_has` on exec values.
pub fn pids_contain(wl: &Vec<PackageId>, pid: &PackageId) -> (r: bool)
    ensures
        r == wl_has(wl.deep_view(), pid@),
{
    let n = wl.len();
    let mut i: usize = 0;
    while i < n
        invariant
            n == wl@.len(),
            0 <= i <= n,
            forall|k: int| 0 <= k < i ==> wl.deep_view()[k] != pid@,
        decreases n - i,
    {
        if pid_eq(&wl[i], pid) {
            proof {
                assert(wl.deep_view()[i as int] == pid@);
            }
            return true;
        }
        i = i + 1;
    }
    false
}

/// A candidate admissible for `dep`: same package name, a version satisfying
/// the requirement, and not yanked — unless that exact package identity is on
/// the yanked whitelist.
pub open spec fn cand_ok(dep: DependencyV, wl: Seq<PackageIdV>, s: SummaryV) -> bool {
    &&& s.pid.name == dep.name
    &&& req_matches(dep.req, s.pid.version)
    &&& (!s.yanked || wl_has(wl, s.pid))
}

/// One source as the query layer sees it: the summaries it offers (already
/// under the identity it presents), that identity, and its override flag.
pub struct QuerySourceV {
    pub summaries: Seq<SummaryV>,
    pub sid: crate::model::SourceIdV,
    pub is_override: bool,
}

/// A source held by the query layer: a direct local index, or an index
/// virtualized under an alternate identity.
pub enum SourceEntry {
    Direct(LocalIndex),
    Virtualized(WrappedRegistrySource),
}

/// A source plus its override flag. Override sources take precedence over
/// the default registry regardless of a dependency's nominal source.
pub struct QuerySource {
    pub entry: SourceEntry,
    pub is_override: bool,
}

impl QuerySource {
    pub open spec fn wf(self) -> bool {
        match self.entry {
            SourceEntry::Direct(ix) => ix.wf(),
            SourceEntry::Virtualized(w) => w.wf(),
        }
    }

    /// The summaries this source presents to the layer.
    pub open spec fn summaries(self) -> Seq<SummaryV> {
        match self.entry {
            SourceEntry::Direct(ix) => ix.models(),
            SourceEntry::Virtualized(w) => w.models(),
        }
    }

    /// The identity this source presents to the layer.
    pub open spec fn sid(self) -> crate::model::SourceIdV {
        match self.entry {
            SourceEntry::Direct(ix) => ix.source@,
            SourceEntry::Virtualized(w) => w.outer_id@,
        }
    }

    pub open spec fn model(self) -> QuerySourceV {
        QuerySourceV { summaries: self.summaries(), sid: self.sid(), is_override: self.is_override }
    }
}

/// Whether a source contributes to a pass: override sources answer in the
/// override pass regardless of the dependency's nominal source; ordinary
/// sources answer in the second pass when their identity matches the one the
/// dependency requires.
pub open spec fn source_included(qs: QuerySourceV, dep: DependencyV, override_pass: bool) -> bool {
    if override_pass {
        qs.is_override
    } else {
        !qs.is_override && qs.sid == dep.source
    }
}

/// The admissible candidates contributed by one pass over the sources, in
/// declaration order.
pub open spec fn gather_pass(
    srcs: Seq<QuerySourceV>,
    dep: DependencyV,
    wl: Seq<PackageIdV>,
    override_pass: bool,
) -> Seq<SummaryV>
    decreases srcs.len(),
{
    if srcs.len() == 0 {
        Seq::empty()
    } else {
        gather_pass(srcs.drop_last(), dep, wl, override_pass) + (if source_included(
            srcs.last(),
            dep,
            override_pass,
        ) {
            srcs.last().summaries.filter(|s: SummaryV| cand_ok(dep, wl, s))
        } else {
            Seq::empty()
        })
    }
}

/// All admissible candidates: override sources first (higher precedence),
/// then the source the dependency names.
pub open spec fn gather_spec(
    srcs: Seq<QuerySourceV>,
    dep: DependencyV,
    wl: Seq<PackageIdV>,
) -> Seq<SummaryV> {
    gather_pass(srcs, dep, wl, true) + gather_pass(srcs, dep, wl, false)
}

/// Whether `s` contains a summary with package identity `pid`.
pub open spec fn has_pid(s: Seq<SummaryV>, pid: PackageIdV) -> bool {
    exists|k: int| 0 <= k < s.len() && s[k].pid == pid
}

/// Keeps the first summary for each package identity, in order.
pub open spec fn dedup_spec(s: Seq<SummaryV>) -> Seq<SummaryV>
    decreases s.len(),
{
    if s.len() == 0 {
        Seq::empty()
    } else {
        let prev = dedup_spec(s.drop_last());
        if has_pid(s.drop_last(), s.last().pid) {
            prev
        } else {
            prev.push(s.last())
        }
    }
}

/// The index of the first summary with the maximal version.
pub open spec fn first_max_index(s: Seq<SummaryV>) -> int
    decreases s.len(),
{
    if s.len() <= 1 {
        0
    } else {
        let r = first_max_index(s.drop_last());
        if version_lt(s[r].pid.version, s[s.len() - 1].pid.version) {
            s.len() - 1
        } else {
            r
        }
    }
}

/// Stable sort by version descending: repeatedly take the first summary with
/// the maximal version. Candidates with equal versions keep their gathering
/// order, so higher-precedence sources come first.
pub open spec fn sort_desc_spec(s: Seq<SummaryV>) -> Seq<SummaryV>
    decreases s.len(),
{
    if s.len() == 0 {
        Seq::empty()
    } else {
        let m0 = first_max_index(s);
        let m = if 0 <= m0 < s.len() {
            m0
        } else {
            0
        };
        seq![s[m]] + sort_desc_spec(s.remove(m))
    }
}

/// The first summary with the maximal version attains the maximum, and every
/// summary before it has a strictly smaller version — so on a version tie the
/// candidate gathered first (from the source with higher declared precedence)
/// is the one a resolver that takes the first candidate commits.
pub proof fn lemma_first_candidate_precedence(s: Seq<SummaryV>)
    requires
        s.len() > 0,
    ensures
        0 <= first_max_index(s) < s.len(),
        forall|k: int| 0 <= k < s.len() ==> !version_lt(
            s[first_max_index(s)].pid.version,
            (#[trigger] s[k]).pid.version,
        ),
        forall|k: int| 0 <= k < first_max_index(s) ==> version_lt(
            (#[trigger] s[k]).pid.version,
            s[first_max_index(s)].pid.version,
        ),
    decreases s.len(),
{
    if s.len() > 1 {
        lemma_first_candidate_precedence(s.drop_last());
        assert forall|k: int| 0 <= k < s.len() - 1 implies s.drop_last()[k] == s[k] by {}
    }
}

/// Every element of the sorted candidates is an element of the input.
proof fn lemma_sort_desc_elements(s: Seq<SummaryV>, x: SummaryV)
    requires
        sort_desc_spec(s).contains(x),
    ensures
        s.contains(x),
    decreases s.len(),
{
    let m0 = first_max_index(s);
    let m = if 0 <= m0 < s.len() {
        m0
    } else {
        0
    };
    let sorted = sort_desc_spec(s);
    let t = choose|t: int| 0 <= t < sorted.len() && sorted[t] == x;
    if t == 0 {
        assert(s[m] == x);
    } else {
        assert(sort_desc_spec(s.remove(m))[t - 1] == x);
        lemma_sort_desc_elements(s.remove(m), x);
        let k = choose|k: int| 0 <= k < s.remove(m).len() && s.remove(m)[k] == x;
        if k < m {
            assert(s[k] == x);
        } else {
            assert(s[k + 1] == x);
        }
    }
}

/// Every element of the deduplicated candidates is an element of the input.
proof fn lemma_dedup_elements(s: Seq<SummaryV>, x: SummaryV)
    requires
        dedup_spec(s).contains(x),
    ensures
        s.contains(x),
    decreases s.len(),
{
    let prev = dedup_spec(s.drop_last());
    if has_pid(s.drop_last(), s.last().pid) {
        lemma_dedup_elements(s.drop_last(), x);
        let k = choose|k: int| 0 <= k < s.drop_last().len() && s.drop_last()[k] == x;
        assert(s[k] == x);
    } else {
        let t = choose|t: int|
            0 <= t < dedup_spec(s).len() && dedup_spec(s)[t] == x;
        if t < prev.len() {
            lemma_dedup_elements(s.drop_last(), x);
            let k = choose|k: int| 0 <= k < s.drop_last().len() && s.drop_last()[k] == x;
            assert(s[k] == x);
        } else {
            assert(s[s.len() - 1] == x);
        }
    }
}

/// Every candidate a gather pass emits is admissible for the dependency.
proof fn lemma_gather_pass_elements(
    srcs: Seq<QuerySourceV>,
    dep: DependencyV,
    wl: Seq<PackageIdV>,
    override_pass: bool,
    x: SummaryV,
)
    requires
        gather_pass(srcs, dep, wl, override_pass).contains(x),
    ensures
        cand_ok(dep, wl, x),
    decreases srcs.len(),
{
    let whole = gather_pass(srcs, dep, wl, override_pass);
    let left = gather_pass(srcs.drop_last(), dep, wl, override_pass);
    let t = choose|t: int| 0 <= t < whole.len() && whole[t] == x;
    if t < left.len() {
        assert(left[t] == x);
        lemma_gather_pass_elements(srcs.drop_last(), dep, wl, override_pass, x);
    } else {
        let pred = |s: SummaryV| cand_ok(dep, wl, s);
        let filtered = srcs.last().summaries.filter(pred);
        assert(filtered[t - left.len()] == x);
        srcs.last().summaries.filter_lemma(pred);
        assert(pred(x));
    }
}

/// Every candidate the query layer emits for a dependency is admissible:
/// the package name matches, the version satisfies the requirement, and a
/// yanked version appears only when its exact identity is whitelisted.
pub proof fn lemma_candidates_admissible(reg: PackageRegistry, dep: DependencyV, x: SummaryV)
    requires
        reg.candidates_spec(dep).contains(x),
    ensures
        cand_ok(dep, reg.wl_model(), x),
{
    let gathered = gather_spec(reg.sources_model(), dep, reg.wl_model());
    lemma_sort_desc_elements(dedup_spec(gathered), x);
    lemma_dedup_elements(gathered, x);
    let left = gather_pass(reg.sources_model(), dep, reg.wl_model(), true);
    let t = choose|t: int| 0 <= t < gathered.len() && gathered[t] == x;
    if t < left.len() {
        assert(left[t] == x);
        lemma_gather_pass_elements(reg.sources_model(), dep, reg.wl_model(), true, x);
    } else {
        assert(gather_pass(reg.sources_model(), dep, reg.wl_model(), false)[t - left.len()] == x);
        lemma_gather_pass_elements(reg.sources_model(), dep, reg.wl_model(), false, x);
    }
}

/// The query layer: ordered sources plus the yanked whitelist — package
/// identities that may still be used although their version was yanked
/// (typically because a previous lock pinned them).
pub struct PackageRegistry {
    pub sources: Vec<QuerySource>,
    pub yanked_whitelist: Vec<PackageId>,
}

impl PackageRegistry {
    pub open spec fn wf(self) -> bool {
        forall|i: int| 0 <= i < self.sources@.len() ==> (#[trigger] self.sources@[i]).wf()
    }

    pub open spec fn sources_model(self) -> Seq<QuerySourceV> {
        Seq::new(self.sources@.len(), |i: int| self.sources@[i].model())
    }

    pub open spec fn wl_model(self) -> Seq<PackageIdV> {
        self.yanked_whitelist.deep_view()
    }

    /// The deterministic candidate sequence for one dependency: admissible
    /// candidates from override sources first, then from the dependency's own
    /// source; first summary per package identity kept; sorted by version
    /// descending with ties kept in precedence order.
    pub open spec fn candidates_spec(self, dep: DependencyV) -> Seq<SummaryV> {
        sort_desc_spec(dedup_spec(gather_spec(self.sources_model(), dep, self.wl_model())))
    }

    /// An empty layer.
    pub fn new() -> (r: PackageRegistry)
        ensures
            r.wf(),
            r.sources_model() == Seq::<QuerySourceV>::empty(),
            r.wl_model() == Seq::<PackageIdV>::empty(),
    {
        let r = PackageRegistry { sources: Vec::new(), yanked_whitelist: Vec::new() };
        proof {
            assert(r.sources_model() =~= Seq::<QuerySourceV>::empty());
            assert(r.wl_model() =~= Seq::<PackageIdV>::empty());
        }
        r
    }

    /// Appends a source; later sources have lower precedence.
    pub fn add_source(&mut self, entry: QuerySource)
        requires
            old(self).wf(),
            entry.wf(),
        ensures
            final(self).wf(),
            final(self).sources_model() == old(self).sources_model().push(entry.model()),
            final(self).wl_model() == old(self).wl_model(),
    {
        self.sources.push(entry);
        proof {
            assert(self.sources_model() =~= old(self).sources_model().push(entry.model()));
        }
    }

    /// Adds package identities that stay usable although yanked.
    pub fn add_to_yanked_whitelist(&mut self, pkgs: &Vec<PackageId>)
        requires
            old(self).wf(),
        ensures
            final(self).wf(),
            final(self).sources_model() == old(self).sources_model(),
            final(self).wl_model() == old(self).wl_model() + pkgs.deep_view(),
    {
        let n = pkgs.len();
        let mut i: usize = 0;
        proof {
            assert(self.yanked_whitelist.deep_view() =~= old(self).wl_model()
                + pkgs.deep_view().take(0));
        }
        while i < n
            invariant
                n == pkgs@.len(),
                0 <= i <= n,
                self.sources == old(self).sources,
                self.yanked_whitelist.deep_view() == old(self).wl_model() + pkgs.deep_view().take(
                    i as int,
                ),
            decreases n - i,
        {
            let p = crate::model::clone_pid(&pkgs[i]);
            proof {
                assert(p@ == pkgs.deep_view()[i as int]);
            }
            let ghost before = self.yanked_whitelist.deep_view();
            let ghost before_sh = self.yanked_whitelist@;
            let ghost pv = p@;
            self.yanked_whitelist.push(p);
            proof {
                assert(self.yanked_whitelist@ =~= before_sh.push(
                    self.yanked_whitelist@[before_sh.len() as int],
                ));
                assert(self.yanked_whitelist@[before_sh.len() as int]@ == pv);
                assert(self.yanked_whitelist.deep_view() =~= before.push(pv));
                assert(before.push(pv) =~= old(self).wl_model() + pkgs.deep_view().take(
                    i as int + 1,
                ));
            }
            i = i + 1;
        }
        proof {
            assert(pkgs.deep_view().take(n as int) =~= pkgs.deep_view());
            assert(self.sources_model() =~= old(self).sources_model());
        }
    }

    /// All candidates satisfying `dep`, deduplicated and in the layer's
    /// deterministic order: for a fixed set of sources and a fixed
    /// dependency, the emitted sequence is a pure function of the two.
    pub fn query(&self, dep: &Dependency) -> (r: Vec<Summary>)
        requires
            self.wf(),
        ensures
            summary_models(r@) == self.candidates_spec(dep@),
    {
        let mut gathered: Vec<Summary> = Vec::new();
        self.gather_one_pass(dep, true, &mut gathered);
        self.gather_one_pass(dep, false, &mut gathered);
        proof {
            assert(summary_models(gathered@) =~= gather_spec(
                self.sources_model(),
                dep@,
                self.wl_model(),
            ));
        }
        let deduped = dedup_candidates(&gathered);
        sort_candidates(deduped)
    }

    /// Appends to `acc` the admissible candidates of one pass, in source
    /// declaration order.
    fn gather_one_pass(&self, dep: &Dependency, override_pass: bool, acc: &mut Vec<Summary>)
        requires
            self.wf(),
        ensures
            summary_models(final(acc)@) == summary_models(old(acc)@) + gather_pass(
                self.sources_model(),
                dep@,
                self.wl_model(),
                override_pass,
            ),
    {
        let ghost base = summary_models(old(acc)@);
        let n = self.sources.len();
        let mut i: usize = 0;
        proof {
            assert(gather_pass(
                self.sources_model().subrange(0, 0),
                dep@,
                self.wl_model(),
                override_pass,
            ) =~= Seq::<SummaryV>::empty());
            assert(summary_models(acc@) =~= base + gather_pass(
                self.sources_model().subrange(0, 0),
                dep@,
                self.wl_model(),
                override_pass,
            ));
        }
        while i < n
            invariant
                self.wf(),
                n == self.sources@.len(),
                0 <= i <= n,
                summary_models(acc@) == base + gather_pass(
                    self.sources_model().subrange(0, i as int),
                    dep@,
                    self.wl_model(),
                    override_pass,
                ),
            decreases n - i,
        {
            let src = &self.sources[i];
            let included: bool = if override_pass {
                src.is_override
            } else {
                let matches = match &src.entry {
                    SourceEntry::Direct(ix) => crate::model::sid_eq(&ix.source, &dep.source),
                    SourceEntry::Virtualized(w) => crate::model::sid_eq(&w.outer_id, &dep.source),
                };
                !src.is_override && matches
            };
            proof {
                assert(self.sources_model()[i as int] == self.sources@[i as int].model());
                assert(included == source_included(
                    self.sources_model()[i as int],
                    dep@,
                    override_pass,
                ));
            }
            if included {
                match &src.entry {
                    SourceEntry::Direct(ix) => {
                        append_filtered_direct(ix, dep, &self.yanked_whitelist, acc);
                    },
                    SourceEntry::Virtualized(w) => {
                        append_filtered_wrapped(w, dep, &self.yanked_whitelist, acc);
                    },
                }
            }
            proof {
                let srcs = self.sources_model();
                assert(srcs.subrange(0, i as int + 1).drop_last() =~= srcs.subrange(0, i as int));
                assert(srcs.subrange(0, i as int + 1).last() == srcs[i as int]);
                assert(summary_models(acc@) =~= base + gather_pass(
                    srcs.subrange(0, i as int + 1),
                    dep@,
                    self.wl_model(),
                    override_pass,
                ));
            }
            i = i + 1;
        }
        proof {
            assert(self.sources_model().subrange(0, n as int) =~= self.sources_model());
        }
    }
}

/// Appends the admissible candidates of one direct source.
fn append_filtered_direct(
    ix: &LocalIndex,
    dep: &Dependency,
    wl: &Vec<PackageId>,
    acc: &mut Vec<Summary>,
)
    ensures
        summary_models(final(acc)@) == summary_models(old(acc)@) + ix.models().filter(
            |s: SummaryV| cand_ok(dep@, wl.deep_view(), s),
        ),
{
    let ghost base = summary_models(old(acc)@);
    let ghost pred = |s: SummaryV| cand_ok(dep@, wl.deep_view(), s);
    let n = ix.entries.len();
    let mut j: usize = 0;
    proof {
        assert(ix.models().subrange(0, 0).filter(pred) =~= Seq::<SummaryV>::empty());
        assert(summary_models(acc@) =~= base);
    }
    while j < n
        invariant
            n == ix.entries@.len(),
            0 <= j <= n,
            pred == (|s: SummaryV| cand_ok(dep@, wl.deep_view(), s)),
            summary_models(acc@) == base + ix.models().subrange(0, j as int).filter(pred),
        decreases n - j,
    {
        let ghost e = ix.models()[j as int];
        let ghost acc_before = summary_models(acc@);
        let entry = &ix.entries[j];
        let name_ok = bytes_eq(&entry.pid.name, &dep.name);
        let req_ok = matches_req(&dep.req, &entry.pid.version);
        let yank_ok = if entry.yanked {
            pids_contain(wl, &entry.pid)
        } else {
            true
        };
        if name_ok && req_ok && yank_ok {
            acc.push(clone_summary(entry));
        }
        proof {
            let prev = ix.models().subrange(0, j as int);
            let cur = ix.models().subrange(0, j as int + 1);
            reveal_with_fuel(Seq::filter, 2);
            assert(cur.drop_last() =~= prev);
            assert(cur.last() == e);
            assert((name_ok && req_ok && yank_ok) == pred(e));
            assert(cur.filter(pred) == if pred(e) {
                prev.filter(pred).push(e)
            } else {
                prev.filter(pred)
            });
            if name_ok && req_ok && yank_ok {
                assert(summary_models(acc@) =~= acc_before.push(e));
                assert(acc_before.push(e) =~= base + prev.filter(pred).push(e));
            }
            assert(summary_models(acc@) =~= base + cur.filter(pred));
        }
        j = j + 1;
    }
    proof {
        assert(ix.models().subrange(0, n as int) =~= ix.models());
    }
}

/// Appends the admissible candidates of one virtualized source; every
/// summary crosses the wrapper's boundary outward before it is examined, so
/// the caller never observes the physical identity.
fn append_filtered_wrapped(
    w: &WrappedRegistrySource,
    dep: &Dependency,
    wl: &Vec<PackageId>,
    acc: &mut Vec<Summary>,
)
    requires
        w.wf(),
    ensures
        summary_models(final(acc)@) == summary_models(old(acc)@) + w.models().filter(
            |s: SummaryV| cand_ok(dep@, wl.deep_view(), s),
        ),
{
    let ghost base = summary_models(old(acc)@);
    let ghost pred = |s: SummaryV| cand_ok(dep@, wl.deep_view(), s);
    let n = w.src.entries.len();
    let mut j: usize = 0;
    proof {
        assert(w.models().len() == n);
        assert(w.models().subrange(0, 0).filter(pred) =~= Seq::<SummaryV>::empty());
        assert(summary_models(acc@) =~= base);
    }
    while j < n
        invariant
            w.wf(),
            n == w.src.entries@.len(),
            n == w.models().len(),
            0 <= j <= n,
            pred == (|s: SummaryV| cand_ok(dep@, wl.deep_view(), s)),
            summary_models(acc@) == base + w.models().subrange(0, j as int).filter(pred),
        decreases n - j,
    {
        let ghost e = w.models()[j as int];
        let ghost acc_before = summary_models(acc@);
        let out = w.rewrite_summary(&w.src.entries[j]);
        proof {
            assert(w.src.models()[j as int] == w.src.entries@[j as int]@);
            assert(out@ == swap_summary(w.outer_id@, w.inner_id@, w.src.models()[j as int]));
            assert(out@ == e);
        }
        let name_ok = bytes_eq(&out.pid.name, &dep.name);
        let req_ok = matches_req(&dep.req, &out.pid.version);
        let yank_ok = if out.yanked {
            pids_contain(wl, &out.pid)
        } else {
            true
        };
        if name_ok && req_ok && yank_ok {
            acc.push(out);
        }
        proof {
            let prev = w.models().subrange(0, j as int);
            let cur = w.models().subrange(0, j as int + 1);
            reveal_with_fuel(Seq::filter, 2);
            assert(cur.drop_last() =~= prev);
            assert(cur.last() == e);
            assert((name_ok && req_ok && yank_ok) == pred(e));
            assert(cur.filter(pred) == if pred(e) {
                prev.filter(pred).push(e)
            } else {
                prev.filter(pred)
            });
            if name_ok && req_ok && yank_ok {
                assert(summary_models(acc@) =~= acc_before.push(e));
                assert(acc_before.push(e) =~= base + prev.filter(pred).push(e));
            }
            assert(summary_models(acc@) =~= base + cur.filter(pred));
        }
        j = j + 1;
    }
    proof {
        assert(w.models().subrange(0, n as int) =~= w.models());
    }
}

/// Keeps the first summary seen for each package identity.
fn dedup_candidates(g: &Vec<Summary>) -> (r: Vec<Summary>)
    ensures
        summary_models(r@) == dedup_spec(summary_models(g@)),
{
    let mut r: Vec<Summary> = Vec::new();
    let n = g.len();
    let mut i: usize = 0;
    proof {
        assert(dedup_spec(summary_models(g@).subrange(0, 0)) =~= Seq::<SummaryV>::empty());
        assert(summary_models(r@) =~= Seq::<SummaryV>::empty());
    }
    while i < n
        invariant
            n == g@.len(),
            0 <= i <= n,
            summary_models(r@) == dedup_spec(summary_models(g@).subrange(0, i as int)),
        decreases n - i,
    {
        let mut dup = false;
        let mut k: usize = 0;
        while k < i
            invariant
                0 <= k <= i < n,
                n == g@.len(),
                dup == (exists|t: int|
                    0 <= t < k && summary_models(g@).subrange(0, i as int)[t].pid
                        == g@[i as int]@.pid),
            decreases i - k,
        {
            if pid_eq(&g[k].pid, &g[i].pid) {
                proof {
                    assert(summary_models(g@).subrange(0, i as int)[k as int].pid
                        == g@[i as int]@.pid);
                }
                dup = true;
            }
            k = k + 1;
        }
        proof {
            let prefix = summary_models(g@).subrange(0, i as int);
            let cur = summary_models(g@).subrange(0, i as int + 1);
            assert(cur.drop_last() =~= prefix);
            assert(cur.last() == g@[i as int]@);
            assert(dup == has_pid(prefix, g@[i as int]@.pid));
        }
        if !dup {
            r.push(clone_summary(&g[i]));
            proof {
                let prefix = summary_models(g@).subrange(0, i as int);
                assert(summary_models(r@) =~= dedup_spec(prefix).push(g@[i as int]@));
            }
        }
        i = i + 1;
    }
    proof {
        assert(summary_models(g@).subrange(0, n as int) =~= summary_models(g@));
    }
    r
}

/// The index of the first summary with the maximal version, on exec values.
fn first_max(v: &Vec<Summary>) -> (m: usize)
    requires
        v@.len() > 0,
    ensures
        m as int == first_max_index(summary_models(v@)),
        m < v@.len(),
{
    let n = v.len();
    let mut best: usize = 0;
    let mut i: usize = 1;
    proof {
        assert(summary_models(v@).subrange(0, 1).len() == 1);
        assert(first_max_index(summary_models(v@).subrange(0, 1)) == 0);
    }
    while i < n
        invariant
            n == v@.len(),
            1 <= i <= n,
            best < i,
            best as int == first_max_index(summary_models(v@).subrange(0, i as int)),
        decreases n - i,
    {
        proof {
            let prefix = summary_models(v@).subrange(0, i as int);
            let cur = summary_models(v@).subrange(0, i as int + 1);
            assert(cur.drop_last() =~= prefix);
            assert(cur.len() > 1);
            assert(forall|t: int| 0 <= t < i + 1 ==> cur[t] == summary_models(v@)[t]);
        }
        if version_less(&v[best].pid.version, &v[i].pid.version) {
            best = i;
        }
        i = i + 1;
    }
    proof {
        assert(summary_models(v@).subrange(0, n as int) =~= summary_models(v@));
    }
    best
}

/// Sorts candidates by version descending; candidates with equal versions
/// keep their order, so higher-precedence sources stay first.
fn sort_candidates(v: Vec<Summary>) -> (r: Vec<Summary>)
    ensures
        summary_models(r@) == sort_desc_spec(summary_models(v@)),
{
    let ghost orig = summary_models(v@);
    let mut rest = v;
    let mut out: Vec<Summary> = Vec::new();
    proof {
        assert(summary_models(out@) =~= Seq::<SummaryV>::empty());
        assert(summary_models(out@) + sort_desc_spec(summary_models(rest@)) =~= sort_desc_spec(
            orig,
        ));
    }
    while rest.len() > 0
        invariant
            summary_models(out@) + sort_desc_spec(summary_models(rest@)) == sort_desc_spec(orig),
        decreases rest@.len(),
    {
        let m = first_max(&rest);
        let ghost before = summary_models(rest@);
        let e = rest.remove(m);
        out.push(e);
        proof {
            assert(summary_models(rest@) =~= before.remove(m as int));
            assert(sort_desc_spec(before) == seq![before[m as int]] + sort_desc_spec(
                before.remove(m as int),
            ));
            assert(summary_models(out@) =~= summary_models(out@.drop_last()).push(e@));
            assert(summary_models(out@) + sort_desc_spec(summary_models(rest@)) =~= sort_desc_spec(
                orig,
            ));
        }
    }
    proof {
        assert(sort_desc_spec(summary_models(rest@)) =~= Seq::<SummaryV>::empty());
        assert(summary_models(out@) =~= sort_desc_spec(orig));
    }
    out
}

} // verus!
