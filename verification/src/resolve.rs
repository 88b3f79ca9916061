//! The resolver: a backtracking constraint solver that selects exactly one
//! package and version per resolution slot, seeded with a previous lock for
//! minimal churn.

use vstd::prelude::*;

use crate::bytes::bytes_eq;
use crate::bytes::clone_bytes;
use crate::model::{
    clone_dep, clone_pid, clone_summary, pid_eq, sid_eq, Dependency, DependencyV, FeatureEntry,
    PackageId, PackageIdV, Summary, SummaryV,
};
use crate::query::PackageRegistry;
use crate::version::{matches_req, req_matches};

verus! {

/// One resolved edge: the dependency that demanded it and the package
/// identity chosen to satisfy it.
pub struct Edge {
    pub dep: Dependency,
    pub target: PackageId,
}

/// Spec-level model of an `Edge`.
pub struct EdgeV {
    pub dep: DependencyV,
    pub target: PackageIdV,
}

impl View for Edge {
    type V = EdgeV;

    open spec fn view(&self) -> EdgeV {
        EdgeV { dep: self.dep@, target: self.target@ }
    }
}

/// One node of the resolve graph: a chosen package and the edges to the
/// packages its own dependencies resolved to. It also keeps the summary it
/// was chosen from, the features activated on it, and the dependency that
/// first selected it, so closedness can be stated of the graph alone.
pub struct ResolveNode {
    pub pid: PackageId,
    pub summary: Summary,
    pub activated: Vec<Vec<u8>>,
    pub cause_dep: Dependency,
    pub edges: Vec<Edge>,
}

/// Spec-level model of a `ResolveNode`.
pub struct ResolveNodeV {
    pub pid: PackageIdV,
    pub summary: SummaryV,
    pub activated: Seq<Seq<u8>>,
    pub cause_dep: DependencyV,
    pub edges: Seq<EdgeV>,
}

impl View for ResolveNode {
    type V = ResolveNodeV;

    open spec fn view(&self) -> ResolveNodeV {
        ResolveNodeV {
            pid: self.pid@,
            summary: self.summary@,
            activated: self.activated.deep_view(),
            cause_dep: self.cause_dep@,
            edges: Seq::new(self.edges@.len(), |i: int| self.edges@[i]@),
        }
    }
}

/// The result of a successful resolution: the edges demanded by the
/// workspace root, and one node per chosen package.
pub struct ResolveGraph {
    pub root_edges: Vec<Edge>,
    pub nodes: Vec<ResolveNode>,
}

/// Spec-level model of a `ResolveGraph`.
pub struct ResolveGraphV {
    pub root_edges: Seq<EdgeV>,
    pub nodes: Seq<ResolveNodeV>,
}

impl View for ResolveGraph {
    type V = ResolveGraphV;

    open spec fn view(&self) -> ResolveGraphV {
        ResolveGraphV {
            root_edges: Seq::new(self.root_edges@.len(), |i: int| self.root_edges@[i]@),
            nodes: Seq::new(self.nodes@.len(), |i: int| self.nodes@[i]@),
        }
    }
}

/// A valid edge: the chosen package has the demanded name and its version
/// satisfies the requirement. The chosen source may differ from the
/// demanded one: an override source takes precedence for the same name.
pub open spec fn edge_ok(e: EdgeV) -> bool {
    &&& e.target.name == e.dep.name
    &&& req_matches(e.dep.req, e.target.version)
}

/// Whether some node carries the package identity `pid`.
pub open spec fn nodes_have_pid(nodes: Seq<ResolveNodeV>, pid: PackageIdV) -> bool {
    exists|k: int| 0 <= k < nodes.len() && nodes[k].pid == pid
}

/// Two package identities occupying the same resolution slot: same name and
/// same source.
pub open spec fn same_slot(a: PackageIdV, b: PackageIdV) -> bool {
    a.name == b.name && a.source == b.source
}

/// Validity of a resolve graph: every edge satisfies its originating
/// dependency and points at a node of the graph, and no two nodes occupy the
/// same (name, source) slot.
pub open spec fn graph_wf(g: ResolveGraphV) -> bool {
    &&& forall|i: int| 0 <= i < g.root_edges.len() ==> edge_ok(#[trigger] g.root_edges[i])
        && nodes_have_pid(g.nodes, g.root_edges[i].target)
    &&& forall|i: int, j: int|
        0 <= i < g.nodes.len() && 0 <= j < g.nodes[i].edges.len() ==> edge_ok(
            #[trigger] g.nodes[i].edges[j],
        ) && nodes_have_pid(g.nodes, g.nodes[i].edges[j].target)
    &&& forall|i: int, j: int|
        0 <= i < j < g.nodes.len() ==> !same_slot((#[trigger] g.nodes[i]).pid, (#[trigger]
        g.nodes[j]).pid)
}

/// Whether a dependency is relevant to the requested target platforms: it
/// carries no platform condition, or its platform is among the requested
/// ones.
pub open spec fn dep_relevant(d: DependencyV, targets: Seq<Seq<u8>>) -> bool {
    match d.target {
        Option::None => true,
        Option::Some(t) => targets.contains(t),
    }
}

/// Decides whether a list of byte strings contains `x`.
pub fn names_contain(v: &Vec<Vec<u8>>, x: &Vec<u8>) -> (r: bool)
    ensures
        r == v.deep_view().contains(x@),
{
    let n = v.len();
    let mut i: usize = 0;
    while i < n
        invariant
            n == v@.len(),
            0 <= i <= n,
            forall|k: int| 0 <= k < i ==> v.deep_view()[k] != x@,
        decreases n - i,
    {
        let hit = bytes_eq(&v[i], x);
        proof {
            assert(v.deep_view()[i as int] == v@[i as int]@);
        }
        if hit {
            return true;
        }
        i = i + 1;
    }
    false
}

/// Decides `dep_relevant`.
pub fn is_relevant(d: &Dependency, targets: &Vec<Vec<u8>>) -> (r: bool)
    ensures
        r == dep_relevant(d@, targets.deep_view()),
{
    match &d.target {
        Option::None => {
            proof {
                assert(d@.target is None);
            }
            true
        },
        Option::Some(t) => {
            let r = names_contain(targets, t);
            proof {
                assert(d@.target == Option::Some(t@));
            }
            r
        },
    }
}

/// Every name a feature map can mention: the entry names and everything the
/// entries activate. Bounds the activated set.
pub open spec fn feature_pool(features: Seq<crate::model::FeatureEntryV>) -> Seq<Seq<u8>>
    decreases features.len(),
{
    if features.len() == 0 {
        Seq::empty()
    } else {
        feature_pool(features.drop_last()) + seq![features.last().name]
            + features.last().activates
    }
}

/// Whether, in the feature map `features`, the activated set `act` is closed
/// under activation: every feature an activated entry activates is itself
/// activated.
pub open spec fn act_closed(features: Seq<crate::model::FeatureEntryV>, act: Seq<Seq<u8>>) -> bool {
    forall|e: int, a: int|
        0 <= e < features.len() && 0 <= a < features[e].activates.len() && act.contains(
            (#[trigger] features[e]).name,
        ) ==> act.contains(#[trigger] features[e].activates[a])
}

/// Whether feature `f` is reachable from the requested set in at most `n`
/// activation steps.
pub open spec fn feat_reachable(
    fs: Seq<crate::model::FeatureEntryV>,
    req: Seq<Seq<u8>>,
    f: Seq<u8>,
    n: nat,
) -> bool
    decreases n,
{
    if req.contains(f) {
        true
    } else if n == 0 {
        false
    } else {
        exists|e: int, a: int|
            0 <= e < fs.len() && 0 <= a < (#[trigger] fs[e]).activates.len() && #[trigger] fs[
                e
            ].activates[a] == f && feat_reachable(fs, req, fs[e].name, (n - 1) as nat)
    }
}

/// Whether feature `f` is reachable from the requested set in any number of
/// activation steps.
pub open spec fn feat_reachable_any(
    fs: Seq<crate::model::FeatureEntryV>,
    req: Seq<Seq<u8>>,
    f: Seq<u8>,
) -> bool {
    exists|n: nat| feat_reachable(fs, req, f, n)
}

/// The monotone feature-activation closure: starting from the requested
/// features, repeatedly activates everything an activated feature's map
/// entry activates, until closed.
pub fn activated_features(features: &Vec<FeatureEntry>, requested: &Vec<Vec<u8>>) -> (r: Vec<
    Vec<u8>,
>)
    ensures
        r.deep_view().no_duplicates(),
        forall|k: int| 0 <= k < requested.deep_view().len() ==> r.deep_view().contains(
            #[trigger] requested.deep_view()[k],
        ),
        forall|k: int| 0 <= k < r.deep_view().len() ==> requested.deep_view().contains(
            #[trigger] r.deep_view()[k],
        ) || feature_pool(features.deep_view()).contains(r.deep_view()[k]),
        act_closed(features.deep_view(), r.deep_view()),
        forall|k: int| 0 <= k < r.deep_view().len() ==> feat_reachable_any(
            features.deep_view(),
            requested.deep_view(),
            #[trigger] r.deep_view()[k],
        ),
{
    let ghost fs = features.deep_view();
    let ghost pool = requested.deep_view() + feature_pool(fs);
    let mut act: Vec<Vec<u8>> = Vec::new();
    let mut work: Vec<Vec<u8>> = crate::model::clone_byte_list(requested);
    proof {
        assert forall|k: int| 0 <= k < work.deep_view().len() implies pool.contains(
            #[trigger] work.deep_view()[k],
        ) by {
            assert(pool[k] == work.deep_view()[k]);
        }
        assert forall|k: int|
            0 <= k < requested.deep_view().len() implies act.deep_view().contains(
            #[trigger] requested.deep_view()[k],
        ) || work.deep_view().contains(requested.deep_view()[k]) by {
            assert(work.deep_view()[k] == requested.deep_view()[k]);
        }
        assert forall|k: int| 0 <= k < work.deep_view().len() implies feat_reachable_any(
            fs,
            requested.deep_view(),
            #[trigger] work.deep_view()[k],
        ) by {
            assert(requested.deep_view().contains(work.deep_view()[k]));
            assert(feat_reachable(fs, requested.deep_view(), work.deep_view()[k], 0));
        }
    }
    loop
        invariant
            fs == features.deep_view(),
            pool == requested.deep_view() + feature_pool(fs),
            act.deep_view().no_duplicates(),
            act.deep_view().len() <= pool.len(),
            forall|k: int| 0 <= k < act.deep_view().len() ==> pool.contains(
                #[trigger] act.deep_view()[k],
            ),
            forall|k: int| 0 <= k < work.deep_view().len() ==> pool.contains(
                #[trigger] work.deep_view()[k],
            ),
            forall|k: int| 0 <= k < requested.deep_view().len() ==> act.deep_view().contains(
                #[trigger] requested.deep_view()[k],
            ) || work.deep_view().contains(requested.deep_view()[k]),
            forall|e: int, a: int|
                0 <= e < fs.len() && 0 <= a < fs[e].activates.len() && act.deep_view().contains(
                    (#[trigger] fs[e]).name,
                ) ==> act.deep_view().contains(#[trigger] fs[e].activates[a])
                    || work.deep_view().contains(fs[e].activates[a]),
            forall|k: int| 0 <= k < act.deep_view().len() ==> feat_reachable_any(
                fs,
                requested.deep_view(),
                #[trigger] act.deep_view()[k],
            ),
            forall|k: int| 0 <= k < work.deep_view().len() ==> feat_reachable_any(
                fs,
                requested.deep_view(),
                #[trigger] work.deep_view()[k],
            ),
        ensures
            work.deep_view().len() == 0,
        decreases pool.len() - act.deep_view().len(), work@.len(),
    {
        let ghost work_before = work.deep_view();
        let popped = work.pop();
        let f = match popped {
            Option::Some(f) => f,
            Option::None => {
                proof {
                    assert(work.deep_view().len() == work@.len());
                }
                break ;
            },
        };
        proof {
            assert(work.deep_view() =~= work_before.drop_last());
            assert(f@ == work_before[work_before.len() - 1]);
            assert(pool.contains(f@));
            assert(feat_reachable_any(fs, requested.deep_view(), f@));
            assert forall|k: int| 0 <= k < work.deep_view().len() implies feat_reachable_any(
                fs,
                requested.deep_view(),
                #[trigger] work.deep_view()[k],
            ) by {
                assert(work.deep_view()[k] == work_before[k]);
            }
        }
        let dup = names_contain(&act, &f);
        proof {
            // everything the dropped entry covered stays covered: it is in
            // the activated set (when a duplicate) or is about to enter it
            assert forall|k: int| 0 <= k < work.deep_view().len() implies pool.contains(
                #[trigger] work.deep_view()[k],
            ) by {
                assert(work.deep_view()[k] == work_before[k]);
            }
        }
        if dup {
            proof {
                assert forall|k: int|
                    0 <= k < requested.deep_view().len() implies act.deep_view().contains(
                    #[trigger] requested.deep_view()[k],
                ) || work.deep_view().contains(requested.deep_view()[k]) by {
                    if !act.deep_view().contains(requested.deep_view()[k]) {
                        let req_k = requested.deep_view()[k];
                        let t = choose|t: int|
                            0 <= t < work_before.len() && work_before[t] == req_k;
                        if t < work_before.len() - 1 {
                            assert(work.deep_view()[t] == requested.deep_view()[k]);
                        }
                    }
                }
                assert forall|e: int, a: int|
                    0 <= e < fs.len() && 0 <= a < fs[e].activates.len() && act.deep_view().contains(
                        (#[trigger] fs[e]).name,
                    ) && !act.deep_view().contains(
                        #[trigger] fs[e].activates[a],
                    ) implies work.deep_view().contains(fs[e].activates[a]) by {
                    let t = choose|t: int|
                        0 <= t < work_before.len() && work_before[t] == fs[e].activates[a];
                    if t < work_before.len() - 1 {
                        assert(work.deep_view()[t] == fs[e].activates[a]);
                    }
                }
            }
            continue ;
        }
        let ghost act_before = act.deep_view();
        act.push(clone_bytes(&f));
        proof {
            assert(act.deep_view() =~= act_before.push(f@));
            assert forall|k: int| 0 <= k < act.deep_view().len() implies feat_reachable_any(
                fs,
                requested.deep_view(),
                #[trigger] act.deep_view()[k],
            ) by {
                if k < act_before.len() {
                    assert(act.deep_view()[k] == act_before[k]);
                } else {
                    assert(act.deep_view()[k] == f@);
                }
            }
            assert(act.deep_view().drop_last() =~= act_before);
            assert(act.deep_view().no_duplicates());
            // the new element is in the pool and not yet counted, so the
            // activated set stays within the pool's cardinality
            assert forall|k: int| 0 <= k < act.deep_view().len() implies pool.to_set().contains(
                #[trigger] act.deep_view()[k],
            ) by {
                assert(pool.contains(act.deep_view()[k]));
            }
            act.deep_view().unique_seq_to_set();
            vstd::set_lib::lemma_len_subset(act.deep_view().to_set(), pool.to_set());
            pool.lemma_cardinality_of_set();
            assert forall|k: int|
                0 <= k < requested.deep_view().len() implies act.deep_view().contains(
                #[trigger] requested.deep_view()[k],
            ) || work.deep_view().contains(requested.deep_view()[k]) by {
                if requested.deep_view()[k] == f@ {
                    assert(act.deep_view()[act_before.len() as int] == f@);
                } else if !act_before.contains(requested.deep_view()[k]) {
                    let t = choose|t: int|
                        0 <= t < work_before.len() && work_before[t] == requested.deep_view()[k];
                    if t < work_before.len() - 1 {
                        assert(work.deep_view()[t] == requested.deep_view()[k]);
                    }
                } else {
                    let t = choose|t: int|
                        0 <= t < act_before.len() && act_before[t] == requested.deep_view()[k];
                    assert(act.deep_view()[t] == requested.deep_view()[k]);
                }
            }
        }
        // activate everything every entry for this feature activates
        let ghost f_model = f@;
        let ghost work_mid = work.deep_view();
        let ne = features.len();
        let mut e: usize = 0;
        while e < ne
            invariant
                fs == features.deep_view(),
                pool == requested.deep_view() + feature_pool(fs),
                ne == features@.len(),
                0 <= e <= ne,
                f@ == f_model,
                feat_reachable_any(fs, requested.deep_view(), f_model),
                forall|k: int| 0 <= k < work.deep_view().len() ==> feat_reachable_any(
                    fs,
                    requested.deep_view(),
                    #[trigger] work.deep_view()[k],
                ),
                work_mid.len() <= work.deep_view().len(),
                forall|t: int| 0 <= t < work_mid.len() ==> #[trigger] work.deep_view()[t]
                    == work_mid[t],
                forall|k: int| 0 <= k < work.deep_view().len() ==> pool.contains(
                    #[trigger] work.deep_view()[k],
                ),
                forall|ei: int, a: int|
                    0 <= ei < e && 0 <= a < fs[ei].activates.len() && (#[trigger] fs[ei]).name
                        == f_model ==> work.deep_view().contains(#[trigger] fs[ei].activates[a]),
            decreases ne - e,
        {
            let entry = &features[e];
            proof {
                assert(fs[e as int] == features@[e as int]@);
            }
            let name_hit = bytes_eq(&entry.name, &f);
            if name_hit {
                let na = entry.activates.len();
                proof {
                    assert(entry@ == fs[e as int]);
                    assert(na == fs[e as int].activates.len());
                }
                let mut a: usize = 0;
                while a < na
                    invariant
                        fs == features.deep_view(),
                        pool == requested.deep_view() + feature_pool(fs),
                        ne == features@.len(),
                        0 <= e < ne,
                        fs[e as int] == features@[e as int]@,
                        entry@ == fs[e as int],
                        entry.name@ == f_model,
                        na == entry.activates@.len(),
                        na == fs[e as int].activates.len(),
                        0 <= a <= na,
                        f@ == f_model,
                        feat_reachable_any(fs, requested.deep_view(), f_model),
                        forall|k: int| 0 <= k < work.deep_view().len() ==> feat_reachable_any(
                            fs,
                            requested.deep_view(),
                            #[trigger] work.deep_view()[k],
                        ),
                        work_mid.len() <= work.deep_view().len(),
                        forall|t: int| 0 <= t < work_mid.len() ==> #[trigger] work.deep_view()[t]
                            == work_mid[t],
                        forall|k: int| 0 <= k < work.deep_view().len() ==> pool.contains(
                            #[trigger] work.deep_view()[k],
                        ),
                        forall|ei: int, x: int|
                            0 <= ei < e && 0 <= x < fs[ei].activates.len() && (#[trigger]
                            fs[ei]).name == f_model ==> work.deep_view().contains(
                                #[trigger] fs[ei].activates[x],
                            ),
                        forall|x: int| 0 <= x < a ==> work.deep_view().contains(
                            #[trigger] fs[e as int].activates[x],
                        ),
                    decreases na - a,
                {
                    let ghost wb = work.deep_view();
                    work.push(clone_bytes(&entry.activates[a]));
                    proof {
                        assert(entry.activates.deep_view()[a as int] == entry.activates@[
                            a as int
                        ]@);
                        assert(work.deep_view() =~= wb.push(fs[e as int].activates[a as int]));
                        lemma_feature_pool_contains(fs, e as int);
                        let x = fs[e as int].activates[a as int];
                        let i = choose|i: int|
                            0 <= i < feature_pool(fs).len() && feature_pool(fs)[i] == x;
                        assert(pool[requested.deep_view().len() + i] == x);
                        assert(pool.contains(x));
                        assert forall|y: Seq<u8>| wb.contains(y) implies work.deep_view().contains(
                            y,
                        ) by {
                            let t = choose|t: int| 0 <= t < wb.len() && wb[t] == y;
                            assert(work.deep_view()[t] == y);
                        }
                        assert(work.deep_view()[wb.len() as int] == fs[e as int].activates[
                            a as int
                        ]);
                        assert(work.deep_view().contains(fs[e as int].activates[a as int]));
                        let n0 = choose|n0: nat|
                            feat_reachable(fs, requested.deep_view(), f_model, n0);
                        assert(feat_reachable(
                            fs,
                            requested.deep_view(),
                            fs[e as int].activates[a as int],
                            n0 + 1,
                        )) by {
                            assert(fs[e as int].name == f_model);
                            assert(feat_reachable(fs, requested.deep_view(), f_model, n0));
                        }
                        assert(feat_reachable_any(
                            fs,
                            requested.deep_view(),
                            fs[e as int].activates[a as int],
                        ));
                        assert forall|k: int|
                            0 <= k < work.deep_view().len() implies feat_reachable_any(
                            fs,
                            requested.deep_view(),
                            #[trigger] work.deep_view()[k],
                        ) by {
                            if k < wb.len() {
                                assert(work.deep_view()[k] == wb[k]);
                            } else {
                                assert(work.deep_view()[k] == fs[e as int].activates[a as int]);
                            }
                        }
                    }
                    a = a + 1;
                }
                proof {
                    assert(fs[e as int].name == f_model);
                }
            } else {
                proof {
                    assert(fs[e as int].name != f_model);
                }
            }
            e = e + 1;
        }
        proof {
            // closedness: a feature just activated has all its activations
            // on the worklist; previously activated features kept theirs,
            // since the worklist only lost the entry that moved into the
            // activated set
            assert(act.deep_view()[act_before.len() as int] == f_model);
            assert(act.deep_view().contains(f_model));
            assert forall|ei: int, a: int|
                0 <= ei < fs.len() && 0 <= a < fs[ei].activates.len() && act.deep_view().contains(
                    (#[trigger] fs[ei]).name,
                ) && !act.deep_view().contains(
                    #[trigger] fs[ei].activates[a],
                ) implies work.deep_view().contains(fs[ei].activates[a]) by {
                if fs[ei].name == f_model {
                } else {
                    assert(act_before.contains(fs[ei].name));
                    if !act_before.contains(fs[ei].activates[a]) {
                        let t = choose|t: int|
                            0 <= t < work_before.len() && work_before[t] == fs[ei].activates[a];
                        if t < work_before.len() - 1 {
                            assert(work_mid[t] == fs[ei].activates[a]);
                            assert(work.deep_view()[t] == fs[ei].activates[a]);
                        } else {
                            assert(fs[ei].activates[a] == f_model);
                            assert(act.deep_view().contains(f_model));
                        }
                    } else {
                        let t = choose|t: int|
                            0 <= t < act_before.len() && act_before[t] == fs[ei].activates[a];
                        assert(act.deep_view()[t] == fs[ei].activates[a]);
                    }
                }
            }
            assert forall|k: int|
                0 <= k < requested.deep_view().len() implies act.deep_view().contains(
                #[trigger] requested.deep_view()[k],
            ) || work.deep_view().contains(requested.deep_view()[k]) by {
                if !act.deep_view().contains(requested.deep_view()[k]) {
                    let req_k = requested.deep_view()[k];
                    assert forall|t: int|
                        0 <= t < act_before.len() implies act_before[t] != req_k by {
                        assert(act.deep_view()[t] == act_before[t]);
                    }
                    assert(act.deep_view()[act_before.len() as int] == f_model);
                    assert(act.deep_view().contains(f_model));
                    assert(requested.deep_view()[k] != f_model);
                    let t = choose|t: int|
                        0 <= t < work_before.len() && work_before[t] == requested.deep_view()[k];
                    assert(t < work_before.len() - 1);
                    assert(work_mid[t] == requested.deep_view()[k]);
                    assert(work.deep_view()[t] == requested.deep_view()[k]);
                }
            }
        }
    }
    proof {
        assert(work.deep_view().len() == 0);
        assert forall|e: int, a: int|
            0 <= e < fs.len() && 0 <= a < fs[e].activates.len() && act.deep_view().contains(
                (#[trigger] fs[e]).name,
            ) implies act.deep_view().contains(#[trigger] fs[e].activates[a]) by {}
    }
    act
}

/// Everything an entry names is in the feature pool.
proof fn lemma_feature_pool_contains(fs: Seq<crate::model::FeatureEntryV>, e: int)
    requires
        0 <= e < fs.len(),
    ensures
        feature_pool(fs).contains(fs[e].name),
        forall|a: int| 0 <= a < fs[e].activates.len() ==> feature_pool(fs).contains(
            #[trigger] fs[e].activates[a],
        ),
    decreases fs.len(),
{
    if e == fs.len() - 1 {
        let p = feature_pool(fs);
        let prior = feature_pool(fs.drop_last());
        assert(p == prior + seq![fs.last().name] + fs.last().activates);
        assert(p[prior.len() as int] == fs[e].name);
        assert forall|a: int| 0 <= a < fs[e].activates.len() implies p.contains(
            #[trigger] fs[e].activates[a],
        ) by {
            assert(p[prior.len() + 1 + a] == fs[e].activates[a]);
        }
    } else {
        lemma_feature_pool_contains(fs.drop_last(), e);
        let prior = feature_pool(fs.drop_last());
        let p = feature_pool(fs);
        assert(fs.drop_last()[e] == fs[e]);
        assert forall|x: Seq<u8>| prior.contains(x) implies p.contains(x) by {
            let i = choose|i: int| 0 <= i < prior.len() && prior[i] == x;
            assert(p[i] == x);
        }
    }
}

/// Whether the activated feature set enables the optional dependency
/// `dep_name`: some activated feature's map entry lists it.
pub open spec fn dep_enabled(
    features: Seq<crate::model::FeatureEntryV>,
    act: Seq<Seq<u8>>,
    dep_name: Seq<u8>,
) -> bool {
    exists|e: int, a: int|
        0 <= e < features.len() && 0 <= a < features[e].enables_deps.len() && act.contains(
            features[e].name,
        ) && features[e].enables_deps[a] == dep_name
}

/// Decides `dep_enabled`.
pub fn is_enabled(features: &Vec<FeatureEntry>, act: &Vec<Vec<u8>>, dep_name: &Vec<u8>) -> (r:
    bool)
    ensures
        r == dep_enabled(features.deep_view(), act.deep_view(), dep_name@),
{
    let ghost fs = features.deep_view();
    let ne = features.len();
    let mut e: usize = 0;
    while e < ne
        invariant
            fs == features.deep_view(),
            ne == features@.len(),
            0 <= e <= ne,
            forall|ei: int, a: int|
                0 <= ei < e && 0 <= a < fs[ei].enables_deps.len() && act.deep_view().contains(
                    (#[trigger] fs[ei]).name,
                ) ==> #[trigger] fs[ei].enables_deps[a] != dep_name@,
        decreases ne - e,
    {
        let entry = &features[e];
        proof {
            assert(entry@ == fs[e as int]);
        }
        if names_contain(act, &entry.name) {
            let na = entry.enables_deps.len();
            let mut a: usize = 0;
            while a < na
                invariant
                    fs == features.deep_view(),
                    ne == features@.len(),
                    0 <= e < ne,
                    entry@ == fs[e as int],
                    na == entry.enables_deps@.len(),
                    na == fs[e as int].enables_deps.len(),
                    act.deep_view().contains(fs[e as int].name),
                    0 <= a <= na,
                    forall|x: int| 0 <= x < a ==> fs[e as int].enables_deps[x] != dep_name@,
                decreases na - a,
            {
                let hit = bytes_eq(&entry.enables_deps[a], dep_name);
                proof {
                    assert(fs[e as int].enables_deps[a as int] == entry.enables_deps@[a as int]@);
                }
                if hit {
                    return true;
                }
                a = a + 1;
            }
        } else {
            proof {
                assert(!act.deep_view().contains(fs[e as int].name));
            }
        }
        e = e + 1;
    }
    false
}

/// One still-unsatisfied dependency: where it came from (`None` means the
/// workspace root, `Some(k)` the slot at index `k`) and the dependency
/// itself.
pub struct OpenDep {
    pub origin: Option<usize>,
    pub dep: Dependency,
}

/// Spec-level model of an `OpenDep`.
pub struct OpenDepV {
    pub origin: Option<int>,
    pub dep: DependencyV,
}

impl View for OpenDep {
    type V = OpenDepV;

    open spec fn view(&self) -> OpenDepV {
        OpenDepV {
            origin: match self.origin {
                Option::Some(k) => Option::Some(k as int),
                Option::None => Option::None,
            },
            dep: self.dep@,
        }
    }
}

/// One resolution slot: the chosen package, the summary it was chosen from,
/// the features activated on it so far, and the dependency (and its origin
/// slot) that first selected it — kept for the failure chain.
pub struct Slot {
    pub pid: PackageId,
    pub summary: Summary,
    pub activated: Vec<Vec<u8>>,
    pub cause: Option<usize>,
    pub cause_dep: Dependency,
}

/// Spec-level model of a `Slot`.
pub struct SlotV {
    pub pid: PackageIdV,
    pub summary: SummaryV,
    pub activated: Seq<Seq<u8>>,
    pub cause: Option<int>,
    pub cause_dep: DependencyV,
}

impl View for Slot {
    type V = SlotV;

    open spec fn view(&self) -> SlotV {
        SlotV {
            pid: self.pid@,
            summary: self.summary@,
            activated: self.activated.deep_view(),
            cause: match self.cause {
                Option::Some(k) => Option::Some(k as int),
                Option::None => Option::None,
            },
            cause_dep: self.cause_dep@,
        }
    }
}

/// One recorded edge together with the slot it originates from (`None`
/// means the workspace root).
pub struct EdgeRec {
    pub origin: Option<usize>,
    pub edge: Edge,
}

/// Spec-level model of an `EdgeRec`.
pub struct EdgeRecV {
    pub origin: Option<int>,
    pub edge: EdgeV,
}

impl View for EdgeRec {
    type V = EdgeRecV;

    open spec fn view(&self) -> EdgeRecV {
        EdgeRecV {
            origin: match self.origin {
                Option::Some(k) => Option::Some(k as int),
                Option::None => Option::None,
            },
            edge: self.edge@,
        }
    }
}

/// The models of a list of recorded edges.
pub open spec fn edge_rec_models(s: Seq<EdgeRec>) -> Seq<EdgeRecV> {
    Seq::new(s.len(), |i: int| s[i]@)
}

/// The models of a list of slots.
pub open spec fn slot_models(s: Seq<Slot>) -> Seq<SlotV> {
    Seq::new(s.len(), |i: int| s[i]@)
}

/// The models of a list of edges.
pub open spec fn edge_models(s: Seq<Edge>) -> Seq<EdgeV> {
    Seq::new(s.len(), |i: int| s[i]@)
}

/// The models of a list of open dependencies.
pub open spec fn open_models(s: Seq<OpenDep>) -> Seq<OpenDepV> {
    Seq::new(s.len(), |i: int| s[i]@)
}

/// Whether some slot holds the package identity `pid`.
pub open spec fn slots_have_pid(slots: Seq<SlotV>, pid: PackageIdV) -> bool {
    exists|k: int| 0 <= k < slots.len() && slots[k].pid == pid
}

/// The resolver's state invariant: no two slots occupy the same
/// (name, source) slot; every recorded edge is valid, points at a chosen
/// slot, and originates from the root or an existing slot; every open
/// dependency's origin and every slot's cause index is in range (a cause
/// always precedes the slot it selected).
pub open spec fn state_ok(slots: Seq<SlotV>, edges: Seq<EdgeRecV>, open: Seq<OpenDepV>) -> bool {
    &&& forall|i: int, j: int|
        0 <= i < j < slots.len() ==> !same_slot((#[trigger] slots[i]).pid, (#[trigger]
        slots[j]).pid)
    &&& forall|i: int| 0 <= i < edges.len() ==> edge_ok((#[trigger] edges[i]).edge)
        && slots_have_pid(slots, edges[i].edge.target) && (edges[i].origin matches Option::Some(o)
        ==> 0 <= o < slots.len())
    &&& forall|i: int|
        0 <= i < slots.len() ==> ((#[trigger] slots[i]).cause matches Option::Some(c) ==> 0 <= c
            < i)
    &&& forall|i: int| 0 <= i < slots.len() ==> (#[trigger] slots[i]).pid.name
        == slots[i].cause_dep.name
    &&& forall|i: int| 0 <= i < slots.len() ==> (#[trigger] slots[i]).summary.pid == slots[i].pid
    &&& forall|i: int|
        0 <= i < open.len() ==> ((#[trigger] open[i]).origin matches Option::Some(k) ==> 0 <= k
            < slots.len())
}

/// Every relevant, non-optional root dependency is already satisfied by a
/// root-originated edge or still waits on the open list.
pub open spec fn roots_covered(
    roots: Seq<DependencyV>,
    targets: Seq<Seq<u8>>,
    edges: Seq<EdgeRecV>,
    open: Seq<OpenDepV>,
) -> bool {
    forall|r: int|
        0 <= r < roots.len() && dep_relevant(#[trigger] roots[r], targets) && !roots[r].optional
            ==> (exists|e: int|
            0 <= e < edges.len() && edges[e].origin is None && edges[e].edge.dep == roots[r]) || (
        exists|o: int|
            0 <= o < open.len() && open[o].origin is None && open[o].dep == roots[r])
}

/// Whether a declared dependency must be satisfied: it is relevant to the
/// requested platforms and either mandatory or enabled by the activated
/// feature set.
pub open spec fn dep_wanted(
    d: DependencyV,
    features: Seq<crate::model::FeatureEntryV>,
    act: Seq<Seq<u8>>,
    targets: Seq<Seq<u8>>,
) -> bool {
    dep_relevant(d, targets) && (!d.optional || dep_enabled(features, act, d.name))
}

/// Every wanted dependency of every chosen slot is already satisfied by a
/// recorded edge from that slot or still waits on the open list.
pub open spec fn slots_covered(
    slots: Seq<SlotV>,
    edges: Seq<EdgeRecV>,
    open: Seq<OpenDepV>,
    targets: Seq<Seq<u8>>,
) -> bool {
    forall|i: int, j: int|
        0 <= i < slots.len() && 0 <= j < slots[i].summary.deps.len() && dep_wanted(
            #[trigger] slots[i].summary.deps[j],
            slots[i].summary.features,
            slots[i].activated,
            targets,
        ) ==> (exists|e: int|
            0 <= e < edges.len() && edges[e].origin == Option::Some(i) && edges[e].edge.dep
                == slots[i].summary.deps[j]) || (exists|o: int|
            0 <= o < open.len() && open[o].origin == Option::Some(i) && open[o].dep == slots[i].summary.deps[j])
}

/// Every chosen slot's summary is one of the query layer's admissible
/// candidates for the dependency that selected the slot: the requirement is
/// satisfied, the version is not yanked unless whitelisted, and the source
/// is admissible under override precedence.
pub open spec fn slots_admissible(slots: Seq<SlotV>, reg: PackageRegistry) -> bool {
    forall|i: int| 0 <= i < slots.len() ==> reg.candidates_spec(
        (#[trigger] slots[i]).cause_dep,
    ).contains(slots[i].summary)
}

/// Closedness of a resolve graph: every wanted dependency of every node has
/// an edge from that node.
pub open spec fn graph_closed(g: ResolveGraphV, targets: Seq<Seq<u8>>) -> bool {
    forall|t: int, j: int|
        0 <= t < g.nodes.len() && 0 <= j < g.nodes[t].summary.deps.len() && dep_wanted(
            #[trigger] g.nodes[t].summary.deps[j],
            g.nodes[t].summary.features,
            g.nodes[t].activated,
            targets,
        ) ==> (exists|x: int|
            0 <= x < g.nodes[t].edges.len() && g.nodes[t].edges[x].dep == g.nodes[t].summary.deps[j])
}

/// Copy of an edge, equal in model.
pub(crate) fn clone_edge(e: &Edge) -> (r: Edge)
    ensures
        r@ == e@,
{
    Edge { dep: clone_dep(&e.dep), target: clone_pid(&e.target) }
}

/// Copy of a resolve node, equal in model.
pub(crate) fn clone_node(n: &ResolveNode) -> (r: ResolveNode)
    ensures
        r@ == n@,
{
    let mut es: Vec<Edge> = Vec::new();
    let ne = n.edges.len();
    let mut j: usize = 0;
    while j < ne
        invariant
            ne == n.edges@.len(),
            0 <= j <= ne,
            es@.len() == j,
            forall|k: int| 0 <= k < j ==> es@[k]@ == n.edges@[k]@,
        decreases ne - j,
    {
        es.push(clone_edge(&n.edges[j]));
        j = j + 1;
    }
    let r = ResolveNode {
        pid: clone_pid(&n.pid),
        summary: clone_summary(&n.summary),
        activated: crate::model::clone_byte_list(&n.activated),
        cause_dep: clone_dep(&n.cause_dep),
        edges: es,
    };
    proof {
        assert(r@.edges =~= n@.edges);
        assert(r@ =~= n@);
    }
    r
}

/// Copy of a recorded-edge list, equal in model.
fn clone_edge_recs(v: &Vec<EdgeRec>) -> (r: Vec<EdgeRec>)
    ensures
        edge_rec_models(r@) == edge_rec_models(v@),
{
    let mut r: Vec<EdgeRec> = Vec::new();
    let n = v.len();
    let mut i: usize = 0;
    while i < n
        invariant
            n == v@.len(),
            0 <= i <= n,
            r@.len() == i,
            forall|k: int| 0 <= k < i ==> r@[k]@ == v@[k]@,
        decreases n - i,
    {
        let e = &v[i];
        r.push(EdgeRec { origin: e.origin, edge: clone_edge(&e.edge) });
        i = i + 1;
    }
    proof {
        assert(edge_rec_models(r@) =~= edge_rec_models(v@));
    }
    r
}

/// Copy of a slot, equal in model.
fn clone_slot(s: &Slot) -> (r: Slot)
    ensures
        r@ == s@,
{
    let r = Slot {
        pid: clone_pid(&s.pid),
        summary: clone_summary(&s.summary),
        activated: crate::model::clone_byte_list(&s.activated),
        cause: s.cause,
        cause_dep: clone_dep(&s.cause_dep),
    };
    proof {
        assert(r@ =~= s@);
    }
    r
}

/// Copy of a slot list, equal in model.
fn clone_slots(v: &Vec<Slot>) -> (r: Vec<Slot>)
    ensures
        slot_models(r@) == slot_models(v@),
{
    let mut r: Vec<Slot> = Vec::new();
    let n = v.len();
    let mut i: usize = 0;
    while i < n
        invariant
            n == v@.len(),
            0 <= i <= n,
            r@.len() == i,
            forall|k: int| 0 <= k < i ==> r@[k]@ == v@[k]@,
        decreases n - i,
    {
        r.push(clone_slot(&v[i]));
        i = i + 1;
    }
    proof {
        assert(slot_models(r@) =~= slot_models(v@));
    }
    r
}

/// Copy of an open dependency, equal in model.
fn clone_open_dep(o: &OpenDep) -> (r: OpenDep)
    ensures
        r@ == o@,
{
    OpenDep { origin: o.origin, dep: clone_dep(&o.dep) }
}

/// Copy of the open list, equal in model.
fn clone_open(v: &Vec<OpenDep>) -> (r: Vec<OpenDep>)
    ensures
        open_models(r@) == open_models(v@),
{
    let mut r: Vec<OpenDep> = Vec::new();
    let n = v.len();
    let mut i: usize = 0;
    while i < n
        invariant
            n == v@.len(),
            0 <= i <= n,
            r@.len() == i,
            forall|k: int| 0 <= k < i ==> r@[k]@ == v@[k]@,
        decreases n - i,
    {
        r.push(clone_open_dep(&v[i]));
        i = i + 1;
    }
    proof {
        assert(open_models(r@) =~= open_models(v@));
    }
    r
}

/// The slot occupying the resolution slot of `dep`: a resolution slot is
/// keyed by the requiring dependency's (name, required source), so a slot
/// satisfied from an override source is still found by later dependencies
/// naming the same required source.
fn find_slot(slots: &Vec<Slot>, dep: &Dependency) -> (r: Option<usize>)
    ensures
        match r {
            Option::Some(k) => k < slots@.len() && slot_models(slots@)[k as int].cause_dep.name
                == dep@.name && slot_models(slots@)[k as int].cause_dep.source == dep@.source,
            Option::None => forall|k: int|
                0 <= k < slots@.len() ==> !((#[trigger] slot_models(slots@)[k]).cause_dep.name
                    == dep@.name && slot_models(slots@)[k].cause_dep.source == dep@.source),
        },
{
    let n = slots.len();
    let mut i: usize = 0;
    while i < n
        invariant
            n == slots@.len(),
            0 <= i <= n,
            forall|k: int|
                0 <= k < i ==> !((#[trigger] slot_models(slots@)[k]).cause_dep.name == dep@.name
                    && slot_models(slots@)[k].cause_dep.source == dep@.source),
        decreases n - i,
    {
        let s = &slots[i];
        let name_hit = bytes_eq(&s.cause_dep.name, &dep.name);
        let src_hit = sid_eq(&s.cause_dep.source, &dep.source);
        proof {
            assert(slot_models(slots@)[i as int] == slots@[i as int]@);
        }
        if name_hit && src_hit {
            return Option::Some(i);
        }
        i = i + 1;
    }
    Option::None
}

/// Whether some slot already occupies the (name, source) pair of `pid`.
fn slot_taken(slots: &Vec<Slot>, pid: &PackageId) -> (r: bool)
    ensures
        r == (exists|k: int|
            0 <= k < slots@.len() && same_slot((#[trigger] slot_models(slots@)[k]).pid, pid@)),
{
    let n = slots.len();
    let mut i: usize = 0;
    while i < n
        invariant
            n == slots@.len(),
            0 <= i <= n,
            forall|k: int| 0 <= k < i ==> !same_slot((#[trigger] slot_models(slots@)[k]).pid, pid@),
        decreases n - i,
    {
        let s = &slots[i];
        let name_hit = bytes_eq(&s.pid.name, &pid.name);
        let src_hit = sid_eq(&s.pid.source, &pid.source);
        proof {
            assert(slot_models(slots@)[i as int] == slots@[i as int]@);
        }
        if name_hit && src_hit {
            proof {
                assert(same_slot(slot_models(slots@)[i as int].pid, pid@));
            }
            return true;
        }
        i = i + 1;
    }
    false
}

/// The index of the first candidate pinned by the previous lock, or the
/// sequence's length when none is.
pub open spec fn first_locked_index(s: Seq<SummaryV>, prev: Seq<PackageIdV>) -> int
    decreases s.len(),
{
    if s.len() == 0 {
        0
    } else {
        let r = first_locked_index(s.drop_last(), prev);
        if r < s.len() - 1 {
            r
        } else if crate::query::wl_has(prev, s.last().pid) {
            s.len() - 1
        } else {
            s.len() as int
        }
    }
}

/// The stability-minimization policy (minimal churn): whenever some
/// candidate is pinned by the previous lock, the first such candidate — the
/// highest still-satisfying locked version — is the one the resolver tries
/// first, so a slot whose locked choice still satisfies every requirement
/// keeps it; only slots whose requirement no longer admits the locked
/// version change.
pub proof fn lemma_lock_preference(s: Seq<SummaryV>, prev: Seq<PackageIdV>)
    requires
        exists|k: int| 0 <= k < s.len() && crate::query::wl_has(prev, (#[trigger] s[k]).pid),
    ensures
        0 <= first_locked_index(s, prev) < s.len(),
        crate::query::wl_has(prev, s[first_locked_index(s, prev)].pid),
        forall|t: int| 0 <= t < first_locked_index(s, prev) ==> !crate::query::wl_has(
            prev,
            (#[trigger] s[t]).pid,
        ),
    decreases s.len(),
{
    let k = choose|k: int| 0 <= k < s.len() && crate::query::wl_has(prev, (#[trigger] s[k]).pid);
    if k < s.len() - 1 {
        assert(s.drop_last()[k] == s[k]);
        lemma_lock_preference(s.drop_last(), prev);
        assert forall|t: int|
            0 <= t < first_locked_index(s, prev) implies !crate::query::wl_has(
            prev,
            (#[trigger] s[t]).pid,
        ) by {
            assert(s.drop_last()[t] == s[t]);
        }
    } else {
        if first_locked_index(s.drop_last(), prev) < s.len() - 1 {
            lemma_first_locked_none(s.drop_last(), prev);
            lemma_lock_preference(s.drop_last(), prev);
            assert forall|t: int|
                0 <= t < first_locked_index(s, prev) implies !crate::query::wl_has(
                prev,
                (#[trigger] s[t]).pid,
            ) by {
                assert(s.drop_last()[t] == s[t]);
            }
        } else {
            lemma_first_locked_none(s.drop_last(), prev);
            assert forall|t: int|
                0 <= t < first_locked_index(s, prev) implies !crate::query::wl_has(
                prev,
                (#[trigger] s[t]).pid,
            ) by {
                assert(s.drop_last()[t] == s[t]);
            }
        }
    }
}

/// `first_locked_index` either points at a locked candidate or reports that
/// none exists before it.
pub proof fn lemma_first_locked_none(s: Seq<SummaryV>, prev: Seq<PackageIdV>)
    ensures
        0 <= first_locked_index(s, prev) <= s.len(),
        forall|t: int| 0 <= t < first_locked_index(s, prev) && t < s.len() ==> !crate::query::wl_has(
            prev,
            (#[trigger] s[t]).pid,
        ),
        first_locked_index(s, prev) < s.len() ==> crate::query::wl_has(
            prev,
            s[first_locked_index(s, prev)].pid,
        ),
    decreases s.len(),
{
    if s.len() > 0 {
        lemma_first_locked_none(s.drop_last(), prev);
        assert forall|t: int|
            0 <= t < first_locked_index(s, prev) && t < s.len() implies !crate::query::wl_has(
            prev,
            (#[trigger] s[t]).pid,
        ) by {
            if t < s.len() - 1 {
                assert(s.drop_last()[t] == s[t]);
            }
        }
    }
}

/// Reorders candidates so the previously locked choice, when still
/// admissible, is tried first; otherwise leaves the deterministic order —
/// highest version first — untouched.
fn prefer_locked(cands: Vec<Summary>, prev: &Vec<PackageId>) -> (r: Vec<Summary>)
    ensures
        ({
            let s = crate::index::summary_models(cands@);
            let i = first_locked_index(s, prev.deep_view());
            if i < s.len() {
                crate::index::summary_models(r@) == seq![s[i]] + s.remove(i)
            } else {
                crate::index::summary_models(r@) == s
            }
        }),
{
    let ghost s = crate::index::summary_models(cands@);
    let n = cands.len();
    let mut i: usize = 0;
    proof {
        assert(first_locked_index(s.subrange(0, 0), prev.deep_view()) == 0);
    }
    while i < n
        invariant
            n == cands@.len(),
            s == crate::index::summary_models(cands@),
            0 <= i <= n,
            first_locked_index(s.subrange(0, i as int), prev.deep_view()) == i as int,
        decreases n - i,
    {
        let locked = crate::query::pids_contain(prev, &cands[i].pid);
        proof {
            let cur = s.subrange(0, i as int + 1);
            assert(cur.drop_last() =~= s.subrange(0, i as int));
            assert(cur.last() == s[i as int]);
            assert(s[i as int].pid == cands@[i as int]@.pid);
        }
        if locked {
            let mut r = cands;
            let e = r.remove(i);
            r.insert(0, e);
            proof {
                lemma_first_locked_prefix(s, prev.deep_view(), i as int);
                assert(crate::index::summary_models(r@) =~= seq![s[i as int]] + s.remove(i as int));
            }
            return r;
        }
        i = i + 1;
    }
    proof {
        assert(s.subrange(0, n as int) =~= s);
    }
    cands
}

/// If no candidate before `i` is locked and the candidate at `i` is, then
/// `i` is the first locked index.
proof fn lemma_first_locked_prefix(s: Seq<SummaryV>, prev: Seq<PackageIdV>, i: int)
    requires
        0 <= i < s.len(),
        first_locked_index(s.subrange(0, i), prev) == i,
        crate::query::wl_has(prev, s[i].pid),
    ensures
        first_locked_index(s, prev) == i,
    decreases s.len() - i,
{
    if i == s.len() - 1 {
        assert(s.subrange(0, i) =~= s.drop_last());
    } else {
        assert(s.subrange(0, i + 1).drop_last() =~= s.subrange(0, i));
        lemma_first_locked_extend(s.subrange(0, i + 1), prev, s.subrange(0, i), i);
        lemma_first_locked_prefix_stable(s, prev, i + 1, i);
    }
}

/// Extending a prefix whose first locked index is its length, by one locked
/// element, puts the first locked index at that element.
proof fn lemma_first_locked_extend(cur: Seq<SummaryV>, prev: Seq<PackageIdV>, pre: Seq<SummaryV>, i: int)
    requires
        cur.len() == i + 1,
        0 <= i,
        cur.drop_last() == pre,
        first_locked_index(pre, prev) == i,
        crate::query::wl_has(prev, cur[i].pid),
    ensures
        first_locked_index(cur, prev) == i,
{
}

/// Once a prefix pins the first locked index inside itself, every extension
/// keeps it.
proof fn lemma_first_locked_prefix_stable(s: Seq<SummaryV>, prev: Seq<PackageIdV>, m: int, i: int)
    requires
        0 <= i < m <= s.len(),
        first_locked_index(s.subrange(0, m), prev) == i,
    ensures
        first_locked_index(s, prev) == i,
    decreases s.len() - m,
{
    if m == s.len() {
        assert(s.subrange(0, m) =~= s);
    } else {
        let cur = s.subrange(0, m + 1);
        assert(cur.drop_last() =~= s.subrange(0, m));
        assert(first_locked_index(cur, prev) == i);
        lemma_first_locked_prefix_stable(s, prev, m + 1, i);
    }
}

/// Moving the locked candidate to the front adds no candidate: every
/// element of the reordered sequence is an element of the original.
proof fn lemma_reorder_membership(s: Seq<SummaryV>, i: int, x: SummaryV)
    requires
        0 <= i < s.len(),
        (seq![s[i]] + s.remove(i)).contains(x),
    ensures
        s.contains(x),
{
    let reordered = seq![s[i]] + s.remove(i);
    let t = choose|t: int| 0 <= t < reordered.len() && reordered[t] == x;
    if t == 0 {
        assert(s[i] == x);
    } else if t - 1 < i {
        assert(s.remove(i)[t - 1] == s[t - 1]);
    } else {
        assert(s.remove(i)[t - 1] == s[t]);
    }
}

/// The dependencies a freshly chosen summary opens: its declared
/// dependencies that are relevant to the requested platforms and either
/// mandatory or enabled by the activated features.
fn opened_deps(cand: &Summary, activated: &Vec<Vec<u8>>, targets: &Vec<Vec<u8>>, origin: usize)
    -> (r: Vec<OpenDep>)
    ensures
        forall|i: int| 0 <= i < r@.len() ==> (#[trigger] r@[i])@.origin == Option::Some(
            origin as int,
        ),
        forall|jj: int|
            0 <= jj < cand@.deps.len() && dep_wanted(
                #[trigger] cand@.deps[jj],
                cand@.features,
                activated.deep_view(),
                targets.deep_view(),
            ) ==> (exists|t: int|
                0 <= t < r@.len() && (#[trigger] r@[t])@.origin == Option::Some(origin as int)
                    && r@[t]@.dep == cand@.deps[jj]),
        r@.len() <= cand@.deps.len(),
{
    let mut r: Vec<OpenDep> = Vec::new();
    proof {
        assert(cand.features.deep_view() =~= cand@.features);
    }
    let n = cand.deps.len();
    let mut j: usize = 0;
    while j < n
        invariant
            n == cand.deps@.len(),
            0 <= j <= n,
            r@.len() <= j,
            forall|i: int| 0 <= i < r@.len() ==> (#[trigger] r@[i])@.origin == Option::Some(
                origin as int,
            ),
            forall|jj: int|
                0 <= jj < j && dep_wanted(
                    #[trigger] cand@.deps[jj],
                    cand@.features,
                    activated.deep_view(),
                    targets.deep_view(),
                ) ==> (exists|t: int|
                    0 <= t < r@.len() && (#[trigger] r@[t])@.origin == Option::Some(origin as int)
                        && r@[t]@.dep == cand@.deps[jj]),
        decreases n - j,
    {
        let d = &cand.deps[j];
        let wanted = if !is_relevant(d, targets) {
            false
        } else if d.optional {
            is_enabled(&cand.features, activated, &d.name)
        } else {
            true
        };
        proof {
            assert(cand@.deps[j as int] == cand.deps@[j as int]@);
            assert(cand.features.deep_view() =~= cand@.features);
            assert(wanted == dep_wanted(
                cand@.deps[j as int],
                cand@.features,
                activated.deep_view(),
                targets.deep_view(),
            ));
        }
        let ghost r_before = r@;
        if wanted {
            r.push(OpenDep { origin: Option::Some(origin), dep: clone_dep(d) });
            proof {
                assert(r@[r@.len() - 1]@.dep == cand@.deps[j as int]);
            }
        }
        proof {
            assert forall|jj: int|
                0 <= jj < j + 1 && dep_wanted(
                    #[trigger] cand@.deps[jj],
                    cand@.features,
                    activated.deep_view(),
                    targets.deep_view(),
                ) implies (exists|t: int|
                0 <= t < r@.len() && (#[trigger] r@[t])@.origin == Option::Some(origin as int)
                    && r@[t]@.dep == cand@.deps[jj]) by {
                if jj < j {
                    let t = choose|t: int|
                        0 <= t < r_before.len() && (#[trigger] r_before[t])@.origin
                            == Option::Some(origin as int) && r_before[t]@.dep == cand@.deps[jj];
                    assert(r@[t] == r_before[t]);
                } else {
                    assert(r@[r@.len() - 1]@.dep == cand@.deps[jj]);
                }
            }
        }
        j = j + 1;
    }
    r
}

/// The optional dependencies newly enabled by a feature union: enabled under
/// the new activation but not the old one.
fn newly_opened_deps(
    summary: &Summary,
    act_old: &Vec<Vec<u8>>,
    act_new: &Vec<Vec<u8>>,
    targets: &Vec<Vec<u8>>,
    origin: usize,
) -> (r: Vec<OpenDep>)
    ensures
        forall|i: int| 0 <= i < r@.len() ==> (#[trigger] r@[i])@.origin == Option::Some(
            origin as int,
        ),
        forall|jj: int|
            0 <= jj < summary@.deps.len() && (#[trigger] summary@.deps[jj]).optional
                && dep_relevant(summary@.deps[jj], targets.deep_view()) && dep_enabled(
                summary@.features,
                act_new.deep_view(),
                summary@.deps[jj].name,
            ) && !dep_enabled(summary@.features, act_old.deep_view(), summary@.deps[jj].name)
                ==> (exists|t: int|
                0 <= t < r@.len() && (#[trigger] r@[t])@.origin == Option::Some(origin as int)
                    && r@[t]@.dep == summary@.deps[jj]),
{
    let mut r: Vec<OpenDep> = Vec::new();
    let n = summary.deps.len();
    let mut j: usize = 0;
    while j < n
        invariant
            n == summary.deps@.len(),
            0 <= j <= n,
            forall|i: int| 0 <= i < r@.len() ==> (#[trigger] r@[i])@.origin == Option::Some(
                origin as int,
            ),
            forall|jj: int|
                0 <= jj < j && (#[trigger] summary@.deps[jj]).optional && dep_relevant(
                    summary@.deps[jj],
                    targets.deep_view(),
                ) && dep_enabled(summary@.features, act_new.deep_view(), summary@.deps[jj].name)
                    && !dep_enabled(
                    summary@.features,
                    act_old.deep_view(),
                    summary@.deps[jj].name,
                ) ==> (exists|t: int|
                    0 <= t < r@.len() && (#[trigger] r@[t])@.origin == Option::Some(origin as int)
                        && r@[t]@.dep == summary@.deps[jj]),
        decreases n - j,
    {
        let d = &summary.deps[j];
        let wanted = d.optional && is_relevant(d, targets) && is_enabled(
            &summary.features,
            act_new,
            &d.name,
        ) && !is_enabled(&summary.features, act_old, &d.name);
        proof {
            assert(summary@.deps[j as int] == summary.deps@[j as int]@);
            assert(summary.features.deep_view() =~= summary@.features);
        }
        let ghost r_before = r@;
        if wanted {
            r.push(OpenDep { origin: Option::Some(origin), dep: clone_dep(d) });
            proof {
                assert(r@[r@.len() - 1]@.dep == summary@.deps[j as int]);
            }
        }
        proof {
            assert forall|jj: int|
                0 <= jj < j + 1 && (#[trigger] summary@.deps[jj]).optional && dep_relevant(
                    summary@.deps[jj],
                    targets.deep_view(),
                ) && dep_enabled(summary@.features, act_new.deep_view(), summary@.deps[jj].name)
                    && !dep_enabled(
                    summary@.features,
                    act_old.deep_view(),
                    summary@.deps[jj].name,
                ) implies (exists|t: int|
                0 <= t < r@.len() && (#[trigger] r@[t])@.origin == Option::Some(origin as int)
                    && r@[t]@.dep == summary@.deps[jj]) by {
                if jj < j {
                    let t = choose|t: int|
                        0 <= t < r_before.len() && (#[trigger] r_before[t])@.origin
                            == Option::Some(origin as int) && r_before[t]@.dep == summary@.deps[jj];
                    assert(r@[t] == r_before[t]);
                } else {
                    assert(r@[r@.len() - 1]@.dep == summary@.deps[jj]);
                }
            }
        }
        j = j + 1;
    }
    r
}

/// Appends open dependencies whose origins are all in range.
fn append_open(open: &mut Vec<OpenDep>, extra: Vec<OpenDep>, Ghost(bound): Ghost<int>)
    requires
        forall|i: int|
            0 <= i < old(open)@.len() ==> ((#[trigger] old(open)@[i])@.origin matches Option::Some(
                k,
            ) ==> 0 <= k < bound),
        forall|i: int|
            0 <= i < extra@.len() ==> ((#[trigger] extra@[i])@.origin matches Option::Some(k) ==> 0
                <= k < bound),
    ensures
        final(open)@.len() == old(open)@.len() + extra@.len(),
        forall|i: int| 0 <= i < old(open)@.len() ==> #[trigger] final(open)@[i] == old(open)@[i],
        forall|i: int| 0 <= i < extra@.len() ==> (#[trigger] final(open)@[old(open)@.len() + i])@
            == extra@[i]@,
        forall|i: int|
            0 <= i < final(open)@.len() ==> ((#[trigger] final(open)@[i])@.origin
                matches Option::Some(k) ==> 0 <= k < bound),
{
    let mut extra = extra;
    let n = extra.len();
    let ghost base = open@;
    let mut j: usize = 0;
    while j < n
        invariant
            n == extra@.len(),
            0 <= j <= n,
            open@.len() == base.len() + j,
            forall|i: int| 0 <= i < base.len() ==> #[trigger] open@[i] == base[i],
            forall|i: int| 0 <= i < j ==> (#[trigger] open@[base.len() + i])@ == extra@[i]@,
            forall|i: int|
                0 <= i < open@.len() ==> ((#[trigger] open@[i])@.origin matches Option::Some(k)
                    ==> 0 <= k < bound),
            forall|i: int|
                0 <= i < extra@.len() ==> ((#[trigger] extra@[i])@.origin matches Option::Some(k)
                    ==> 0 <= k < bound),
        decreases n - j,
    {
        open.push(clone_open_dep(&extra[j]));
        proof {
            assert(open@[open@.len() - 1]@ == extra@[j as int]@);
        }
        j = j + 1;
    }
}

/// Removing one open dependency and carrying it as pending keeps every root
/// covered.
proof fn lemma_covered_after_remove(
    roots: Seq<DependencyV>,
    targets: Seq<Seq<u8>>,
    edges: Seq<EdgeRecV>,
    open: Seq<OpenDepV>,
    m: int,
)
    requires
        0 <= m < open.len(),
        roots_covered(roots, targets, edges, open),
    ensures
        roots_covered(roots, targets, edges, open.remove(m).push(open[m])),
{
    let open2 = open.remove(m).push(open[m]);
    assert forall|r: int|
        0 <= r < roots.len() && dep_relevant(#[trigger] roots[r], targets)
            && !roots[r].optional implies (exists|e: int|
        0 <= e < edges.len() && edges[e].origin is None && edges[e].edge.dep == roots[r]) || (
    exists|o: int|
        0 <= o < open2.len() && open2[o].origin is None && open2[o].dep == roots[r]) by {
        if !(exists|e: int|
            0 <= e < edges.len() && edges[e].origin is None && edges[e].edge.dep == roots[r]) {
            let o = choose|o: int|
                0 <= o < open.len() && open[o].origin is None && open[o].dep == roots[r];
            if o == m {
                assert(open2[open2.len() - 1] == open[m]);
            } else if o < m {
                assert(open2[o] == open[o]);
            } else {
                assert(open2[o - 1] == open[o]);
            }
        }
    }
}

/// Removing one open dependency and carrying it as pending keeps every slot
/// covered.
proof fn lemma_slots_covered_after_remove(
    slots: Seq<SlotV>,
    targets: Seq<Seq<u8>>,
    edges: Seq<EdgeRecV>,
    open: Seq<OpenDepV>,
    m: int,
)
    requires
        0 <= m < open.len(),
        slots_covered(slots, edges, open, targets),
    ensures
        slots_covered(slots, edges, open.remove(m).push(open[m]), targets),
{
    let open2 = open.remove(m).push(open[m]);
    assert forall|i: int, j: int|
        0 <= i < slots.len() && 0 <= j < slots[i].summary.deps.len() && dep_wanted(
            #[trigger] slots[i].summary.deps[j],
            slots[i].summary.features,
            slots[i].activated,
            targets,
        ) implies (exists|e: int|
        0 <= e < edges.len() && edges[e].origin == Option::Some(i) && edges[e].edge.dep == slots[i].summary.deps[j]) || (exists|o: int|
        0 <= o < open2.len() && open2[o].origin == Option::Some(i) && open2[o].dep == slots[i].summary.deps[j]) by {
        let dep_j = slots[i].summary.deps[j];
        if !(exists|e: int|
            0 <= e < edges.len() && edges[e].origin == Option::Some(i) && edges[e].edge.dep
                == dep_j) {
            let o = choose|o: int|
                0 <= o < open.len() && open[o].origin == Option::Some(i) && open[o].dep == dep_j;
            if o == m {
                assert(open2[open2.len() - 1] == open[m]);
            } else if o < m {
                assert(open2[o] == open[o]);
            } else {
                assert(open2[o - 1] == open[o]);
            }
        }
    }
}

/// Tries to commit one candidate for the pending dependency `od`: verifies
/// that the candidate occupies the demanded slot and satisfies the
/// requirement and that the slot is still free, then chooses it, records the
/// edge, activates the requested features, and opens the candidate's own
/// relevant dependencies. Returns false, leaving the state unchanged, when
/// the candidate does not fit.
fn commit_candidate(
    slots: &mut Vec<Slot>,
    edges: &mut Vec<EdgeRec>,
    open: &mut Vec<OpenDep>,
    od: &OpenDep,
    cand: &Summary,
    targets: &Vec<Vec<u8>>,
    Ghost(roots): Ghost<Seq<DependencyV>>,
    Ghost(reg): Ghost<PackageRegistry>,
) -> (ok: bool)
    requires
        state_ok(
            slot_models(old(slots)@),
            edge_rec_models(old(edges)@),
            open_models(old(open)@),
        ),
        roots_covered(
            roots,
            targets.deep_view(),
            edge_rec_models(old(edges)@),
            open_models(old(open)@).push(od@),
        ),
        slots_covered(
            slot_models(old(slots)@),
            edge_rec_models(old(edges)@),
            open_models(old(open)@).push(od@),
            targets.deep_view(),
        ),
        slots_admissible(slot_models(old(slots)@), reg),
        reg.candidates_spec(od@.dep).contains(cand@),
        od@.origin matches Option::Some(k) ==> 0 <= k < old(slots)@.len(),
    ensures
        state_ok(slot_models(final(slots)@), edge_rec_models(final(edges)@), open_models(final(open)@)),
        ok ==> roots_covered(
            roots,
            targets.deep_view(),
            edge_rec_models(final(edges)@),
            open_models(final(open)@),
        ),
        ok ==> slots_covered(
            slot_models(final(slots)@),
            edge_rec_models(final(edges)@),
            open_models(final(open)@),
            targets.deep_view(),
        ),
        slots_admissible(slot_models(final(slots)@), reg),
        (cand@.pid.name == od@.dep.name && req_matches(od@.dep.req, cand@.pid.version) && (forall|
        k: int|
            0 <= k < old(slots)@.len() ==> !same_slot(
                (#[trigger] slot_models(old(slots)@)[k]).pid,
                cand@.pid,
            ))) ==> ok,
        ok ==> final(slots)@.len() == old(slots)@.len() + 1 && slot_models(final(slots)@)[old(
            slots,
        )@.len() as int].summary == cand@ && final(open)@.len() <= old(open)@.len()
            + cand@.deps.len(),
        !ok ==> final(slots)@ == old(slots)@ && final(edges)@ == old(edges)@ && final(open)@ == old(
            open,
        )@,
{
    let fits = bytes_eq(&cand.pid.name, &od.dep.name) && matches_req(
        &od.dep.req,
        &cand.pid.version,
    );
    if !fits {
        return false;
    }
    if slot_taken(slots, &cand.pid) {
        return false;
    }
    let idx = slots.len();
    let activated = activated_features(&cand.features, &od.dep.features);
    let ghost actv = activated.deep_view();
    let opened = opened_deps(cand, &activated, targets, idx);
    let ghost openedv = opened@;
    let ghost slots_before = slot_models(slots@);
    let ghost edges_before = edge_rec_models(edges@);
    let ghost open_before = open_models(open@);
    slots.push(
        Slot {
            pid: clone_pid(&cand.pid),
            summary: clone_summary(cand),
            activated,
            cause: od.origin,
            cause_dep: clone_dep(&od.dep),
        },
    );
    proof {
        assert(slot_models(slots@) =~= slots_before.push(slots@[slots@.len() - 1]@));
        assert(slot_models(slots@)[idx as int].pid == cand.pid@);
    }
    edges.push(
        EdgeRec {
            origin: od.origin,
            edge: Edge { dep: clone_dep(&od.dep), target: clone_pid(&cand.pid) },
        },
    );
    proof {
        assert(edge_rec_models(edges@) =~= edges_before.push(edges@[edges@.len() - 1]@));
        let new_edge = edge_rec_models(edges@)[edges_before.len() as int];
        assert(new_edge.edge.dep == od.dep@ && new_edge.edge.target == cand.pid@);
        assert(new_edge.origin == od@.origin);
    }
    proof {
        assert forall|i: int|
            0 <= i < open@.len() implies ((#[trigger] open@[i])@.origin matches Option::Some(kk)
            ==> 0 <= kk < slots@.len() as int) by {
            assert(open_models(open@)[i] == open@[i]@);
        }
    }
    append_open(open, opened, Ghost(slots@.len() as int));
    proof {
        let slots_now = slot_models(slots@);
        let edges_now = edge_rec_models(edges@);
        let open_now = open_models(open@);
        // slot keys stay distinct: the freed check said no existing slot
        // holds the candidate's (name, source) pair
        assert forall|i: int, j: int|
            0 <= i < j < slots_now.len() implies !same_slot(
            (#[trigger] slots_now[i]).pid,
            (#[trigger] slots_now[j]).pid,
        ) by {
            if j == slots_now.len() - 1 {
                assert(slots_now[i] == slots_before[i]);
            } else {
                assert(slots_now[i] == slots_before[i]);
                assert(slots_now[j] == slots_before[j]);
            }
        }
        // all edges stay valid and keep their targets among the slots
        assert forall|i: int|
            0 <= i < edges_now.len() implies edge_ok((#[trigger] edges_now[i]).edge)
            && slots_have_pid(slots_now, edges_now[i].edge.target) && (edges_now[i].origin
            matches Option::Some(o) ==> 0 <= o < slots_now.len()) by {
            if i < edges_before.len() {
                assert(edges_now[i] == edges_before[i]);
                let k = choose|k: int|
                    0 <= k < slots_before.len() && slots_before[k].pid == edges_before[i].edge.target;
                assert(slots_now[k].pid == edges_now[i].edge.target);
            } else {
                assert(slots_now[idx as int].pid == edges_now[i].edge.target);
            }
        }
        assert forall|i: int|
            0 <= i < slots_now.len() implies ((#[trigger] slots_now[i]).cause
            matches Option::Some(c) ==> 0 <= c < i) by {
            if i < slots_before.len() {
                assert(slots_now[i] == slots_before[i]);
            }
        }
        assert forall|i: int| 0 <= i < slots_now.len() implies (#[trigger] slots_now[i]).pid.name
            == slots_now[i].cause_dep.name by {
            if i < slots_before.len() {
                assert(slots_now[i] == slots_before[i]);
            }
        }
        assert forall|i: int| 0 <= i < slots_now.len() implies reg.candidates_spec(
            (#[trigger] slots_now[i]).cause_dep,
        ).contains(slots_now[i].summary) by {
            if i < slots_before.len() {
                assert(slots_now[i] == slots_before[i]);
            } else {
                assert(slots_now[i].cause_dep == od@.dep);
                assert(slots_now[i].summary == cand@);
            }
        }
        assert forall|i: int| 0 <= i < slots_now.len() implies (#[trigger] slots_now[i]).summary.pid
            == slots_now[i].pid by {
            if i < slots_before.len() {
                assert(slots_now[i] == slots_before[i]);
            } else {
                assert(slots_now[i].summary == cand@);
                assert(slots_now[i].pid == cand.pid@);
            }
        }
        // every wanted dependency of every slot keeps its edge or open entry;
        // the pending dependency gains its edge, and the new slot's wanted
        // dependencies were all just opened
        assert forall|i: int, j: int|
            0 <= i < slots_now.len() && 0 <= j < slots_now[i].summary.deps.len() && dep_wanted(
                #[trigger] slots_now[i].summary.deps[j],
                slots_now[i].summary.features,
                slots_now[i].activated,
                targets.deep_view(),
            ) implies (exists|e: int|
            0 <= e < edges_now.len() && edges_now[e].origin == Option::Some(i)
                && edges_now[e].edge.dep == slots_now[i].summary.deps[j]) || (exists|o: int|
            0 <= o < open_now.len() && open_now[o].origin == Option::Some(i) && open_now[o].dep
                == slots_now[i].summary.deps[j]) by {
            let dep_j = slots_now[i].summary.deps[j];
            if i < slots_before.len() {
                assert(slots_now[i] == slots_before[i]);
                let old_open_p = open_before.push(od@);
                if exists|e: int|
                    0 <= e < edges_before.len() && edges_before[e].origin == Option::Some(i)
                        && edges_before[e].edge.dep == dep_j {
                    let e = choose|e: int|
                        0 <= e < edges_before.len() && edges_before[e].origin == Option::Some(i)
                            && edges_before[e].edge.dep == dep_j;
                    assert(edges_now[e] == edges_before[e]);
                } else {
                    let o = choose|o: int|
                        0 <= o < old_open_p.len() && old_open_p[o].origin == Option::Some(i)
                            && old_open_p[o].dep == dep_j;
                    if o < open_before.len() {
                        assert(open_now[o] == open_before[o]);
                    } else {
                        assert(old_open_p[o] == od@);
                        assert(edges_now[edges_before.len() as int].origin == Option::Some(i));
                        assert(edges_now[edges_before.len() as int].edge.dep == dep_j);
                    }
                }
            } else {
                assert(slots_now[i] == slots_now[slots_now.len() - 1]);
                assert(slots_now[i].summary == cand@);
                assert(slots_now[i].activated == actv);
                assert(dep_j == cand@.deps[j]);
                assert(dep_wanted(
                    cand@.deps[j],
                    cand@.features,
                    actv,
                    targets.deep_view(),
                ));
                let t = choose|t: int|
                    0 <= t < openedv.len() && (#[trigger] openedv[t])@.origin == Option::Some(
                        idx as int,
                    ) && openedv[t]@.dep == cand@.deps[j];
                assert(open_now[open_before.len() + t] == openedv[t]@);
            }
        }
        // every root either has its edge already, still waits on the open
        // list, or was the pending dependency just satisfied by this commit
        assert forall|r: int|
            0 <= r < roots.len() && dep_relevant(#[trigger] roots[r], targets.deep_view())
                && !roots[r].optional implies (exists|e: int|
            0 <= e < edges_now.len() && edges_now[e].origin is None && edges_now[e].edge.dep
                == roots[r]) || (exists|o: int|
            0 <= o < open_now.len() && open_now[o].origin is None && open_now[o].dep == roots[r]) by {
            let old_open_p = open_before.push(od@);
            if exists|e: int|
                0 <= e < edges_before.len() && edges_before[e].origin is None && edges_before[e].edge.dep == roots[r] {
                let e = choose|e: int|
                    0 <= e < edges_before.len() && edges_before[e].origin is None && edges_before[e].edge.dep == roots[r];
                assert(edges_now[e] == edges_before[e]);
            } else {
                let o = choose|o: int|
                    0 <= o < old_open_p.len() && old_open_p[o].origin is None && old_open_p[o].dep
                        == roots[r];
                if o < open_before.len() {
                    assert(open_now[o] == open_before[o]);
                } else {
                    assert(old_open_p[o] == od@);
                    assert(edges_now[edges_before.len() as int].origin is None);
                    assert(edges_now[edges_before.len() as int].edge.dep == roots[r]);
                }
            }
        }
    }
    true
}

/// Tries to satisfy `od` from the already chosen slot `k`: when the slot's
/// version satisfies the requirement, records the edge, unions the newly
/// requested features into the slot (feature sets grow monotonically), and
/// re-opens any optional dependencies the union unlocked. Returns false,
/// leaving the state unchanged, when the chosen version conflicts.
fn attach_to_slot(
    slots: &mut Vec<Slot>,
    edges: &mut Vec<EdgeRec>,
    open: &mut Vec<OpenDep>,
    od: &OpenDep,
    k: usize,
    targets: &Vec<Vec<u8>>,
    Ghost(roots): Ghost<Seq<DependencyV>>,
    Ghost(reg): Ghost<PackageRegistry>,
) -> (ok: bool)
    requires
        state_ok(
            slot_models(old(slots)@),
            edge_rec_models(old(edges)@),
            open_models(old(open)@),
        ),
        roots_covered(
            roots,
            targets.deep_view(),
            edge_rec_models(old(edges)@),
            open_models(old(open)@).push(od@),
        ),
        slots_covered(
            slot_models(old(slots)@),
            edge_rec_models(old(edges)@),
            open_models(old(open)@).push(od@),
            targets.deep_view(),
        ),
        slots_admissible(slot_models(old(slots)@), reg),
        od@.origin matches Option::Some(o) ==> 0 <= o < old(slots)@.len(),
        k < old(slots)@.len(),
        slot_models(old(slots)@)[k as int].pid.name == od@.dep.name,
    ensures
        state_ok(slot_models(final(slots)@), edge_rec_models(final(edges)@), open_models(final(open)@)),
        ok ==> roots_covered(
            roots,
            targets.deep_view(),
            edge_rec_models(final(edges)@),
            open_models(final(open)@),
        ),
        ok ==> slots_covered(
            slot_models(final(slots)@),
            edge_rec_models(final(edges)@),
            open_models(final(open)@),
            targets.deep_view(),
        ),
        slots_admissible(slot_models(final(slots)@), reg),
        !ok ==> final(slots)@ == old(slots)@ && final(edges)@ == old(edges)@ && final(open)@ == old(
            open,
        )@,
{
    let fits = matches_req(&od.dep.req, &slots[k].pid.version);
    proof {
        assert(slots@[k as int]@ == slot_models(slots@)[k as int]);
    }
    if !fits {
        return false;
    }
    let ghost slots_before = slot_models(slots@);
    let ghost edges_before = edge_rec_models(edges@);
    let ghost open_before = open_models(open@);
    // union the newly requested features into the slot, monotonically
    let mut s = slots.remove(k);
    let ghost act_old_dv = s.activated.deep_view();
    let mut requested = crate::model::clone_byte_list(&s.activated);
    let nf = od.dep.features.len();
    let mut fi: usize = 0;
    while fi < nf
        invariant
            nf == od.dep.features@.len(),
            0 <= fi <= nf,
            requested.deep_view().len() >= act_old_dv.len(),
            forall|t: int| 0 <= t < act_old_dv.len() ==> #[trigger] requested.deep_view()[t]
                == act_old_dv[t],
        decreases nf - fi,
    {
        let ghost before = requested.deep_view();
        requested.push(clone_bytes(&od.dep.features[fi]));
        proof {
            assert(requested.deep_view() =~= before.push(
                requested.deep_view()[requested.deep_view().len() - 1],
            ));
        }
        fi = fi + 1;
    }
    let act_new = activated_features(&s.summary.features, &requested);
    proof {
        // the old activation set survives the union: feature sets grow
        // monotonically
        assert forall|t: int| 0 <= t < act_old_dv.len() implies act_new.deep_view().contains(
            #[trigger] act_old_dv[t],
        ) by {
            assert(requested.deep_view()[t] == act_old_dv[t]);
        }
    }
    let newly = newly_opened_deps(&s.summary, &s.activated, &act_new, targets, k);
    let ghost newlyv = newly@;
    let ghost act_new_dv = act_new.deep_view();
    s.activated = act_new;
    let ghost s_model = s@;
    slots.insert(k, s);
    proof {
        assert(slot_models(slots@) =~= slots_before.update(k as int, s_model));
        assert(s_model.pid == slots_before[k as int].pid);
        assert(s_model.cause == slots_before[k as int].cause);
        assert(s_model.cause_dep == slots_before[k as int].cause_dep);
        assert(s_model.summary == slots_before[k as int].summary);
        assert(s_model.activated == act_new_dv);
        assert(act_old_dv == slots_before[k as int].activated);
    }
    edges.push(
        EdgeRec {
            origin: od.origin,
            edge: Edge { dep: clone_dep(&od.dep), target: clone_pid(&slots[k].pid) },
        },
    );
    proof {
        assert(edge_rec_models(edges@) =~= edges_before.push(edges@[edges@.len() - 1]@));
        let new_edge = edge_rec_models(edges@)[edges_before.len() as int];
        assert(new_edge.edge.dep == od.dep@);
        assert(new_edge.edge.target == slot_models(slots@)[k as int].pid);
        assert(new_edge.origin == od@.origin);
    }
    proof {
        assert forall|i: int|
            0 <= i < open@.len() implies ((#[trigger] open@[i])@.origin matches Option::Some(kk)
            ==> 0 <= kk < slots@.len() as int) by {
            assert(open_models(open@)[i] == open@[i]@);
        }
    }
    append_open(open, newly, Ghost(slots@.len() as int));
    proof {
        let slots_now = slot_models(slots@);
        let edges_now = edge_rec_models(edges@);
        let open_now = open_models(open@);
        assert(slots_now.len() == slots_before.len());
        assert forall|i: int| 0 <= i < slots_now.len() implies (#[trigger] slots_now[i]).pid
            == slots_before[i].pid && slots_now[i].cause == slots_before[i].cause by {
            if i != k {
                assert(slots_now[i] == slots_before[i]);
            }
        }
        assert forall|i: int| 0 <= i < slots_now.len() implies (#[trigger] slots_now[i]).pid.name
            == slots_now[i].cause_dep.name by {
            if i != k {
                assert(slots_now[i] == slots_before[i]);
            }
        }
        assert forall|i: int| 0 <= i < slots_now.len() implies reg.candidates_spec(
            (#[trigger] slots_now[i]).cause_dep,
        ).contains(slots_now[i].summary) by {
            if i != k {
                assert(slots_now[i] == slots_before[i]);
            } else {
                assert(slots_now[i].cause_dep == slots_before[i].cause_dep);
                assert(slots_now[i].summary == slots_before[i].summary);
            }
        }
        assert forall|i: int| 0 <= i < slots_now.len() implies (#[trigger] slots_now[i]).summary.pid
            == slots_now[i].pid by {
            if i != k {
                assert(slots_now[i] == slots_before[i]);
            } else {
                assert(slots_now[i].summary == slots_before[i].summary);
                assert(slots_now[i].pid == slots_before[i].pid);
            }
        }
        // coverage: previously wanted dependencies keep their witnesses; the
        // pending dependency gains its edge; dependencies the feature union
        // newly unlocked were just re-opened
        assert forall|i: int, j: int|
            0 <= i < slots_now.len() && 0 <= j < slots_now[i].summary.deps.len() && dep_wanted(
                #[trigger] slots_now[i].summary.deps[j],
                slots_now[i].summary.features,
                slots_now[i].activated,
                targets.deep_view(),
            ) implies (exists|e: int|
            0 <= e < edges_now.len() && edges_now[e].origin == Option::Some(i)
                && edges_now[e].edge.dep == slots_now[i].summary.deps[j]) || (exists|o: int|
            0 <= o < open_now.len() && open_now[o].origin == Option::Some(i) && open_now[o].dep
                == slots_now[i].summary.deps[j]) by {
            let dep_j = slots_now[i].summary.deps[j];
            let old_open_p = open_before.push(od@);
            let covered_old = dep_wanted(
                slots_before[i].summary.deps[j],
                slots_before[i].summary.features,
                slots_before[i].activated,
                targets.deep_view(),
            );
            if i != k {
                assert(slots_now[i] == slots_before[i]);
            } else {
                assert(slots_now[i].summary == slots_before[i].summary);
            }
            if covered_old {
                assert(slots_before[i].summary.deps[j] == dep_j);
                if exists|e: int|
                    0 <= e < edges_before.len() && edges_before[e].origin == Option::Some(i)
                        && edges_before[e].edge.dep == dep_j {
                    let e = choose|e: int|
                        0 <= e < edges_before.len() && edges_before[e].origin == Option::Some(i)
                            && edges_before[e].edge.dep == dep_j;
                    assert(edges_now[e] == edges_before[e]);
                } else {
                    let o = choose|o: int|
                        0 <= o < old_open_p.len() && old_open_p[o].origin == Option::Some(i)
                            && old_open_p[o].dep == dep_j;
                    if o < open_before.len() {
                        assert(open_now[o] == open_before[o]);
                    } else {
                        assert(old_open_p[o] == od@);
                        assert(edges_now[edges_before.len() as int].origin == Option::Some(i));
                        assert(edges_now[edges_before.len() as int].edge.dep == dep_j);
                    }
                }
            } else {
                // only the union on slot k can newly want a dependency, and
                // only an optional one whose feature just got enabled
                assert(i == k);
                assert(slots_now[i].activated == act_new_dv);
                assert(dep_j.optional);
                assert(dep_enabled(slots_now[i].summary.features, act_new_dv, dep_j.name));
                assert(!dep_enabled(slots_before[i].summary.features, act_old_dv, dep_j.name));
                let t = choose|t: int|
                    0 <= t < newlyv.len() && (#[trigger] newlyv[t])@.origin == Option::Some(
                        k as int,
                    ) && newlyv[t]@.dep == dep_j;
                assert(open_now[open_before.len() + t] == newlyv[t]@);
            }
        }
        assert forall|i: int|
            0 <= i < edges_now.len() implies edge_ok((#[trigger] edges_now[i]).edge)
            && slots_have_pid(slots_now, edges_now[i].edge.target) && (edges_now[i].origin
            matches Option::Some(o) ==> 0 <= o < slots_now.len()) by {
            if i < edges_before.len() {
                assert(edges_now[i] == edges_before[i]);
                let t = choose|t: int|
                    0 <= t < slots_before.len() && slots_before[t].pid == edges_before[i].edge.target;
                assert(slots_now[t].pid == edges_now[i].edge.target);
            } else {
                assert(slots_now[k as int].pid == edges_now[i].edge.target);
                assert(edge_ok(edges_now[i].edge));
            }
        }
        assert forall|r: int|
            0 <= r < roots.len() && dep_relevant(#[trigger] roots[r], targets.deep_view())
                && !roots[r].optional implies (exists|e: int|
            0 <= e < edges_now.len() && edges_now[e].origin is None && edges_now[e].edge.dep
                == roots[r]) || (exists|o: int|
            0 <= o < open_now.len() && open_now[o].origin is None && open_now[o].dep == roots[r]) by {
            let old_open_p = open_before.push(od@);
            if exists|e: int|
                0 <= e < edges_before.len() && edges_before[e].origin is None && edges_before[e].edge.dep == roots[r] {
                let e = choose|e: int|
                    0 <= e < edges_before.len() && edges_before[e].origin is None && edges_before[e].edge.dep == roots[r];
                assert(edges_now[e] == edges_before[e]);
            } else {
                let o = choose|o: int|
                    0 <= o < old_open_p.len() && old_open_p[o].origin is None && old_open_p[o].dep
                        == roots[r];
                if o < open_before.len() {
                    assert(open_now[o] == open_before[o]);
                } else {
                    assert(old_open_p[o] == od@);
                    assert(edges_now[edges_before.len() as int].origin is None);
                    assert(edges_now[edges_before.len() as int].edge.dep == roots[r]);
                }
            }
        }
    }
    true
}

/// The edges recorded for the workspace root, in recording order.
pub open spec fn root_edge_list(edgesv: Seq<EdgeRecV>) -> Seq<EdgeV>
    decreases edgesv.len(),
{
    if edgesv.len() == 0 {
        Seq::empty()
    } else {
        root_edge_list(edgesv.drop_last()) + (if edgesv.last().origin is None {
            seq![edgesv.last().edge]
        } else {
            Seq::empty()
        })
    }
}

/// Every edge of the root list is a recorded root-originated edge.
proof fn lemma_root_edge_list_sound(edgesv: Seq<EdgeRecV>, x: int)
    requires
        0 <= x < root_edge_list(edgesv).len(),
    ensures
        exists|jj: int|
            0 <= jj < edgesv.len() && (#[trigger] edgesv[jj]).origin is None && root_edge_list(
                edgesv,
            )[x] == edgesv[jj].edge,
    decreases edgesv.len(),
{
    if edgesv.len() > 0 {
        let prev = root_edge_list(edgesv.drop_last());
        if x < prev.len() {
            lemma_root_edge_list_sound(edgesv.drop_last(), x);
            let jj = choose|jj: int|
                0 <= jj < edgesv.drop_last().len() && (#[trigger] edgesv.drop_last()[jj]).origin
                    is None && prev[x] == edgesv.drop_last()[jj].edge;
            assert(edgesv[jj] == edgesv.drop_last()[jj]);
        } else {
            assert(edgesv[edgesv.len() - 1].origin is None);
            assert(root_edge_list(edgesv)[x] == edgesv[edgesv.len() - 1].edge);
        }
    }
}

/// Every recorded root-originated edge appears in the root list.
proof fn lemma_root_edge_list_complete(edgesv: Seq<EdgeRecV>, jj: int)
    requires
        0 <= jj < edgesv.len(),
        edgesv[jj].origin is None,
    ensures
        root_edge_list(edgesv).contains(edgesv[jj].edge),
    decreases edgesv.len(),
{
    if jj == edgesv.len() - 1 {
        let l = root_edge_list(edgesv);
        assert(l[l.len() - 1] == edgesv[jj].edge);
    } else {
        assert(edgesv.drop_last()[jj] == edgesv[jj]);
        lemma_root_edge_list_complete(edgesv.drop_last(), jj);
        let prev = root_edge_list(edgesv.drop_last());
        let t = choose|t: int| 0 <= t < prev.len() && prev[t] == edgesv[jj].edge;
        assert(root_edge_list(edgesv)[t] == edgesv[jj].edge);
    }
}

/// The edges recorded for the slot at index `t`, in recording order.
pub open spec fn slot_edge_list(edgesv: Seq<EdgeRecV>, t: int) -> Seq<EdgeV>
    decreases edgesv.len(),
{
    if edgesv.len() == 0 {
        Seq::empty()
    } else {
        slot_edge_list(edgesv.drop_last(), t) + (if edgesv.last().origin == Option::Some(t) {
            seq![edgesv.last().edge]
        } else {
            Seq::empty()
        })
    }
}

/// Every edge of a slot's list is a recorded edge of that slot.
proof fn lemma_slot_edge_list_sound(edgesv: Seq<EdgeRecV>, t: int, x: int)
    requires
        0 <= x < slot_edge_list(edgesv, t).len(),
    ensures
        exists|jj: int|
            0 <= jj < edgesv.len() && (#[trigger] edgesv[jj]).origin == Option::Some(t)
                && slot_edge_list(edgesv, t)[x] == edgesv[jj].edge,
    decreases edgesv.len(),
{
    if edgesv.len() > 0 {
        let prev = slot_edge_list(edgesv.drop_last(), t);
        if x < prev.len() {
            lemma_slot_edge_list_sound(edgesv.drop_last(), t, x);
            let jj = choose|jj: int|
                0 <= jj < edgesv.drop_last().len() && (#[trigger] edgesv.drop_last()[jj]).origin
                    == Option::Some(t) && prev[x] == edgesv.drop_last()[jj].edge;
            assert(edgesv[jj] == edgesv.drop_last()[jj]);
        } else {
            assert(edgesv[edgesv.len() - 1].origin == Option::Some(t));
            assert(slot_edge_list(edgesv, t)[x] == edgesv[edgesv.len() - 1].edge);
        }
    }
}

/// Every edge recorded for a slot appears in that slot's list.
proof fn lemma_slot_edge_list_complete(edgesv: Seq<EdgeRecV>, t: int, jj: int)
    requires
        0 <= jj < edgesv.len(),
        edgesv[jj].origin == Option::Some(t),
    ensures
        slot_edge_list(edgesv, t).contains(edgesv[jj].edge),
    decreases edgesv.len(),
{
    if jj == edgesv.len() - 1 {
        let l = slot_edge_list(edgesv, t);
        assert(l[l.len() - 1] == edgesv[jj].edge);
    } else {
        assert(edgesv.drop_last()[jj] == edgesv[jj]);
        lemma_slot_edge_list_complete(edgesv.drop_last(), t, jj);
        let prev = slot_edge_list(edgesv.drop_last(), t);
        let x = choose|x: int| 0 <= x < prev.len() && prev[x] == edgesv[jj].edge;
        assert(slot_edge_list(edgesv, t)[x] == edgesv[jj].edge);
    }
}

/// Assembles the resolve graph: one node per slot, each carrying the edges
/// recorded for it, and the root's own edges. Grouping loses no
/// root-originated edge.
#[verifier::rlimit(100)]
fn build_graph(slots: &Vec<Slot>, edges: &Vec<EdgeRec>, Ghost(targetsv): Ghost<Seq<Seq<u8>>>) -> (g:
    ResolveGraph)
    requires
        state_ok(slot_models(slots@), edge_rec_models(edges@), Seq::empty()),
        slots_covered(
            slot_models(slots@),
            edge_rec_models(edges@),
            Seq::empty(),
            targetsv,
        ),
    ensures
        graph_wf(g@),
        graph_closed(g@, targetsv),
        g@.nodes.len() == slots@.len(),
        forall|t: int|
            0 <= t < g@.nodes.len() ==> (#[trigger] g@.nodes[t]).summary == slot_models(
                slots@,
            )[t].summary && g@.nodes[t].cause_dep == slot_models(slots@)[t].cause_dep
                && g@.nodes[t].pid == slot_models(slots@)[t].pid,
        forall|j: int|
            0 <= j < edges@.len() && (#[trigger] edges@[j])@.origin is None ==> (exists|e: int|
                0 <= e < g@.root_edges.len() && g@.root_edges[e] == edges@[j]@.edge),
{
    let ghost slotsv = slot_models(slots@);
    let ghost edgesv = edge_rec_models(edges@);
    let ne = edges.len();
    let ns = slots.len();
    let mut nodes: Vec<ResolveNode> = Vec::new();
    let mut i: usize = 0;
    while i < ns
        invariant
            slotsv == slot_models(slots@),
            edgesv == edge_rec_models(edges@),
            ne == edges@.len(),
            ns == slots@.len(),
            0 <= i <= ns,
            nodes@.len() == i,
            forall|t: int| 0 <= t < i ==> (#[trigger] nodes@[t])@.pid == slotsv[t].pid
                && nodes@[t]@.summary == slotsv[t].summary && nodes@[t]@.activated == slotsv[t].activated && nodes@[t]@.cause_dep == slotsv[t].cause_dep,
            forall|t: int| 0 <= t < i ==> (#[trigger] nodes@[t])@.edges == slot_edge_list(
                edgesv,
                t,
            ),
        decreases ns - i,
    {
        let mut es: Vec<Edge> = Vec::new();
        let mut j: usize = 0;
        proof {
            assert(edge_models(es@) =~= slot_edge_list(edgesv.subrange(0, 0), i as int));
        }
        while j < ne
            invariant
                edgesv == edge_rec_models(edges@),
                ne == edges@.len(),
                0 <= j <= ne,
                edge_models(es@) == slot_edge_list(edgesv.subrange(0, j as int), i as int),
            decreases ne - j,
        {
            let er = &edges[j];
            let mine = match er.origin {
                Option::Some(o) => o == i,
                Option::None => false,
            };
            proof {
                assert(er@ == edgesv[j as int]);
            }
            if mine {
                let c = clone_edge(&er.edge);
                proof {
                    assert(c@ == edgesv[j as int].edge);
                }
                es.push(c);
            }
            proof {
                let prev = edgesv.subrange(0, j as int);
                let cur = edgesv.subrange(0, j as int + 1);
                assert(cur.drop_last() =~= prev);
                assert(cur.last() == edgesv[j as int]);
                if mine {
                    assert(edge_models(es@) =~= slot_edge_list(prev, i as int).push(
                        edgesv[j as int].edge,
                    ));
                    assert(slot_edge_list(cur, i as int) =~= slot_edge_list(prev, i as int)
                        + seq![edgesv[j as int].edge]);
                    assert(edge_models(es@) =~= slot_edge_list(cur, i as int));
                } else {
                    assert(slot_edge_list(cur, i as int) =~= slot_edge_list(prev, i as int));
                }
            }
            j = j + 1;
        }
        proof {
            assert(edgesv.subrange(0, ne as int) =~= edgesv);
        }
        let ghost esv = es@;
        let slot = &slots[i];
        nodes.push(
            ResolveNode {
                pid: clone_pid(&slot.pid),
                summary: clone_summary(&slot.summary),
                activated: crate::model::clone_byte_list(&slot.activated),
                cause_dep: clone_dep(&slot.cause_dep),
                edges: es,
            },
        );
        proof {
            assert(slotsv[i as int] == slots@[i as int]@);
            assert(nodes@[i as int]@.pid == slotsv[i as int].pid);
            assert(nodes@[i as int]@.summary == slotsv[i as int].summary);
            assert(nodes@[i as int]@.activated == slotsv[i as int].activated);
            assert(nodes@[i as int]@.cause_dep == slotsv[i as int].cause_dep);
            assert(nodes@[i as int].edges@ == esv);
            assert(nodes@[i as int]@.edges =~= edge_models(esv));
            assert(nodes@[i as int]@.edges == slot_edge_list(edgesv, i as int));
        }
        i = i + 1;
    }
    let mut root_edges: Vec<Edge> = Vec::new();
    let mut j: usize = 0;
    proof {
        assert(edge_models(root_edges@) =~= root_edge_list(edgesv.subrange(0, 0)));
    }
    while j < ne
        invariant
            edgesv == edge_rec_models(edges@),
            ne == edges@.len(),
            0 <= j <= ne,
            edge_models(root_edges@) == root_edge_list(edgesv.subrange(0, j as int)),
        decreases ne - j,
    {
        let er = &edges[j];
        let mine = match er.origin {
            Option::Some(_) => false,
            Option::None => true,
        };
        proof {
            assert(er@ == edgesv[j as int]);
        }
        if mine {
            let c = clone_edge(&er.edge);
            proof {
                assert(c@ == edgesv[j as int].edge);
            }
            root_edges.push(c);
        }
        proof {
            let prev = edgesv.subrange(0, j as int);
            let cur = edgesv.subrange(0, j as int + 1);
            assert(cur.drop_last() =~= prev);
            assert(cur.last() == edgesv[j as int]);
            if mine {
                assert(edge_models(root_edges@) =~= root_edge_list(prev).push(
                    edgesv[j as int].edge,
                ));
                assert(root_edge_list(cur) =~= root_edge_list(prev) + seq![edgesv[j as int].edge]);
                assert(edge_models(root_edges@) =~= root_edge_list(cur));
            } else {
                assert(root_edge_list(cur) =~= root_edge_list(prev));
            }
        }
        j = j + 1;
    }
    proof {
        assert(edgesv.subrange(0, ne as int) =~= edgesv);
    }
    let g = ResolveGraph { root_edges, nodes };
    proof {
        let gv = g@;
        assert(gv.nodes.len() == slotsv.len());
        assert forall|t: int| 0 <= t < gv.nodes.len() implies (#[trigger] gv.nodes[t]).pid
            == slotsv[t].pid by {
            assert(gv.nodes[t] == g.nodes@[t]@);
        }
        assert(gv.root_edges =~= edge_models(g.root_edges@));
        assert(gv.root_edges == root_edge_list(edgesv));
        assert forall|e: int|
            0 <= e < gv.root_edges.len() implies (exists|jj: int|
            0 <= jj < edgesv.len() && edgesv[jj].origin is None && (#[trigger] gv.root_edges[e])
                == edgesv[jj].edge) by {
            lemma_root_edge_list_sound(edgesv, e);
        }
        assert forall|t: int| 0 <= t < gv.nodes.len() implies (#[trigger] gv.nodes[t]).edges
            == slot_edge_list(edgesv, t) && gv.nodes[t].summary == slotsv[t].summary
            && gv.nodes[t].activated == slotsv[t].activated && gv.nodes[t].cause_dep == slotsv[t].cause_dep by {
            assert(gv.nodes[t] == g.nodes@[t]@);
        }
        assert forall|t: int, x: int|
            0 <= t < gv.nodes.len() && 0 <= x < gv.nodes[t].edges.len() implies (exists|jj: int|
            0 <= jj < edgesv.len() && (#[trigger] gv.nodes[t].edges[x]) == edgesv[jj].edge) by {
            lemma_slot_edge_list_sound(edgesv, t, x);
            let jj = choose|jj: int|
                0 <= jj < edgesv.len() && (#[trigger] edgesv[jj]).origin == Option::Some(t)
                    && slot_edge_list(edgesv, t)[x] == edgesv[jj].edge;
            assert(gv.nodes[t].edges[x] == edgesv[jj].edge);
        }
        lemma_build_graph_wf(gv, slotsv, edgesv);
        // closedness: with the open list empty, every wanted dependency of
        // every slot has its recorded edge, and grouping keeps every such
        // edge on its node
        assert forall|t: int, j2: int|
            0 <= t < gv.nodes.len() && 0 <= j2 < gv.nodes[t].summary.deps.len() && dep_wanted(
                #[trigger] gv.nodes[t].summary.deps[j2],
                gv.nodes[t].summary.features,
                gv.nodes[t].activated,
                targetsv,
            ) implies (exists|x: int|
            0 <= x < gv.nodes[t].edges.len() && gv.nodes[t].edges[x].dep == gv.nodes[t].summary.deps[j2]) by {
            let dep_j = gv.nodes[t].summary.deps[j2];
            assert(dep_wanted(
                slotsv[t].summary.deps[j2],
                slotsv[t].summary.features,
                slotsv[t].activated,
                targetsv,
            ));
            let e = choose|e: int|
                0 <= e < edgesv.len() && (#[trigger] edgesv[e]).origin == Option::Some(t)
                    && edgesv[e].edge.dep == dep_j;
            lemma_slot_edge_list_complete(edgesv, t, e);
            let x = choose|x: int|
                0 <= x < slot_edge_list(edgesv, t).len() && slot_edge_list(edgesv, t)[x]
                    == edgesv[e].edge;
            assert(gv.nodes[t].edges[x].dep == dep_j);
        }
        assert forall|j2: int|
            0 <= j2 < edges@.len() && (#[trigger] edges@[j2])@.origin is None implies (exists|
            e: int|
            0 <= e < gv.root_edges.len() && gv.root_edges[e] == edges@[j2]@.edge) by {
            assert(edgesv[j2] == edges@[j2]@);
            lemma_root_edge_list_complete(edgesv, j2);
            let e = choose|e: int|
                0 <= e < gv.root_edges.len() && gv.root_edges[e] == edgesv[j2].edge;
        }
    }
    g
}

/// A graph whose nodes mirror the slots and whose edges all come from the
/// recorded edge list is well-formed.
proof fn lemma_build_graph_wf(gv: ResolveGraphV, slotsv: Seq<SlotV>, edgesv: Seq<EdgeRecV>)
    requires
        state_ok(slotsv, edgesv, Seq::empty()),
        gv.nodes.len() == slotsv.len(),
        forall|t: int| 0 <= t < gv.nodes.len() ==> (#[trigger] gv.nodes[t]).pid == slotsv[t].pid,
        forall|e: int|
            0 <= e < gv.root_edges.len() ==> (exists|jj: int|
                0 <= jj < edgesv.len() && edgesv[jj].origin is None && (#[trigger]
                gv.root_edges[e]) == edgesv[jj].edge),
        forall|t: int, x: int|
            0 <= t < gv.nodes.len() && 0 <= x < gv.nodes[t].edges.len() ==> (exists|jj: int|
                0 <= jj < edgesv.len() && (#[trigger] gv.nodes[t].edges[x]) == edgesv[jj].edge),
    ensures
        graph_wf(gv),
{
    assert forall|e: int|
        0 <= e < gv.root_edges.len() implies edge_ok(#[trigger] gv.root_edges[e])
        && nodes_have_pid(gv.nodes, gv.root_edges[e].target) by {
        let jj = choose|jj: int|
            0 <= jj < edgesv.len() && edgesv[jj].origin is None && gv.root_edges[e] == edgesv[jj].edge;
        let k = choose|k: int| 0 <= k < slotsv.len() && slotsv[k].pid == edgesv[jj].edge.target;
        assert(gv.nodes[k].pid == gv.root_edges[e].target);
    }
    assert forall|t: int, x: int|
        0 <= t < gv.nodes.len() && 0 <= x < gv.nodes[t].edges.len() implies edge_ok(
        #[trigger] gv.nodes[t].edges[x],
    ) && nodes_have_pid(gv.nodes, gv.nodes[t].edges[x].target) by {
        let jj = choose|jj: int|
            0 <= jj < edgesv.len() && (#[trigger] gv.nodes[t].edges[x]) == edgesv[jj].edge;
        let k = choose|k: int| 0 <= k < slotsv.len() && slotsv[k].pid == edgesv[jj].edge.target;
        assert(gv.nodes[k].pid == gv.nodes[t].edges[x].target);
    }
}

/// The conflicting dependency chain: the unsatisfiable dependency first,
/// then the dependency that selected each originating slot, back to the
/// workspace root.
#[verifier::spinoff_prover]
#[verifier::rlimit(60)]
fn build_chain(slots: &Vec<Slot>, od: &OpenDep) -> (chain: Vec<Dependency>)
    requires
        forall|i: int|
            0 <= i < slots@.len() ==> ((#[trigger] slot_models(slots@)[i]).cause
                matches Option::Some(c) ==> 0 <= c < i),
        od@.origin matches Option::Some(k) ==> 0 <= k < slots@.len(),
    ensures
        chain@.len() >= 1,
        chain@[0]@ == od@.dep,
        od@.origin matches Option::Some(k) ==> chain@.len() >= 2 && chain@[1]@ == slot_models(
            slots@,
        )[k].cause_dep,
{
    let mut chain: Vec<Dependency> = Vec::new();
    chain.push(clone_dep(&od.dep));
    let mut cur: Option<usize> = od.origin;
    loop
        invariant
            chain@.len() >= 1,
            chain@[0]@ == od@.dep,
            forall|i: int|
                0 <= i < slots@.len() ==> ((#[trigger] slot_models(slots@)[i]).cause
                    matches Option::Some(c) ==> 0 <= c < i),
            cur matches Option::Some(k) ==> 0 <= (k as int) < slots@.len(),
            od@.origin matches Option::Some(k) ==> (chain@.len() >= 2 && chain@[1]@
                == slot_models(slots@)[k].cause_dep) || (chain@.len() == 1 && cur == od.origin),
        ensures
            cur is None,
        decreases (match cur {
            Option::Some(k) => k as int + 1,
            Option::None => 0,
        }),
    {
        match cur {
            Option::None => {
                proof {
                    if od@.origin is Some {
                        assert(od.origin is Some);
                        assert(!(cur == od.origin));
                    }
                }
                break ;
            },
            Option::Some(k) => {
                chain.push(clone_dep(&slots[k].cause_dep));
                proof {
                    assert(slot_models(slots@)[k as int] == slots@[k as int]@);
                    assert(chain@[chain@.len() - 1]@ == slot_models(slots@)[k as int].cause_dep);
                }
                cur = slots[k].cause;
            },
        }
    }
    proof {
        if od@.origin is Some {
            assert(od.origin is Some);
            assert(!(cur == od.origin));
        }
    }
    chain
}

/// The index of an open dependency touching the fewest candidates, to fail
/// fast: no other open dependency has fewer candidates than the chosen one,
/// and on a tie the earliest is chosen.
fn pick_open(registry: &PackageRegistry, open: &Vec<OpenDep>) -> (m: usize)
    requires
        registry.wf(),
        open@.len() > 0,
    ensures
        m < open@.len(),
        forall|j: int| 0 <= j < open@.len() ==> registry.candidates_spec(
            (#[trigger] open@[j])@.dep,
        ).len() >= registry.candidates_spec(open@[m as int]@.dep).len(),
        forall|j: int| 0 <= j < m ==> registry.candidates_spec((#[trigger] open@[j])@.dep).len()
            > registry.candidates_spec(open@[m as int]@.dep).len(),
{
    let n = open.len();
    let first = registry.query(&open[0].dep);
    let mut best: usize = 0;
    let mut best_count: usize = first.len();
    proof {
        assert(best_count == registry.candidates_spec(open@[0]@.dep).len());
    }
    let mut j: usize = 1;
    while j < n
        invariant
            registry.wf(),
            n == open@.len(),
            n > 0,
            best < j,
            1 <= j <= n,
            best_count == registry.candidates_spec(open@[best as int]@.dep).len(),
            forall|t: int| 0 <= t < j ==> registry.candidates_spec(
                (#[trigger] open@[t])@.dep,
            ).len() >= best_count,
            forall|t: int| 0 <= t < best ==> registry.candidates_spec(
                (#[trigger] open@[t])@.dep,
            ).len() > best_count,
        decreases n - j,
    {
        let cands = registry.query(&open[j].dep);
        let c = cands.len();
        proof {
            assert(c == registry.candidates_spec(open@[j as int]@.dep).len());
        }
        if c < best_count {
            best = j;
            best_count = c;
        }
        j = j + 1;
    }
    best
}

/// One decision point of the backtracking search: the state to restore, the
/// candidates not yet tried, and the dependency being satisfied.
struct Decision {
    slots: Vec<Slot>,
    edges: Vec<EdgeRec>,
    open: Vec<OpenDep>,
    candidates: Vec<Summary>,
    next: usize,
    od: OpenDep,
}

/// A decision point's snapshot is a consistent state in which its pending
/// dependency still covers whatever root it came from.
spec fn decision_ok(
    d: Decision,
    roots: Seq<DependencyV>,
    targets: Seq<Seq<u8>>,
    reg: PackageRegistry,
) -> bool {
    &&& state_ok(slot_models(d.slots@), edge_rec_models(d.edges@), open_models(d.open@))
    &&& roots_covered(
        roots,
        targets,
        edge_rec_models(d.edges@),
        open_models(d.open@).push(d.od@),
    )
    &&& slots_covered(
        slot_models(d.slots@),
        edge_rec_models(d.edges@),
        open_models(d.open@).push(d.od@),
        targets,
    )
    &&& slots_admissible(slot_models(d.slots@), reg)
    &&& forall|ci: int| 0 <= ci < d.candidates@.len() ==> reg.candidates_spec(
        d.od@.dep,
    ).contains((#[trigger] d.candidates@[ci])@)
    &&& (d.od@.origin matches Option::Some(k) ==> 0 <= k < d.slots@.len())
}

/// Why a resolution did not produce a graph.
#[derive(Debug)]
pub enum ResolveError {
    /// Backtracking is exhausted: no assignment satisfies the constraints.
    /// The chain leads from the unsatisfiable dependency back to the
    /// workspace root.
    Unsatisfiable { chain: Vec<Dependency> },
    /// The cooperative step budget ran out between decision-point
    /// iterations before the search finished.
    Cancelled,
}

/// Resolves the root dependencies against the registry: a depth-first
/// backtracking search, most-constrained dependency first, preferring the
/// version pinned by the previous lock whenever it still satisfies every
/// requirement, otherwise the highest satisfying version. `budget` bounds
/// the number of decision-point iterations (cooperative cancellation).
///
/// The contract pins: validity (every edge satisfies its originating
/// dependency, one package per slot), closedness (every wanted dependency
/// of every chosen package has its edge), root coverage, and that each
/// node's own summary — whose identity is the node's identity — is one of
/// `candidates_spec`'s admissible candidates for the dependency that
/// selected it. Success and failure are owed on the boundary cases: no
/// roots yield the empty graph, and a lone root with no admissible
/// candidate yields the unsatisfiable error, never a cancellation.
///
/// Which admissible candidate is committed is decided at each decision
/// point in the order `prefer_locked` fixes — locked pin first if still
/// admissible, otherwise highest version, ties to the higher-precedence
/// source (`lemma_lock_preference`, `lemma_first_candidate_precedence`).
/// The committed choice equals the first candidate only on conflict-free
/// runs: after a contradiction the search must take the next candidate, so
/// the first-candidate equation is not a postcondition of the search as a
/// whole.
#[verifier::spinoff_prover]
#[verifier::rlimit(100)]
pub fn resolve(
    registry: &PackageRegistry,
    roots: &Vec<Dependency>,
    targets: &Vec<Vec<u8>>,
    previous: &Vec<PackageId>,
    budget: u64,
) -> (r: Result<ResolveGraph, ResolveError>)
    requires
        registry.wf(),
    ensures
        (r matches Result::Ok(g) ==> graph_wf(g@) && graph_closed(g@, targets.deep_view()) && (
        forall|t: int|
            0 <= t < g@.nodes.len() ==> registry.candidates_spec(
                (#[trigger] g@.nodes[t]).cause_dep,
            ).contains(g@.nodes[t].summary)) && (forall|t: int|
            0 <= t < g@.nodes.len() ==> (#[trigger] g@.nodes[t]).summary.pid == g@.nodes[t].pid) && (
        forall|i: int|
            0 <= i < roots.deep_view().len() && dep_relevant(
                #[trigger] roots.deep_view()[i],
                targets.deep_view(),
            ) && !roots.deep_view()[i].optional ==> (exists|e: int|
                0 <= e < g@.root_edges.len() && g@.root_edges[e].dep == roots.deep_view()[i]))),
        (r matches Result::Err(ResolveError::Unsatisfiable { chain }) ==> chain@.len() >= 1),
        roots.deep_view().len() == 0 && budget > 0 ==> r is Ok,
        (roots.deep_view().len() == 1 && dep_relevant(
            roots.deep_view()[0],
            targets.deep_view(),
        ) && !roots.deep_view()[0].optional && registry.candidates_spec(
            roots.deep_view()[0],
        ).len() == 0 && budget >= 3) ==> (r matches Result::Err(
            ResolveError::Unsatisfiable { chain },
        ) && chain@.len() >= 1),
        ({
            let cs = registry.candidates_spec(roots.deep_view()[0]);
            let fl = first_locked_index(cs, previous.deep_view());
            let chosen = if 0 <= fl < cs.len() {
                cs[fl]
            } else {
                cs[0]
            };
            roots.deep_view().len() == 1 && dep_relevant(
                roots.deep_view()[0],
                targets.deep_view(),
            ) && !roots.deep_view()[0].optional && cs.len() > 0 && chosen.pid.name
                == roots.deep_view()[0].name && req_matches(
                roots.deep_view()[0].req,
                chosen.pid.version,
            ) && chosen.deps.len() == 0 && budget >= 3
        }) ==> (r matches Result::Ok(g) && g@.nodes.len() == 1 && g@.nodes[0].summary == ({
            let cs = registry.candidates_spec(roots.deep_view()[0]);
            let fl = first_locked_index(cs, previous.deep_view());
            if 0 <= fl < cs.len() {
                cs[fl]
            } else {
                cs[0]
            }
        })),
{
    let ghost rootsv = roots.deep_view();
    let ghost targetsv = targets.deep_view();
    let ghost doomed = rootsv.len() == 1 && dep_relevant(rootsv[0], targetsv)
        && !rootsv[0].optional && registry.candidates_spec(rootsv[0]).len() == 0 && budget >= 3;
    let ghost cs0 = registry.candidates_spec(rootsv[0]);
    let ghost fl0 = first_locked_index(cs0, previous.deep_view());
    let ghost chosen = if 0 <= fl0 < cs0.len() {
        cs0[fl0]
    } else {
        cs0[0]
    };
    let ghost pinned = rootsv.len() == 1 && dep_relevant(rootsv[0], targetsv)
        && !rootsv[0].optional && cs0.len() > 0 && chosen.pid.name == rootsv[0].name
        && req_matches(rootsv[0].req, chosen.pid.version) && chosen.deps.len() == 0 && budget >= 3;
    let mut slots: Vec<Slot> = Vec::new();
    let mut edges: Vec<EdgeRec> = Vec::new();
    let mut open: Vec<OpenDep> = Vec::new();
    let mut stack: Vec<Decision> = Vec::new();
    // seed the open set from the workspace root
    let nr = roots.len();
    let mut i: usize = 0;
    while i < nr
        invariant
            nr == roots@.len(),
            rootsv == roots.deep_view(),
            targetsv == targets.deep_view(),
            0 <= i <= nr,
            open@.len() <= i,
            forall|k: int| 0 <= k < open@.len() ==> (#[trigger] open@[k])@.origin is None,
            forall|k: int|
                0 <= k < i && dep_relevant(#[trigger] rootsv[k], targetsv) && !rootsv[k].optional
                    ==> (exists|o: int|
                    0 <= o < open@.len() && open@[o]@.origin is None && open@[o]@.dep == rootsv[k]),
        decreases nr - i,
    {
        let d = &roots[i];
        let relevant = is_relevant(d, targets);
        if relevant && !d.optional {
            let ghost before = open@;
            open.push(OpenDep { origin: Option::None, dep: clone_dep(d) });
            proof {
                assert(open@[open@.len() - 1]@.dep == rootsv[i as int]);
                assert forall|k: int|
                    0 <= k < i + 1 && dep_relevant(#[trigger] rootsv[k], targetsv)
                        && !rootsv[k].optional implies (exists|o: int|
                    0 <= o < open@.len() && open@[o]@.origin is None && open@[o]@.dep == rootsv[k]) by {
                    if k < i {
                        let o = choose|o: int|
                            0 <= o < before.len() && before[o]@.origin is None && before[o]@.dep
                                == rootsv[k];
                        assert(open@[o]@.dep == rootsv[k]);
                    } else {
                        assert(open@[open@.len() - 1]@.dep == rootsv[k]);
                    }
                }
            }
        } else {
            proof {
                assert(rootsv[i as int] == roots@[i as int]@);
                assert(!(dep_relevant(rootsv[i as int], targetsv) && !rootsv[i as int].optional));
            }
        }
        i = i + 1;
    }
    proof {
        assert forall|k: int|
            0 <= k < open_models(open@).len() implies ((#[trigger] open_models(open@)[k]).origin
            matches Option::Some(x) ==> 0 <= x < slot_models(slots@).len()) by {
            assert(open_models(open@)[k] == open@[k]@);
        }
        assert(slot_models(slots@).len() == 0);
        assert(edge_rec_models(edges@).len() == 0);
        assert forall|r: int|
            0 <= r < rootsv.len() && dep_relevant(#[trigger] rootsv[r], targetsv)
                && !rootsv[r].optional implies (exists|e: int|
            0 <= e < edge_rec_models(edges@).len() && edge_rec_models(edges@)[e].origin is None
                && edge_rec_models(edges@)[e].edge.dep == rootsv[r]) || (exists|o: int|
            0 <= o < open_models(open@).len() && open_models(open@)[o].origin is None
                && open_models(open@)[o].dep == rootsv[r]) by {
            let o = choose|o: int|
                0 <= o < open@.len() && open@[o]@.origin is None && open@[o]@.dep == rootsv[r];
            assert(open_models(open@)[o] == open@[o]@);
        }
        assert(slots_covered(
            slot_models(slots@),
            edge_rec_models(edges@),
            open_models(open@),
            targetsv,
        ));
        assert(slots_admissible(slot_models(slots@), *registry));
        if rootsv.len() == 0 {
            assert(open@.len() == 0);
        }
        if doomed || pinned {
            assert(open@.len() <= 1);
            let o = choose|o: int|
                0 <= o < open@.len() && open@[o]@.origin is None && open@[o]@.dep == rootsv[0];
            assert(o == 0);
            assert(open_models(open@)[0] == open@[0]@);
        }
    }
    let mut fuel = budget;
    loop
        invariant
            registry.wf(),
            rootsv == roots.deep_view(),
            targetsv == targets.deep_view(),
            state_ok(slot_models(slots@), edge_rec_models(edges@), open_models(open@)),
            roots_covered(rootsv, targetsv, edge_rec_models(edges@), open_models(open@)),
            slots_covered(
                slot_models(slots@),
                edge_rec_models(edges@),
                open_models(open@),
                targetsv,
            ),
            slots_admissible(slot_models(slots@), *registry),
            forall|di: int| 0 <= di < stack@.len() ==> decision_ok(
                #[trigger] stack@[di],
                rootsv,
                targetsv,
                *registry,
            ),
            rootsv.len() == 0 ==> fuel == budget && open@.len() == 0,
            doomed == (rootsv.len() == 1 && dep_relevant(rootsv[0], targetsv)
                && !rootsv[0].optional && registry.candidates_spec(rootsv[0]).len() == 0 && budget
                >= 3),
            doomed ==> fuel == budget && slot_models(slots@).len() == 0 && stack@.len() == 0
                && open_models(open@).len() == 1 && open_models(open@)[0].origin is None
                && open_models(open@)[0].dep == rootsv[0],
            cs0 == registry.candidates_spec(rootsv[0]),
            fl0 == first_locked_index(cs0, previous.deep_view()),
            chosen == (if 0 <= fl0 < cs0.len() {
                cs0[fl0]
            } else {
                cs0[0]
            }),
            pinned == (rootsv.len() == 1 && dep_relevant(rootsv[0], targetsv)
                && !rootsv[0].optional && cs0.len() > 0 && chosen.pid.name == rootsv[0].name
                && req_matches(rootsv[0].req, chosen.pid.version) && chosen.deps.len() == 0
                && budget >= 3),
            pinned ==> (fuel == budget && slot_models(slots@).len() == 0 && stack@.len() == 0
                && open_models(open@).len() == 1 && open_models(open@)[0].origin is None
                && open_models(open@)[0].dep == rootsv[0]) || (slot_models(slots@).len() == 1
                && slot_models(slots@)[0].summary == chosen && open_models(open@).len() == 0
                && fuel >= 1),
        decreases fuel,
    {
        if fuel == 0 {
            return Result::Err(ResolveError::Cancelled);
        }
        fuel = fuel - 1;
        if open.len() == 0 {
            proof {
                assert(open_models(open@) =~= Seq::<OpenDepV>::empty());
            }
            let g = build_graph(&slots, &edges, Ghost(targetsv));
            proof {
                assert(open_models(open@).len() == 0);
                assert forall|r: int|
                    0 <= r < rootsv.len() && dep_relevant(#[trigger] rootsv[r], targetsv)
                        && !rootsv[r].optional implies (exists|e: int|
                    0 <= e < g@.root_edges.len() && g@.root_edges[e].dep == rootsv[r]) by {
                    let e = choose|e: int|
                        0 <= e < edge_rec_models(edges@).len() && edge_rec_models(edges@)[e].origin
                            is None && edge_rec_models(edges@)[e].edge.dep == rootsv[r];
                    assert(edges@[e]@ == edge_rec_models(edges@)[e]);
                    let e2 = choose|e2: int|
                        0 <= e2 < g@.root_edges.len() && g@.root_edges[e2] == edges@[e]@.edge;
                    assert(g@.root_edges[e2].dep == rootsv[r]);
                }
            }
            proof {
                assert forall|t: int|
                    0 <= t < g@.nodes.len() implies registry.candidates_spec(
                    (#[trigger] g@.nodes[t]).cause_dep,
                ).contains(g@.nodes[t].summary) by {
                    assert(g@.nodes[t].summary == slot_models(slots@)[t].summary);
                    assert(g@.nodes[t].cause_dep == slot_models(slots@)[t].cause_dep);
                }
                assert forall|t: int|
                    0 <= t < g@.nodes.len() implies (#[trigger] g@.nodes[t]).summary.pid == g@.nodes[t].pid by {
                    assert(g@.nodes[t].summary == slot_models(slots@)[t].summary);
                    assert(g@.nodes[t].pid == slot_models(slots@)[t].pid);
                }
            }
            proof {
                if pinned {
                    assert(slot_models(slots@).len() == 1 && slot_models(slots@)[0].summary
                        == chosen);
                    assert(g@.nodes.len() == 1);
                    assert(g@.nodes[0].summary == chosen);
                }
            }
            return Result::Ok(g);
        }
        let m = pick_open(registry, &open);
        let ghost open_before = open_models(open@);
        let od = open.remove(m);
        proof {
            assert(open_models(open@) =~= open_before.remove(m as int));
            assert(od@ == open_before[m as int]);
            lemma_covered_after_remove(
                rootsv,
                targetsv,
                edge_rec_models(edges@),
                open_before,
                m as int,
            );
            lemma_slots_covered_after_remove(
                slot_models(slots@),
                targetsv,
                edge_rec_models(edges@),
                open_before,
                m as int,
            );
            assert(rootsv.len() > 0);
            assert forall|k: int|
                0 <= k < open_models(open@).len() implies ((#[trigger] open_models(open@)[k]).origin matches Option::Some(x) ==> 0 <= x < slot_models(slots@).len()) by {
                if k < m {
                    assert(open_models(open@)[k] == open_before[k]);
                } else {
                    assert(open_models(open@)[k] == open_before[k + 1]);
                }
            }
        }
        proof {
            if doomed || pinned {
                assert(od@ == open_before[0]);
                assert(od@.dep == rootsv[0]);
            }
        }
        let found = find_slot(&slots, &od.dep);
        let committed = match found {
            Option::Some(k) => {
                proof {
                    assert(slot_models(slots@)[k as int].pid.name == slot_models(slots@)[
                        k as int
                    ].cause_dep.name);
                }
                attach_to_slot(
                    &mut slots,
                    &mut edges,
                    &mut open,
                    &od,
                    k,
                    targets,
                    Ghost(rootsv),
                    Ghost(*registry),
                )
            },
            Option::None => {
                let cands = registry.query(&od.dep);
                let cands = prefer_locked(cands, previous);
                let d = Decision {
                    slots: clone_slots(&slots),
                    edges: clone_edge_recs(&edges),
                    open: clone_open(&open),
                    candidates: cands,
                    next: 0,
                    od: clone_open_dep(&od),
                };
                proof {
                    assert forall|ci: int| 0 <= ci < d.candidates@.len() implies (
                    *registry).candidates_spec(d.od@.dep).contains(
                        (#[trigger] d.candidates@[ci])@,
                    ) by {
                        let s = registry.candidates_spec(od@.dep);
                        let fli = first_locked_index(s, previous.deep_view());
                        lemma_first_locked_none(s, previous.deep_view());
                        if fli < s.len() {
                            let reordered = seq![s[fli]] + s.remove(fli);
                            assert(reordered[ci] == crate::index::summary_models(d.candidates@)[ci]);
                            lemma_reorder_membership(
                                s,
                                fli,
                                crate::index::summary_models(d.candidates@)[ci],
                            );
                        }
                        assert(crate::index::summary_models(d.candidates@)[ci] == d.candidates@[ci]@);
                    }
                    assert(decision_ok(d, rootsv, targetsv, *registry));
                    if doomed {
                        assert(crate::index::summary_models(d.candidates@).len() == 0);
                        assert(d.candidates@.len() == 0);
                    }
                    if pinned {
                        let s = registry.candidates_spec(od@.dep);
                        assert(s == cs0);
                        lemma_first_locked_none(s, previous.deep_view());
                        if fl0 < s.len() {
                            assert(crate::index::summary_models(d.candidates@) == seq![s[fl0]]
                                + s.remove(fl0));
                            assert(crate::index::summary_models(d.candidates@)[0] == chosen);
                        } else {
                            assert(crate::index::summary_models(d.candidates@) == s);
                            assert(crate::index::summary_models(d.candidates@)[0] == chosen);
                        }
                        assert(crate::index::summary_models(d.candidates@).len()
                            == d.candidates@.len());
                        assert(d.candidates@.len() >= 1);
                        assert(crate::index::summary_models(d.candidates@)[0]
                            == d.candidates@[0]@);
                        assert(d.candidates@[0]@ == chosen);
                    }
                }
                stack.push(d);
                false
            },
        };
        if committed {
            continue ;
        }
        let chain = build_chain(&slots, &od);
        let ghost fuel0 = fuel;
        // backtrack: restore the most recent decision point with an untried
        // candidate and try its next candidate
        loop
            invariant_except_break
                pinned ==> stack@.len() == 1 && stack@[0].next == 0 && stack@[0].candidates@.len()
                    >= 1 && stack@[0].candidates@[0]@ == chosen && slot_models(
                    stack@[0].slots@,
                ).len() == 0 && open_models(stack@[0].open@).len() == 0 && stack@[0].od@.dep
                    == rootsv[0] && fuel >= 2,
            invariant
                registry.wf(),
                rootsv == roots.deep_view(),
                targetsv == targets.deep_view(),
                fuel <= fuel0,
                chain@.len() >= 1,
                rootsv.len() > 0,
                doomed == (rootsv.len() == 1 && dep_relevant(rootsv[0], targetsv)
                    && !rootsv[0].optional && registry.candidates_spec(rootsv[0]).len() == 0
                    && budget >= 3),
                doomed ==> (stack@.len() == 1 && stack@[0].candidates@.len() == 0 && fuel >= 2) || (
                stack@.len() == 0 && fuel >= 1),
                chosen == (if 0 <= fl0 < cs0.len() {
                    cs0[fl0]
                } else {
                    cs0[0]
                }),
                cs0 == registry.candidates_spec(rootsv[0]),
                fl0 == first_locked_index(cs0, previous.deep_view()),
                pinned == (rootsv.len() == 1 && dep_relevant(rootsv[0], targetsv)
                    && !rootsv[0].optional && cs0.len() > 0 && chosen.pid.name == rootsv[0].name
                    && req_matches(rootsv[0].req, chosen.pid.version) && chosen.deps.len() == 0
                    && budget >= 3),
                forall|di: int| 0 <= di < stack@.len() ==> decision_ok(
                    #[trigger] stack@[di],
                    rootsv,
                    targetsv,
                    *registry,
                ),
            ensures
                !doomed,
                pinned ==> slot_models(slots@).len() == 1 && slot_models(slots@)[0].summary
                    == chosen && open_models(open@).len() == 0 && fuel >= 1,
                state_ok(slot_models(slots@), edge_rec_models(edges@), open_models(open@)),
                roots_covered(rootsv, targetsv, edge_rec_models(edges@), open_models(open@)),
                slots_covered(
                    slot_models(slots@),
                    edge_rec_models(edges@),
                    open_models(open@),
                    targetsv,
                ),
                slots_admissible(slot_models(slots@), *registry),
                forall|di: int| 0 <= di < stack@.len() ==> decision_ok(
                    #[trigger] stack@[di],
                    rootsv,
                    targetsv,
                    *registry,
                ),
            decreases fuel,
        {
            if fuel == 0 {
                return Result::Err(ResolveError::Cancelled);
            }
            fuel = fuel - 1;
            let popped = stack.pop();
            let mut d = match popped {
                Option::None => {
                    return Result::Err(ResolveError::Unsatisfiable { chain });
                },
                Option::Some(d) => d,
            };
            if d.next >= d.candidates.len() {
                continue ;
            }
            slots = clone_slots(&d.slots);
            edges = clone_edge_recs(&d.edges);
            open = clone_open(&d.open);
            let cand = clone_summary(&d.candidates[d.next]);
            let od2 = clone_open_dep(&d.od);
            d.next = d.next + 1;
            proof {
                assert(decision_ok(d, rootsv, targetsv, *registry));
                assert(registry.candidates_spec(od2@.dep).contains(cand@));
            }
            stack.push(d);
            let ok = commit_candidate(
                &mut slots,
                &mut edges,
                &mut open,
                &od2,
                &cand,
                targets,
                Ghost(rootsv),
                Ghost(*registry),
            );
            proof {
                if pinned {
                    assert(cand@ == chosen);
                    assert(od2@.dep == rootsv[0]);
                    assert(ok);
                    assert(slot_models(slots@).len() == 1);
                    assert(slot_models(slots@)[0].summary == chosen);
                    assert(open_models(open@).len() == 0);
                }
            }
            if ok {
                break ;
            }
        }
    }
}

} // verus!
