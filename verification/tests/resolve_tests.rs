use lockgen::index::LocalIndex;
use lockgen::lock::{lock_bytes, parse_lock};
use lockgen::model::{Dependency, FeatureEntry, PackageId, SourceId, SourceKind, Summary};
use lockgen::query::{PackageRegistry, QuerySource, SourceEntry};
use lockgen::resolve::{activated_features, resolve, ResolveError};
use lockgen::version::{matches_req, Version, VersionReq};
use lockgen::wrap::WrappedRegistrySource;

fn ver(major: u64, minor: u64, patch: u64) -> Version {
    Version { major, minor, patch, pre: 0 }
}

fn sid(kind: SourceKind, loc: &str) -> SourceId {
    SourceId { kind, location: loc.as_bytes().to_vec() }
}

fn local(loc: &str) -> SourceId {
    sid(SourceKind::LocalRegistry, loc)
}

fn alt(name: &str) -> SourceId {
    sid(SourceKind::AlternateRegistry, name)
}

fn pid(name: &str, v: Version, s: SourceId) -> PackageId {
    PackageId { name: name.as_bytes().to_vec(), version: v, source: s }
}

fn dep(name: &str, req: VersionReq, s: SourceId) -> Dependency {
    Dependency {
        name: name.as_bytes().to_vec(),
        req,
        source: s,
        optional: false,
        features: Vec::new(),
        target: None,
    }
}

fn summary(p: PackageId, deps: Vec<Dependency>) -> Summary {
    Summary { pid: p, deps, features: Vec::new(), yanked: false, checksum: None }
}

fn direct_registry(ix: LocalIndex) -> PackageRegistry {
    let mut reg = PackageRegistry::new();
    reg.add_source(QuerySource { entry: SourceEntry::Direct(ix), is_override: false });
    reg
}

#[test]
fn caret_requirement_semantics() {
    let req = VersionReq::Caret(ver(1, 0, 0));
    assert!(matches_req(&req, &ver(1, 0, 0)));
    assert!(matches_req(&req, &ver(1, 2, 0)));
    assert!(!matches_req(&req, &ver(2, 0, 0)));
    assert!(!matches_req(&req, &ver(0, 9, 0)));
    let zero = VersionReq::Caret(ver(0, 3, 1));
    assert!(matches_req(&zero, &ver(0, 3, 5)));
    assert!(!matches_req(&zero, &ver(0, 4, 0)));
    // a pre-release is not admitted by a release requirement
    assert!(!matches_req(&req, &Version { major: 1, minor: 1, patch: 0, pre: 3 }));
}

#[test]
fn virtualizer_rewrites_identities_both_ways() {
    let phys = local("/srv/registry");
    let virt = alt("mirror");
    let mut ix = LocalIndex::new(local("/srv/registry"), true, false);
    ix.add(summary(pid("pkg-a", ver(1, 0, 0), local("/srv/registry")), Vec::new()));
    let w = WrappedRegistrySource::new(ix, alt("mirror"));

    // a query through the wrapper never shows the physical identity
    let d = dep("pkg-a", VersionReq::Any, alt("mirror"));
    let found = w.query(&d);
    assert_eq!(found.len(), 1);
    assert_eq!(found[0].pid.source.kind, virt.kind);
    assert_eq!(found[0].pid.source.location, virt.location);

    // crossing inbound then outbound is the identity
    let inward = w.rewrite_dep(&d);
    assert_eq!(inward.source.kind, phys.kind);
    assert_eq!(inward.source.location, phys.location);
    let back = w.rewrite_dep(&inward);
    assert_eq!(back.source.kind, SourceKind::AlternateRegistry);
    assert_eq!(back.source.location, b"mirror".to_vec());
    assert_eq!(back.name, d.name);

    // a third identity passes through unmodified
    let other = dep("pkg-a", VersionReq::Any, alt("elsewhere"));
    let kept = w.rewrite_dep(&other);
    assert_eq!(kept.source.location, b"elsewhere".to_vec());
}

#[test]
fn picks_highest_satisfying_version() {
    let s = local("/r");
    let mut ix = LocalIndex::new(local("/r"), false, false);
    for v in [ver(1, 0, 0), ver(1, 2, 0), ver(2, 0, 0)] {
        ix.add(summary(pid("pkg-a", v, local("/r")), Vec::new()));
    }
    let reg = direct_registry(ix);
    let roots = vec![dep("pkg-a", VersionReq::Caret(ver(1, 0, 0)), s)];
    let g = resolve(&reg, &roots, &Vec::new(), &Vec::new(), 10_000).unwrap();
    assert_eq!(g.nodes.len(), 1);
    assert_eq!(g.nodes[0].pid.version, ver(1, 2, 0));
}

#[test]
fn previous_lock_retains_still_satisfying_version() {
    let s = local("/r");
    let mut ix = LocalIndex::new(local("/r"), false, false);
    for v in [ver(1, 0, 0), ver(1, 2, 0), ver(1, 3, 0)] {
        ix.add(summary(pid("pkg-a", v, local("/r")), Vec::new()));
    }
    let reg = direct_registry(ix);
    let roots = vec![dep("pkg-a", VersionReq::Caret(ver(1, 0, 0)), s)];

    // without a lock, the newly added highest version wins
    let g = resolve(&reg, &roots, &Vec::new(), &Vec::new(), 10_000).unwrap();
    assert_eq!(g.nodes[0].pid.version, ver(1, 3, 0));

    // with a lock pinning 1.2.0, which still satisfies, it is retained
    let prev = vec![pid("pkg-a", ver(1, 2, 0), local("/r"))];
    let g2 = resolve(&reg, &roots, &Vec::new(), &prev, 10_000).unwrap();
    assert_eq!(g2.nodes[0].pid.version, ver(1, 2, 0));
}

#[test]
fn minimal_churn_only_retightened_slots_move() {
    let s = local("/r");
    let mut ix = LocalIndex::new(local("/r"), false, false);
    for name in ["pkg-a", "pkg-b"] {
        for v in [ver(1, 0, 0), ver(1, 1, 0)] {
            ix.add(summary(pid(name, v, local("/r")), Vec::new()));
        }
    }
    let reg = direct_registry(ix);
    let roots = vec![
        dep("pkg-a", VersionReq::Caret(ver(1, 1, 0)), local("/r")),
        dep("pkg-b", VersionReq::Caret(ver(1, 0, 0)), local("/r")),
    ];
    // the lock pins both at 1.0.0; pkg-a's requirement tightened past it,
    // pkg-b's did not: only pkg-a changes version
    let prev = vec![
        pid("pkg-a", ver(1, 0, 0), local("/r")),
        pid("pkg-b", ver(1, 0, 0), local("/r")),
    ];
    let g = resolve(&reg, &roots, &Vec::new(), &prev, 10_000).unwrap();
    let find = |name: &str| {
        g.nodes
            .iter()
            .find(|n| n.pid.name == name.as_bytes().to_vec())
            .unwrap()
            .pid
            .version
    };
    assert_eq!(find("pkg-a"), ver(1, 1, 0));
    assert_eq!(find("pkg-b"), ver(1, 0, 0));
    let _ = s;
}

#[test]
fn unsatisfiable_reports_dependency_chain() {
    let s = local("/r");
    let mut ix = LocalIndex::new(local("/r"), false, false);
    ix.add(summary(
        pid("pkg-a", ver(1, 0, 0), local("/r")),
        vec![dep("pkg-b", VersionReq::Caret(ver(2, 0, 0)), local("/r"))],
    ));
    ix.add(summary(pid("pkg-b", ver(1, 9, 0), local("/r")), Vec::new()));
    let reg = direct_registry(ix);
    let roots = vec![dep("pkg-a", VersionReq::Caret(ver(1, 0, 0)), s)];
    match resolve(&reg, &roots, &Vec::new(), &Vec::new(), 10_000) {
        Err(ResolveError::Unsatisfiable { chain }) => {
            assert!(chain.len() >= 2);
            assert_eq!(chain[0].name, b"pkg-b".to_vec());
            assert_eq!(chain[1].name, b"pkg-a".to_vec());
        }
        other => panic!("expected an unsatisfiable chain, got {:?}", other.is_ok()),
    }
}

#[test]
fn tie_resolves_to_higher_precedence_source() {
    // an override source and the dependency's own source both offer the
    // same name and version; the override wins, reproducibly
    let mut over = LocalIndex::new(local("/override"), false, false);
    over.add(summary(pid("pkg-a", ver(1, 0, 0), local("/override")), Vec::new()));
    let mut main = LocalIndex::new(local("/main"), false, false);
    main.add(summary(pid("pkg-a", ver(1, 0, 0), local("/main")), Vec::new()));
    let mut reg = PackageRegistry::new();
    reg.add_source(QuerySource { entry: SourceEntry::Direct(over), is_override: true });
    reg.add_source(QuerySource { entry: SourceEntry::Direct(main), is_override: false });
    let roots = vec![dep("pkg-a", VersionReq::Any, local("/main"))];
    for _ in 0..3 {
        let g = resolve(&reg, &roots, &Vec::new(), &Vec::new(), 10_000).unwrap();
        assert_eq!(g.nodes[0].pid.source.location, b"/override".to_vec());
    }
}

#[test]
fn yanked_versions_skipped_unless_whitelisted() {
    let s = local("/r");
    let mut ix = LocalIndex::new(local("/r"), false, false);
    ix.add(summary(pid("pkg-a", ver(1, 0, 0), local("/r")), Vec::new()));
    let mut yanked = summary(pid("pkg-a", ver(1, 1, 0), local("/r")), Vec::new());
    yanked.yanked = true;
    ix.add(yanked);
    let mut reg = direct_registry(ix);
    let roots = vec![dep("pkg-a", VersionReq::Caret(ver(1, 0, 0)), s)];
    let g = resolve(&reg, &roots, &Vec::new(), &Vec::new(), 10_000).unwrap();
    assert_eq!(g.nodes[0].pid.version, ver(1, 0, 0));
    // whitelisting the yanked identity (the explicit policy for a version an
    // old lock still pins) makes it eligible again
    reg.add_to_yanked_whitelist(&vec![pid("pkg-a", ver(1, 1, 0), local("/r"))]);
    let g2 = resolve(&reg, &roots, &Vec::new(), &Vec::new(), 10_000).unwrap();
    assert_eq!(g2.nodes[0].pid.version, ver(1, 1, 0));
}

#[test]
fn lock_rendering_is_deterministic_and_stable() {
    let s = local("/r");
    let mut ix = LocalIndex::new(local("/r"), false, false);
    ix.add(summary(
        pid("pkg-a", ver(1, 0, 0), local("/r")),
        vec![dep("pkg-b", VersionReq::Caret(ver(1, 0, 0)), local("/r"))],
    ));
    ix.add(summary(pid("pkg-b", ver(1, 4, 2), local("/r")), Vec::new()));
    let reg = direct_registry(ix);
    let roots = vec![dep("pkg-a", VersionReq::Caret(ver(1, 0, 0)), s)];
    let g1 = resolve(&reg, &roots, &Vec::new(), &Vec::new(), 10_000).unwrap();
    let g2 = resolve(&reg, &roots, &Vec::new(), &Vec::new(), 10_000).unwrap();
    let b1 = lock_bytes(&g1);
    let b2 = lock_bytes(&g2);
    assert_eq!(b1, b2);
    let text = String::from_utf8(b1).unwrap();
    assert!(text.starts_with("v1\n"));
    assert!(text.contains("P pkg-a 1.0.0 L /r\n"));
    assert!(text.contains("D pkg-b 1.4.2 L /r\n"));
    assert!(text.contains("P pkg-b 1.4.2 L /r\n"));
}

#[test]
fn feature_activation_closure_and_optional_deps() {
    // pkg-a requests feature "net" of pkg-b; "net" activates "tls", and
    // "tls" enables the optional dependency on pkg-c
    let s = local("/r");
    let mut ix = LocalIndex::new(local("/r"), false, false);
    let mut b_dep_c = dep("pkg-c", VersionReq::Any, local("/r"));
    b_dep_c.optional = true;
    let b = Summary {
        pid: pid("pkg-b", ver(1, 0, 0), local("/r")),
        deps: vec![b_dep_c],
        features: vec![
            FeatureEntry {
                name: b"net".to_vec(),
                activates: vec![b"tls".to_vec()],
                enables_deps: Vec::new(),
            },
            FeatureEntry {
                name: b"tls".to_vec(),
                activates: Vec::new(),
                enables_deps: vec![b"pkg-c".to_vec()],
            },
        ],
        yanked: false,
        checksum: None,
    };
    ix.add(b);
    ix.add(summary(pid("pkg-c", ver(0, 1, 0), local("/r")), Vec::new()));
    let reg = direct_registry(ix);
    let mut root = dep("pkg-b", VersionReq::Any, s);
    root.features = vec![b"net".to_vec()];
    let g = resolve(&reg, &vec![root], &Vec::new(), &Vec::new(), 10_000).unwrap();
    assert!(g.nodes.iter().any(|n| n.pid.name == b"pkg-c".to_vec()));

    // the closure itself: requested features, transitively activated ones
    let fs = vec![FeatureEntry {
        name: b"net".to_vec(),
        activates: vec![b"tls".to_vec()],
        enables_deps: Vec::new(),
    }];
    let act = activated_features(&fs, &vec![b"net".to_vec()]);
    assert!(act.contains(&b"net".to_vec()));
    assert!(act.contains(&b"tls".to_vec()));
}

#[test]
fn fuzzy_query_matches_by_prefix() {
    let mut ix = LocalIndex::new(local("/r"), false, false);
    ix.add(summary(pid("pkg-a", ver(1, 0, 0), local("/r")), Vec::new()));
    ix.add(summary(pid("pkg-abc", ver(1, 0, 0), local("/r")), Vec::new()));
    ix.add(summary(pid("other", ver(1, 0, 0), local("/r")), Vec::new()));
    let found = ix.fuzzy_query(&b"pkg-".to_vec());
    assert_eq!(found.len(), 2);
    let missing = ix.query(&b"absent".to_vec());
    assert!(missing.is_empty());
}

#[test]
fn lock_round_trip_recovers_the_pinned_packages() {
    let s = local("/r");
    let mut ix = LocalIndex::new(local("/r"), false, false);
    ix.add(summary(
        pid("pkg-a", ver(1, 0, 0), local("/r")),
        vec![dep(
            "pkg-b",
            VersionReq::Caret(Version { major: 2, minor: 1, patch: 0, pre: 1 }),
            local("/r"),
        )],
    ));
    ix.add(summary(
        pid("pkg-b", Version { major: 2, minor: 1, patch: 0, pre: 3 }, local("/r")),
        Vec::new(),
    ));
    let reg = direct_registry(ix);
    let roots = vec![dep("pkg-a", VersionReq::Caret(ver(1, 0, 0)), s)];
    let g = resolve(&reg, &roots, &Vec::new(), &Vec::new(), 10_000).unwrap();
    let bytes = lock_bytes(&g);
    let pins = parse_lock(&bytes).expect("a rendered lock parses back");
    assert_eq!(pins.len(), g.nodes.len());
    for n in &g.nodes {
        assert!(pins.iter().any(|p| {
            p.name == n.pid.name && p.version == n.pid.version
                && p.source.kind == n.pid.source.kind
                && p.source.location == n.pid.source.location
        }));
    }
    // malformed input degrades to no hint
    assert!(parse_lock(&b"not a lock".to_vec()).is_none());
    assert!(parse_lock(&b"v1\nP broken-line\n".to_vec()).is_none());
}

#[test]
fn lock_lists_packages_sorted_by_name_version_source() {
    let s = local("/r");
    let mut ix = LocalIndex::new(local("/r"), false, false);
    ix.add(summary(
        pid("zeta", ver(1, 0, 0), local("/r")),
        vec![dep("alpha", VersionReq::Any, local("/r"))],
    ));
    ix.add(summary(pid("alpha", ver(2, 0, 0), local("/r")), Vec::new()));
    let reg = direct_registry(ix);
    // zeta is resolved first, alpha second; the lock still lists alpha first
    let roots = vec![dep("zeta", VersionReq::Caret(ver(1, 0, 0)), s)];
    let g = resolve(&reg, &roots, &Vec::new(), &Vec::new(), 10_000).unwrap();
    let text = String::from_utf8(lock_bytes(&g)).unwrap();
    let alpha = text.find("P alpha").unwrap();
    let zeta = text.find("P zeta").unwrap();
    assert!(alpha < zeta);
}

#[test]
fn empty_roots_resolve_to_an_empty_graph() {
    let reg = direct_registry(LocalIndex::new(local("/r"), false, false));
    let g = resolve(&reg, &Vec::new(), &Vec::new(), &Vec::new(), 1).unwrap();
    assert!(g.nodes.is_empty());
    assert!(g.root_edges.is_empty());
}

#[test]
fn override_slot_is_reused_for_the_same_required_source() {
    // two dependencies name the same (pkg, required source); the override
    // source satisfies the first; the second must reuse that slot rather
    // than commit a second copy
    let mut over = LocalIndex::new(local("/override"), false, false);
    over.add(summary(pid("pkg-c", ver(1, 0, 0), local("/override")), Vec::new()));
    let mut main_ix = LocalIndex::new(local("/main"), false, false);
    main_ix.add(summary(
        pid("pkg-a", ver(1, 0, 0), local("/main")),
        vec![dep("pkg-c", VersionReq::Any, local("/main"))],
    ));
    main_ix.add(summary(pid("pkg-c", ver(1, 0, 0), local("/main")), Vec::new()));
    let mut reg = PackageRegistry::new();
    reg.add_source(QuerySource { entry: SourceEntry::Direct(over), is_override: true });
    reg.add_source(QuerySource { entry: SourceEntry::Direct(main_ix), is_override: false });
    let roots = vec![
        dep("pkg-a", VersionReq::Any, local("/main")),
        dep("pkg-c", VersionReq::Any, local("/main")),
    ];
    let g = resolve(&reg, &roots, &Vec::new(), &Vec::new(), 10_000).unwrap();
    let c_nodes = g.nodes.iter().filter(|n| n.pid.name == b"pkg-c".to_vec()).count();
    assert_eq!(c_nodes, 1);
    assert_eq!(
        g.nodes
            .iter()
            .find(|n| n.pid.name == b"pkg-c".to_vec())
            .unwrap()
            .pid
            .source
            .location,
        b"/override".to_vec()
    );
}

#[test]
fn root_without_candidates_is_unsatisfiable_not_cancelled() {
    let reg = direct_registry(LocalIndex::new(local("/r"), false, false));
    let roots = vec![dep("pkg-x", VersionReq::Any, local("/r"))];
    match resolve(&reg, &roots, &Vec::new(), &Vec::new(), 3) {
        Err(ResolveError::Unsatisfiable { chain }) => {
            assert_eq!(chain.len(), 1);
            assert_eq!(chain[0].name, b"pkg-x".to_vec());
        }
        _ => panic!("expected the unsatisfiable error"),
    }
}

#[test]
fn exhausted_budget_is_reported_as_cancelled() {
    let mut ix = LocalIndex::new(local("/r"), false, false);
    ix.add(summary(pid("pkg-a", ver(1, 0, 0), local("/r")), Vec::new()));
    let reg = direct_registry(ix);
    let roots = vec![dep("pkg-a", VersionReq::Any, local("/r"))];
    assert!(matches!(
        resolve(&reg, &roots, &Vec::new(), &Vec::new(), 0),
        Err(ResolveError::Cancelled)
    ));
    assert!(resolve(&reg, &roots, &Vec::new(), &Vec::new(), 10).is_ok());
}
