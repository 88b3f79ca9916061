//! Lockfile codec: renders a resolve graph as a deterministic byte
//! sequence — packages sorted by (name, version, source) under a format
//! version marker — and parses a previous lock back into the package
//! identities it pins. The output is a pure function of the graph, so an
//! unchanged graph re-renders a byte-identical lock.
//!
//! The format delimits fields with spaces and lines with newlines, and
//! names and locations are written raw: an identifier containing those
//! bytes renders ambiguously and parses back differently. The parsed
//! result is only ever a hint — the resolver re-validates every pin against
//! the live candidates — so an ambiguous hint can cost stability, never
//! soundness.

use vstd::prelude::*;

use crate::model::{pid_less, pid_lt, PackageId, PackageIdV, SourceId, SourceIdV, SourceKind};
use crate::resolve::{clone_node, ResolveGraph, ResolveGraphV, ResolveNode, ResolveNodeV};
use crate::version::Version;

verus! {

/// The decimal digits of `n`, most significant first.
pub open spec fn dec_digits(n: nat) -> Seq<u8>
    decreases n,
{
    if n < 10 {
        seq![(48 + n) as u8]
    } else {
        dec_digits(n / 10) + seq![(48 + n % 10) as u8]
    }
}

/// `major.minor.patch`, with `-pre` appended for a pre-release.
pub open spec fn render_version(v: Version) -> Seq<u8> {
    dec_digits(v.major as nat) + seq![46u8] + dec_digits(v.minor as nat) + seq![46u8]
        + dec_digits(v.patch as nat) + (if v.pre > 0 {
        seq![45u8] + dec_digits(v.pre as nat)
    } else {
        Seq::empty()
    })
}

/// A one-byte tag for the source kind.
pub open spec fn kind_tag(k: SourceKind) -> Seq<u8> {
    match k {
        SourceKind::LocalRegistry => seq![76u8],
        SourceKind::AlternateRegistry => seq![65u8],
    }
}

/// `name version kind location`, space separated.
pub open spec fn render_pid(p: PackageIdV) -> Seq<u8> {
    p.name + seq![32u8] + render_version(p.version) + seq![32u8] + kind_tag(p.source.kind)
        + seq![32u8] + p.source.location
}

/// One `D`-line per dependency edge target, in recorded order.
pub open spec fn render_targets(edges: Seq<crate::resolve::EdgeV>) -> Seq<u8>
    decreases edges.len(),
{
    if edges.len() == 0 {
        Seq::empty()
    } else {
        render_targets(edges.drop_last()) + seq![68u8, 32u8] + render_pid(edges.last().target)
            + seq![10u8]
    }
}

/// One `P`-line for the node, then its dependency targets.
pub open spec fn render_node(n: ResolveNodeV) -> Seq<u8> {
    seq![80u8, 32u8] + render_pid(n.pid) + seq![10u8] + render_targets(n.edges)
}

pub open spec fn render_nodes(ns: Seq<ResolveNodeV>) -> Seq<u8>
    decreases ns.len(),
{
    if ns.len() == 0 {
        Seq::empty()
    } else {
        render_nodes(ns.drop_last()) + render_node(ns.last())
    }
}

/// The index of the first node with the minimal package identity under the
/// (name, version, source) order.
pub open spec fn first_min_index(s: Seq<ResolveNodeV>) -> int
    decreases s.len(),
{
    if s.len() <= 1 {
        0
    } else {
        let r = first_min_index(s.drop_last());
        if pid_lt(s[s.len() - 1].pid, s[r].pid) {
            s.len() - 1
        } else {
            r
        }
    }
}

/// The graph's nodes sorted by (name, version, source): repeatedly take the
/// first node with the minimal package identity.
pub open spec fn sort_nodes(s: Seq<ResolveNodeV>) -> Seq<ResolveNodeV>
    decreases s.len(),
{
    if s.len() == 0 {
        Seq::empty()
    } else {
        let m0 = first_min_index(s);
        let m = if 0 <= m0 < s.len() {
            m0
        } else {
            0
        };
        seq![s[m]] + sort_nodes(s.remove(m))
    }
}

/// The lock: a format version marker, then every resolved package with its
/// dependency edges, packages sorted by (name, version, source).
pub open spec fn spec_render(g: ResolveGraphV) -> Seq<u8> {
    seq![118u8, 49u8, 10u8] + render_nodes(sort_nodes(g.nodes))
}

/// Rendering is a pure function of the resolve graph: two equal graphs give
/// byte-identical locks, however and whenever each was produced — re-running
/// an unchanged resolution re-renders the same lock.
pub proof fn lemma_lock_deterministic(a: ResolveGraphV, b: ResolveGraphV)
    requires
        a == b,
    ensures
        spec_render(a) == spec_render(b),
{
}

/// Appends the decimal digits of `n`.
fn push_u64(out: &mut Vec<u8>, n: u64)
    ensures
        final(out)@ == old(out)@ + dec_digits(n as nat),
    decreases n,
{
    if n < 10 {
        out.push(48 + n as u8);
        proof {
            assert(final(out)@ =~= old(out)@ + dec_digits(n as nat));
        }
    } else {
        push_u64(out, n / 10);
        out.push(48 + (n % 10) as u8);
        proof {
            assert(final(out)@ =~= old(out)@ + dec_digits(n as nat));
        }
    }
}

/// Appends the bytes of a byte vector.
fn push_bytes(out: &mut Vec<u8>, b: &Vec<u8>)
    ensures
        final(out)@ == old(out)@ + b@,
{
    let n = b.len();
    let mut i: usize = 0;
    while i < n
        invariant
            n == b@.len(),
            0 <= i <= n,
            out@ == old(out)@ + b@.subrange(0, i as int),
        decreases n - i,
    {
        out.push(b[i]);
        proof {
            assert(out@ =~= old(out)@ + b@.subrange(0, i as int + 1));
        }
        i = i + 1;
    }
    proof {
        assert(old(out)@ + b@.subrange(0, n as int) =~= old(out)@ + b@);
    }
}

/// Appends the rendering of one package identity.
fn push_pid(out: &mut Vec<u8>, p: &crate::model::PackageId)
    ensures
        final(out)@ == old(out)@ + render_pid(p@),
{
    push_bytes(out, &p.name);
    out.push(32);
    push_u64(out, p.version.major);
    out.push(46);
    push_u64(out, p.version.minor);
    out.push(46);
    push_u64(out, p.version.patch);
    if p.version.pre > 0 {
        out.push(45);
        push_u64(out, p.version.pre);
    }
    match p.source.kind {
        SourceKind::LocalRegistry => out.push(32),
        SourceKind::AlternateRegistry => out.push(32),
    }
    match p.source.kind {
        SourceKind::LocalRegistry => out.push(76),
        SourceKind::AlternateRegistry => out.push(65),
    }
    out.push(32);
    push_bytes(out, &p.source.location);
    proof {
        assert(final(out)@ =~= old(out)@ + render_pid(p@));
    }
}


/// A decimal digit byte.
pub open spec fn is_digit(c: u8) -> bool {
    48 <= c <= 57
}

/// Parses the remaining digits of a decimal number starting with `acc`:
/// stops before the first non-digit, fails on 64-bit overflow.
pub open spec fn spec_num_rest(b: Seq<u8>, i: int, acc: u64) -> Option<(u64, int)>
    decreases b.len() - i,
{
    if i < 0 || i >= b.len() || !is_digit(b[i]) {
        Option::Some((acc, i))
    } else if acc > (0xffff_ffff_ffff_ffffu64 - (b[i] - 48) as u64) / 10 {
        Option::None
    } else {
        spec_num_rest(b, i + 1, (acc * 10 + (b[i] - 48)) as u64)
    }
}

/// Parses a decimal number: at least one digit.
pub open spec fn spec_num(b: Seq<u8>, i: int) -> Option<(u64, int)> {
    if 0 <= i < b.len() && is_digit(b[i]) {
        spec_num_rest(b, i, 0)
    } else {
        Option::None
    }
}

/// Parses a version: `major.minor.patch` with an optional `-pre`.
pub open spec fn spec_parse_version(b: Seq<u8>, i: int) -> Option<(Version, int)> {
    match spec_num(b, i) {
        Option::None => Option::None,
        Option::Some((major, i1)) => {
            if !(0 <= i1 < b.len() && b[i1] == 46) {
                Option::None
            } else {
                match spec_num(b, i1 + 1) {
                    Option::None => Option::None,
                    Option::Some((minor, i2)) => {
                        if !(0 <= i2 < b.len() && b[i2] == 46) {
                            Option::None
                        } else {
                            match spec_num(b, i2 + 1) {
                                Option::None => Option::None,
                                Option::Some((patch, i3)) => {
                                    if 0 <= i3 < b.len() && b[i3] == 45 {
                                        match spec_num(b, i3 + 1) {
                                            Option::None => Option::None,
                                            Option::Some((pre, i4)) => {
                                                if pre > 0 {
                                                    Option::Some(
                                                        (Version { major, minor, patch, pre }, i4),
                                                    )
                                                } else {
                                                    Option::None
                                                }
                                            },
                                        }
                                    } else {
                                        Option::Some(
                                            (Version { major, minor, patch, pre: 0 }, i3),
                                        )
                                    }
                                },
                            }
                        }
                    },
                }
            }
        },
    }
}

/// The bytes before the next `stop` byte, and the position of that byte;
/// fails when no `stop` byte follows.
pub open spec fn spec_until(b: Seq<u8>, i: int, stop: u8) -> Option<(Seq<u8>, int)>
    decreases b.len() - i,
{
    if i < 0 || i >= b.len() {
        Option::None
    } else if b[i] == stop {
        Option::Some((Seq::empty(), i))
    } else {
        match spec_until(b, i + 1, stop) {
            Option::None => Option::None,
            Option::Some((s, j)) => Option::Some((seq![b[i]] + s, j)),
        }
    }
}

/// Parses one package identity: `name version kindtag location`, ending at
/// a newline (left at the newline).
pub open spec fn spec_parse_pid(b: Seq<u8>, i: int) -> Option<(PackageIdV, int)> {
    match spec_until(b, i, 32) {
        Option::None => Option::None,
        Option::Some((name, i1)) => {
            match spec_parse_version(b, i1 + 1) {
                Option::None => Option::None,
                Option::Some((version, i2)) => {
                    if !(0 <= i2 && i2 + 2 < b.len() && b[i2] == 32 && (b[i2 + 1] == 76 || b[i2 + 1]
                        == 65) && b[i2 + 2] == 32) {
                        Option::None
                    } else {
                        match spec_until(b, i2 + 3, 10) {
                            Option::None => Option::None,
                            Option::Some((location, i3)) => {
                                let kind = if b[i2 + 1] == 76 {
                                    SourceKind::LocalRegistry
                                } else {
                                    SourceKind::AlternateRegistry
                                };
                                Option::Some(
                                    (
                                        PackageIdV {
                                            name,
                                            version,
                                            source: SourceIdV { kind, location },
                                        },
                                        i3,
                                    ),
                                )
                            },
                        }
                    }
                },
            }
        },
    }
}

/// Parses the lines after the marker: each `P `-line yields a package
/// identity, every other line is skipped; anything malformed fails.
pub open spec fn spec_parse_lines(b: Seq<u8>, i: int, fuel: nat) -> Option<Seq<PackageIdV>>
    decreases fuel,
{
    if i == b.len() {
        Option::Some(Seq::empty())
    } else if fuel == 0 {
        Option::None
    } else if 0 <= i && i + 1 < b.len() && b[i] == 80 && b[i + 1] == 32 {
        match spec_parse_pid(b, i + 2) {
            Option::None => Option::None,
            Option::Some((p, j)) => {
                match spec_parse_lines(b, j + 1, (fuel - 1) as nat) {
                    Option::None => Option::None,
                    Option::Some(rest) => Option::Some(seq![p] + rest),
                }
            },
        }
    } else {
        match spec_until(b, i, 10) {
            Option::None => Option::None,
            Option::Some((_skipped, j)) => spec_parse_lines(b, j + 1, (fuel - 1) as nat),
        }
    }
}

/// The lock hint a byte sequence denotes: the package identities of its
/// `P `-lines, provided the format marker and every line are well-formed;
/// anything else is no hint.
pub open spec fn spec_parse(b: Seq<u8>) -> Option<Seq<PackageIdV>> {
    if b.len() >= 3 && b[0] == 118 && b[1] == 49 && b[2] == 10 {
        spec_parse_lines(b, 3, b.len())
    } else {
        Option::None
    }
}


/// Decides `spec_num_rest`.
fn num_rest(b: &Vec<u8>, i: usize, acc: u64) -> (r: Option<(u64, usize)>)
    requires
        i as int <= b@.len(),
    ensures
        (match (r, spec_num_rest(b@, i as int, acc)) {
            (Option::Some(p), Option::Some(q)) => p.0 == q.0 && p.1 as int == q.1 && p.1
                <= b@.len(),
            (Option::None, Option::None) => true,
            _ => false,
        }),
    decreases b@.len() - i,
{
    if i >= b.len() {
        return Option::Some((acc, i));
    }
    let c = b[i];
    if !(48 <= c && c <= 57) {
        return Option::Some((acc, i));
    }
    let d = (c - 48) as u64;
    if acc > (0xffff_ffff_ffff_ffffu64 - d) / 10 {
        return Option::None;
    }
    proof {
        assert(acc * 10 + d <= 0xffff_ffff_ffff_ffffu64) by (nonlinear_arith)
            requires
                acc <= (0xffff_ffff_ffff_ffffu64 - d) / 10,
                d <= 9,
        ;
        assert((acc * 10 + d) as u64 == ((acc * 10 + (b@[i as int] - 48)) as u64));
    }
    num_rest(b, i + 1, acc * 10 + d)
}

/// Decides `spec_num`.
fn num_at(b: &Vec<u8>, i: usize) -> (r: Option<(u64, usize)>)
    ensures
        (match (r, spec_num(b@, i as int)) {
            (Option::Some(p), Option::Some(q)) => p.0 == q.0 && p.1 as int == q.1 && p.1
                <= b@.len(),
            (Option::None, Option::None) => true,
            _ => false,
        }),
{
    if i < b.len() && 48 <= b[i] && b[i] <= 57 {
        num_rest(b, i, 0)
    } else {
        Option::None
    }
}

/// Decides `spec_until`.
fn until_at(b: &Vec<u8>, i: usize, stop: u8) -> (r: Option<(Vec<u8>, usize)>)
    ensures
        (match (r, spec_until(b@, i as int, stop)) {
            (Option::Some(p), Option::Some(q)) => p.0@ == q.0 && p.1 as int == q.1 && p.1
                < b@.len(),
            (Option::None, Option::None) => true,
            _ => false,
        }),
    decreases b@.len() - i,
{
    if i >= b.len() {
        return Option::None;
    }
    let c = b[i];
    if c == stop {
        let empty: Vec<u8> = Vec::new();
        proof {
            assert(empty@ =~= Seq::<u8>::empty());
        }
        return Option::Some((empty, i));
    }
    match until_at(b, i + 1, stop) {
        Option::None => Option::None,
        Option::Some((s, j)) => {
            let mut s = s;
            s.insert(0, c);
            proof {
                let q = spec_until(b@, i as int + 1, stop);
                assert(s@ =~= seq![c] + q->Some_0.0);
            }
            Option::Some((s, j))
        },
    }
}

/// Decides `spec_parse_version`.
fn version_at(b: &Vec<u8>, i: usize) -> (r: Option<(Version, usize)>)
    ensures
        (match (r, spec_parse_version(b@, i as int)) {
            (Option::Some(p), Option::Some(q)) => p.0 == q.0 && p.1 as int == q.1 && p.1
                <= b@.len(),
            (Option::None, Option::None) => true,
            _ => false,
        }),
{
    let (major, i1) = match num_at(b, i) {
        Option::None => {
            return Option::None;
        },
        Option::Some(p) => p,
    };
    if !(i1 < b.len() && b[i1] == 46) {
        return Option::None;
    }
    let (minor, i2) = match num_at(b, i1 + 1) {
        Option::None => {
            return Option::None;
        },
        Option::Some(p) => p,
    };
    if !(i2 < b.len() && b[i2] == 46) {
        return Option::None;
    }
    let (patch, i3) = match num_at(b, i2 + 1) {
        Option::None => {
            return Option::None;
        },
        Option::Some(p) => p,
    };
    if i3 < b.len() && b[i3] == 45 {
        let (pre, i4) = match num_at(b, i3 + 1) {
            Option::None => {
                return Option::None;
            },
            Option::Some(p) => p,
        };
        if pre > 0 {
            Option::Some((Version { major, minor, patch, pre }, i4))
        } else {
            Option::None
        }
    } else {
        Option::Some((Version { major, minor, patch, pre: 0 }, i3))
    }
}

/// Decides `spec_parse_pid`.
fn pid_at(b: &Vec<u8>, i: usize) -> (r: Option<(PackageId, usize)>)
    ensures
        (match (r, spec_parse_pid(b@, i as int)) {
            (Option::Some(p), Option::Some(q)) => p.0@ == q.0 && p.1 as int == q.1 && p.1
                < b@.len(),
            (Option::None, Option::None) => true,
            _ => false,
        }),
{
    let (name, i1) = match until_at(b, i, 32) {
        Option::None => {
            return Option::None;
        },
        Option::Some(p) => p,
    };
    if i1 >= b.len() {
        // the spec's version parse fails past the end as well
        return Option::None;
    }
    let (version, i2) = match version_at(b, i1 + 1) {
        Option::None => {
            return Option::None;
        },
        Option::Some(p) => p,
    };
    if !(i2 < b.len() && b[i2] == 32) {
        return Option::None;
    }
    if !(i2 + 1 < b.len() && (b[i2 + 1] == 76 || b[i2 + 1] == 65)) {
        return Option::None;
    }
    if !(i2 + 2 < b.len() && b[i2 + 2] == 32) {
        return Option::None;
    }
    let kind = if b[i2 + 1] == 76 {
        SourceKind::LocalRegistry
    } else {
        SourceKind::AlternateRegistry
    };
    let (location, i3) = match until_at(b, i2 + 3, 10) {
        Option::None => {
            return Option::None;
        },
        Option::Some(p) => p,
    };
    let pid = PackageId { name, version, source: SourceId { kind, location } };
    proof {
        assert(pid@ =~= spec_parse_pid(b@, i as int)->Some_0.0);
    }
    Option::Some((pid, i3))
}

/// Decides `spec_parse_lines`.
fn lines_at(b: &Vec<u8>, i: usize, fuel: usize) -> (r: Option<Vec<PackageId>>)
    ensures
        (match (r, spec_parse_lines(b@, i as int, fuel as nat)) {
            (Option::Some(v), Option::Some(s)) => v.deep_view() == s,
            (Option::None, Option::None) => true,
            _ => false,
        }),
    decreases fuel,
{
    if i == b.len() {
        let empty: Vec<PackageId> = Vec::new();
        proof {
            assert(empty.deep_view() =~= Seq::<PackageIdV>::empty());
        }
        return Option::Some(empty);
    }
    if fuel == 0 {
        return Option::None;
    }
    let p_line = if i < b.len() && b[i] == 80 {
        i + 1 < b.len() && b[i + 1] == 32
    } else {
        false
    };
    if p_line {
        let (p, j) = match pid_at(b, i + 2) {
            Option::None => {
                return Option::None;
            },
            Option::Some(p) => p,
        };
        match lines_at(b, j + 1, fuel - 1) {
            Option::None => Option::None,
            Option::Some(rest) => {
                let mut rest = rest;
                let ghost restv = rest.deep_view();
                rest.insert(0, p);
                proof {
                    assert(rest.deep_view() =~= seq![p@] + restv);
                }
                Option::Some(rest)
            },
        }
    } else {
        let (_skipped, j) = match until_at(b, i, 10) {
            Option::None => {
                return Option::None;
            },
            Option::Some(p) => p,
        };
        lines_at(b, j + 1, fuel - 1)
    }
}

/// Parses a previously written lock into the package identities it pins —
/// the hint the resolver prefers. The result is exactly `spec_parse` of the
/// bytes: a missing marker or any malformed line yields no hint, never an
/// error.
pub fn parse_lock(b: &Vec<u8>) -> (r: Option<Vec<PackageId>>)
    ensures
        (match (r, spec_parse(b@)) {
            (Option::Some(v), Option::Some(s)) => v.deep_view() == s,
            (Option::None, Option::None) => true,
            _ => false,
        }),
{
    if !(b.len() >= 3 && b[0] == 118 && b[1] == 49 && b[2] == 10) {
        return Option::None;
    }
    lines_at(b, 3, b.len())
}

/// The models of a list of resolve nodes.
pub open spec fn node_models(s: Seq<ResolveNode>) -> Seq<ResolveNodeV> {
    Seq::new(s.len(), |i: int| s[i]@)
}

/// The index of the first node with the minimal package identity, on exec
/// values.
fn first_min(v: &Vec<ResolveNode>) -> (m: usize)
    requires
        v@.len() > 0,
    ensures
        m as int == first_min_index(node_models(v@)),
        m < v@.len(),
{
    let n = v.len();
    let mut best: usize = 0;
    let mut i: usize = 1;
    proof {
        assert(node_models(v@).subrange(0, 1).len() == 1);
        assert(first_min_index(node_models(v@).subrange(0, 1)) == 0);
    }
    while i < n
        invariant
            n == v@.len(),
            1 <= i <= n,
            best < i,
            best as int == first_min_index(node_models(v@).subrange(0, i as int)),
        decreases n - i,
    {
        proof {
            let prefix = node_models(v@).subrange(0, i as int);
            let cur = node_models(v@).subrange(0, i as int + 1);
            assert(cur.drop_last() =~= prefix);
            assert(cur.len() > 1);
            assert(forall|t: int| 0 <= t < i + 1 ==> cur[t] == node_models(v@)[t]);
        }
        if pid_less(&v[i].pid, &v[best].pid) {
            best = i;
        }
        i = i + 1;
    }
    proof {
        assert(node_models(v@).subrange(0, n as int) =~= node_models(v@));
    }
    best
}

/// Sorts the nodes by (name, version, source).
fn sorted_nodes(g: &ResolveGraph) -> (r: Vec<ResolveNode>)
    ensures
        node_models(r@) == sort_nodes(g@.nodes),
{
    let mut rest: Vec<ResolveNode> = Vec::new();
    let n = g.nodes.len();
    let mut i: usize = 0;
    while i < n
        invariant
            n == g.nodes@.len(),
            0 <= i <= n,
            rest@.len() == i,
            forall|k: int| 0 <= k < i ==> rest@[k]@ == g.nodes@[k]@,
        decreases n - i,
    {
        rest.push(clone_node(&g.nodes[i]));
        i = i + 1;
    }
    proof {
        assert(node_models(rest@) =~= g@.nodes);
    }
    let ghost orig = node_models(rest@);
    let mut out: Vec<ResolveNode> = Vec::new();
    proof {
        assert(node_models(out@) =~= Seq::<ResolveNodeV>::empty());
        assert(node_models(out@) + sort_nodes(node_models(rest@)) =~= sort_nodes(orig));
    }
    while rest.len() > 0
        invariant
            node_models(out@) + sort_nodes(node_models(rest@)) == sort_nodes(orig),
        decreases rest@.len(),
    {
        let m = first_min(&rest);
        let ghost before = node_models(rest@);
        let e = rest.remove(m);
        out.push(e);
        proof {
            assert(node_models(rest@) =~= before.remove(m as int));
            assert(sort_nodes(before) == seq![before[m as int]] + sort_nodes(
                before.remove(m as int),
            ));
            assert(node_models(out@) =~= node_models(out@.drop_last()).push(e@));
            assert(node_models(out@) + sort_nodes(node_models(rest@)) =~= sort_nodes(orig));
        }
    }
    proof {
        assert(sort_nodes(node_models(rest@)) =~= Seq::<ResolveNodeV>::empty());
        assert(node_models(out@) =~= sort_nodes(orig));
    }
    out
}

/// Serializes the resolve graph deterministically: the bytes are a pure
/// function of the graph, so an unchanged graph always re-renders the same
/// lock, byte for byte. Writing the bytes to disk (atomically, via a
/// temporary file and rename) is the caller's part.
#[verifier::rlimit(60)]
pub fn lock_bytes(g: &ResolveGraph) -> (r: Vec<u8>)
    ensures
        r@ == spec_render(g@),
{
    let mut out: Vec<u8> = Vec::new();
    out.push(118);
    out.push(49);
    out.push(10);
    proof {
        assert(out@ =~= seq![118u8, 49u8, 10u8]);
    }
    let sorted = sorted_nodes(g);
    let ghost sortedv = node_models(sorted@);
    proof {
        assert(out@ =~= seq![118u8, 49u8, 10u8] + render_nodes(sortedv.subrange(0, 0)));
    }
    let nn = sorted.len();
    let mut i: usize = 0;
    while i < nn
        invariant
            sortedv == node_models(sorted@),
            sortedv == sort_nodes(g@.nodes),
            nn == sorted@.len(),
            0 <= i <= nn,
            out@ == seq![118u8, 49u8, 10u8] + render_nodes(sortedv.subrange(0, i as int)),
        decreases nn - i,
    {
        let node = &sorted[i];
        let ghost out_before = out@;
        out.push(80);
        out.push(32);
        push_pid(&mut out, &node.pid);
        out.push(10);
        let ghost after_pid = out@;
        proof {
            assert(after_pid =~= out_before + seq![80u8, 32u8] + render_pid(node.pid@)
                + seq![10u8]);
            assert(after_pid =~= out_before + (seq![80u8, 32u8] + render_pid(node.pid@)
                + seq![10u8]) + render_targets(node@.edges.subrange(0, 0)));
        }
        let ne = node.edges.len();
        let mut j: usize = 0;
        while j < ne
            invariant
                ne == node.edges@.len(),
                0 <= j <= ne,
                out@ == after_pid + render_targets(node@.edges.subrange(0, j as int)),
                after_pid == out_before + seq![80u8, 32u8] + render_pid(node.pid@) + seq![10u8],
            decreases ne - j,
        {
            let ghost before_edge = out@;
            out.push(68);
            out.push(32);
            push_pid(&mut out, &node.edges[j].target);
            out.push(10);
            proof {
                let prev = node@.edges.subrange(0, j as int);
                let cur = node@.edges.subrange(0, j as int + 1);
                assert(cur.drop_last() =~= prev);
                assert(cur.last() == node@.edges[j as int]);
                assert(node@.edges[j as int].target == node.edges@[j as int]@.target);
                assert(out@ =~= before_edge + seq![68u8, 32u8] + render_pid(
                    node.edges@[j as int]@.target,
                ) + seq![10u8]);
                assert(out@ =~= after_pid + render_targets(cur));
            }
            j = j + 1;
        }
        proof {
            let prev = sortedv.subrange(0, i as int);
            let cur = sortedv.subrange(0, i as int + 1);
            assert(cur.drop_last() =~= prev);
            assert(cur.last() == sortedv[i as int]);
            assert(sortedv[i as int] == sorted@[i as int]@);
            assert(node@.edges.subrange(0, ne as int) =~= node@.edges);
            assert(out@ =~= after_pid + render_targets(node@.edges));
            assert(out@ =~= seq![118u8, 49u8, 10u8] + render_nodes(cur));
        }
        i = i + 1;
    }
    proof {
        assert(sortedv.subrange(0, nn as int) =~= sortedv);
    }
    out
}

} // verus!
