//! What holds of the graph across its operations: the dependencies stay
//! present and free of loops whatever is done to them, so the graph check
//! keeps passing, the parent links stay a forest,
//! a finished node stays finished, only finished work is archived, nobody
//! holds two live claims, no dependency is listed twice, an upsert cannot
//! touch a held node, a node that says it is ready has its dependencies
//! done, a claim naming a generation wins once, what the ready view offers
//! a claim accepts, and what is saved loads back.

use vstd::prelude::*;
use crate::id::WorkId;
use crate::model::{acyclic, bump, deps_done, is_path, lemma_reaches_refl, lemma_reaches_step, lemma_reaches_trans, logged, promoted, reaches, recomputed, step, with_recomputed, GraphView};
use crate::graph::{
    archive_post, claim_post, claimable, complete_post, handed_back, holds_other, link_post, pruned_from, put, reclaim_post, reclaimed, release_post, renew_post,
    reopen_post, running_post, unarchive_post, unlink_post, upsert_post, upserted, fresh_node, without,
};
use crate::graph::{in_list_order, last_wins, loads_from, newer, parent_reaches_spec, up, walk_up, FORMAT_V1};
use crate::snap::{lemma_snapshot_unique, snapshot_bytes, snapshot_fits};
use crate::cli::get_lines;
use crate::forest::quiet_text;
use crate::graph::join_hex;
use crate::text::dec;
use crate::work::{NodeView, WorkFields, WorkStatus};

verus! {

/// Each node sits under its own id, as in every graph `WorkGraph` holds.
pub open spec fn keyed(m: Map<WorkId, NodeView>) -> bool {
    forall|k: WorkId| #[trigger] m.contains_key(k) ==> m[k].id == k
}

/// Every dependency edge of `h` is one of `g`'s.
pub open spec fn edges_within(h: Map<WorkId, NodeView>, g: Map<WorkId, NodeView>) -> bool {
    forall|a: WorkId, b: WorkId| #[trigger] step(h, a, b) ==> step(g, a, b)
}

/// Every node of `h` is a node of `g` with the same dependencies.
pub open spec fn same_deps_within(h: Map<WorkId, NodeView>, g: Map<WorkId, NodeView>) -> bool {
    forall|k: WorkId| #[trigger] h.contains_key(k) ==> g.contains_key(k) && h[k].deps == g[k].deps
}

proof fn lemma_same_deps_edges(h: Map<WorkId, NodeView>, g: Map<WorkId, NodeView>)
    requires
        same_deps_within(h, g),
    ensures
        edges_within(h, g),
{
    assert forall|a: WorkId, b: WorkId| #[trigger] step(h, a, b) implies step(g, a, b) by {
        assert(h.contains_key(a));
    }
}

proof fn lemma_same_deps_trans(a: Map<WorkId, NodeView>, b: Map<WorkId, NodeView>, c: Map<WorkId, NodeView>)
    requires
        same_deps_within(a, b),
        same_deps_within(b, c),
    ensures
        same_deps_within(a, c),
{
    assert forall|k: WorkId| #[trigger] a.contains_key(k) implies c.contains_key(k) && a[k].deps == c[k].deps by {
        assert(b.contains_key(k));
    }
}

/// Putting a node and recomputing its readiness keeps the dependencies the
/// put node carries.
proof fn lemma_put_recompute(g: GraphView, n: NodeView, now: u64)
    ensures
        same_deps_within(with_recomputed(put(g, n), n.id, now).nodes, g.nodes.insert(n.id, n)),
        with_recomputed(put(g, n), n.id, now).nodes.dom() == g.nodes.insert(n.id, n).dom(),
{
    let g1 = put(g, n);
    assert(g1.nodes.contains_key(n.id));
    let m2 = with_recomputed(g1, n.id, now).nodes;
    assert(m2 == g1.nodes.insert(n.id, recomputed(g1.nodes, g1.nodes[n.id], now)));
    assert(m2.dom() =~= g.nodes.insert(n.id, n).dom());
}

proof fn lemma_path_within(h: Map<WorkId, NodeView>, g: Map<WorkId, NodeView>, p: Seq<WorkId>)
    requires
        edges_within(h, g),
        is_path(h, p),
    ensures
        is_path(g, p),
{
    assert forall|i: int| 0 <= i < p.len() - 1 implies step(g, #[trigger] p[i], p[i + 1]) by {
        assert(step(h, p[i], p[i + 1]));
    }
}

/// Dropping dependency edges, or whole nodes, never closes a loop.
pub proof fn lemma_fewer_edges_acyclic(g: Map<WorkId, NodeView>, h: Map<WorkId, NodeView>)
    requires
        edges_within(h, g),
        acyclic(g),
    ensures
        acyclic(h),
{
    assert forall|a: WorkId, b: WorkId| #[trigger] step(h, a, b) implies !reaches(h, b, a) by {
        assert(step(g, a, b));
        if reaches(h, b, a) {
            let p = choose|p: Seq<WorkId>| #[trigger] is_path(h, p) && p[0] == b && p.last() == a;
            lemma_path_within(h, g, p);
            assert(reaches(g, b, a));
        }
    }
}

/// A walk over `g`'s edges and one more, from `child` to `parent`, either
/// keeps to `g` or passes from `parent` on after reaching `child`.
proof fn lemma_path_plus(g: Map<WorkId, NodeView>, h: Map<WorkId, NodeView>, child: WorkId, parent: WorkId, p: Seq<WorkId>)
    requires
        forall|a: WorkId, b: WorkId| #[trigger] step(h, a, b) ==> step(g, a, b) || (a == child && b == parent),
        is_path(h, p),
    ensures
        reaches(g, p[0], p.last()) || (reaches(g, p[0], child) && reaches(g, parent, p.last())),
    decreases p.len(),
{
    if p.len() == 1 {
        lemma_reaches_refl(g, p[0]);
    } else {
        let q = p.drop_last();
        assert(is_path(h, q)) by {
            assert forall|i: int| 0 <= i < q.len() - 1 implies step(h, #[trigger] q[i], q[i + 1]) by {
                assert(step(h, p[i], p[i + 1]));
            }
        }
        lemma_path_plus(g, h, child, parent, q);
        let x = q.last();
        let y = p.last();
        assert(x == p[p.len() - 2]);
        assert(step(h, p[p.len() - 2], p[p.len() - 1]));
        if step(g, x, y) {
            if reaches(g, p[0], x) {
                lemma_reaches_step(g, p[0], x, y);
            } else {
                lemma_reaches_step(g, parent, x, y);
            }
        } else {
            assert(x == child && y == parent);
            lemma_reaches_refl(g, parent);
        }
    }
}

/// Linking keeps the dependencies free of loops.
pub proof fn lemma_link_keeps_acyclic(g: GraphView, h: GraphView, parent: WorkId, child: WorkId, actor: WorkId, now: u64, r: Result<(), String>)
    requires
        link_post(g, h, parent, child, actor, now, r),
        keyed(g.nodes),
        acyclic(g.nodes),
    ensures
        acyclic(h.nodes),
{
    if r is Ok && !(parent.nil() || child.nil()) && parent != child && g.nodes.contains_key(parent) && g.nodes.contains_key(child)
        && !reaches(g.nodes, parent, child) {
        let m = g.nodes;
        let hm = h.nodes;
        let n = m[child];
        let n1 = if n.deps.contains(parent) { n } else { NodeView { deps: n.deps.push(parent), updated_unix: now, ..n } };
        lemma_put_recompute(g, n1, now);
        assert(hm == with_recomputed(put(g, n1), child, now).nodes);
        assert forall|a: WorkId, b: WorkId| #[trigger] step(hm, a, b) implies step(m, a, b) || (a == child && b == parent) by {
            assert(m.insert(child, n1).contains_key(a));
            if a == child {
                assert(hm[child].deps == n1.deps);
                if !n.deps.contains(parent) {
                    if b != parent {
                        let i = choose|i: int| 0 <= i < n.deps.push(parent).len() && n.deps.push(parent)[i] == b;
                        assert(n.deps[i] == b);
                    }
                }
            } else {
                assert(hm[a].deps == m[a].deps);
            }
        }
        assert forall|a: WorkId, b: WorkId| #[trigger] step(hm, a, b) implies !reaches(hm, b, a) by {
            if reaches(hm, b, a) {
                let p = choose|p: Seq<WorkId>| #[trigger] is_path(hm, p) && p[0] == b && p.last() == a;
                lemma_path_plus(m, hm, child, parent, p);
                if step(m, a, b) {
                    if reaches(m, b, child) && reaches(m, parent, a) {
                        lemma_reaches_step(m, parent, a, b);
                        lemma_reaches_trans(m, parent, b, child);
                    }
                }
            }
        }
    }
}

/// Unlinking keeps the dependencies free of loops.
pub proof fn lemma_unlink_keeps_acyclic(g: GraphView, h: GraphView, parent: WorkId, child: WorkId, actor: WorkId, now: u64, r: Result<(), String>)
    requires
        unlink_post(g, h, parent, child, actor, now, r),
        keyed(g.nodes),
        acyclic(g.nodes),
    ensures
        acyclic(h.nodes),
{
    if h != g {
        let m = g.nodes;
        let hm = h.nodes;
        let n = m[child];
        let kept = without(n.deps, parent);
        let n1 = if kept.len() != n.deps.len() { NodeView { deps: kept, updated_unix: now, ..n } } else { n };
        lemma_put_recompute(g, n1, now);
        assert(hm == with_recomputed(put(g, n1), child, now).nodes);
        assert forall|a: WorkId, b: WorkId| #[trigger] step(hm, a, b) implies step(m, a, b) by {
            assert(m.insert(child, n1).contains_key(a));
            if a == child {
                assert(hm[child].deps == n1.deps);
                lemma_without_sub(n.deps, parent, b);
            } else {
                assert(hm[a].deps == m[a].deps);
            }
        }
    }
    if h != g {
        lemma_fewer_edges_acyclic(g.nodes, h.nodes);
    }
}

/// What is left after removing `x` was there before.
proof fn lemma_without_sub(s: Seq<WorkId>, x: WorkId, b: WorkId)
    ensures
        without(s, x).contains(b) ==> s.contains(b),
    decreases s.len(),
{
    if s.len() > 0 {
        lemma_without_sub(s.drop_last(), x, b);
        if without(s, x).contains(b) {
            if s.last() != x {
                let i = choose|i: int| 0 <= i < without(s, x).len() && without(s, x)[i] == b;
                if i < without(s.drop_last(), x).len() {
                    assert(without(s.drop_last(), x)[i] == b);
                    let j = choose|j: int| 0 <= j < s.drop_last().len() && s.drop_last()[j] == b;
                    assert(s[j] == b);
                } else {
                    assert(s[s.len() - 1] == b);
                }
            } else {
                let j = choose|j: int| 0 <= j < s.drop_last().len() && s.drop_last()[j] == b;
                assert(s[j] == b);
            }
        }
    }
}

/// An operation that only replaces nodes with copies that keep their
/// dependencies keeps the dependencies free of loops.
proof fn lemma_same_deps_acyclic(g: Map<WorkId, NodeView>, h: Map<WorkId, NodeView>)
    requires
        same_deps_within(h, g),
        acyclic(g),
    ensures
        acyclic(h),
{
    lemma_same_deps_edges(h, g);
    lemma_fewer_edges_acyclic(g, h);
}

/// Readiness recomputed for the waiting nodes keeps every dependency list.
proof fn lemma_promoted_deps(m: Map<WorkId, NodeView>, done_id: WorkId, now: u64)
    ensures
        same_deps_within(promoted(m, done_id, now), m),
        promoted(m, done_id, now).dom() == m.dom(),
{
    assert(promoted(m, done_id, now).dom() =~= m.dom());
}

/// Completing keeps the dependencies free of loops.
pub proof fn lemma_complete_keeps_acyclic(
    g: GraphView,
    h: GraphView,
    id: WorkId,
    status: WorkStatus,
    summary: Seq<char>,
    actor: WorkId,
    expected_gen: Option<u64>,
    now: u64,
    r: Result<(), String>,
)
    requires
        complete_post(g, h, id, status, summary, actor, expected_gen, now, r),
        keyed(g.nodes),
        acyclic(g.nodes),
    ensures
        acyclic(h.nodes),
{
    if h != g {
        let m = g.nodes;
        if g.nodes.contains_key(id) && !g.nodes[id].status.terminal() && r is Ok && status.terminal() {
            let n = m[id];
            let n2 = NodeView {
                status,
                summary: if summary.len() > 0 { summary } else { n.summary },
                finished_unix: now,
                updated_unix: now,
                ..n
            };
            let m1 = m.insert(id, n2);
            lemma_promoted_deps(m1, id, now);
            assert(same_deps_within(m1, m));
            assert(h.nodes == promoted(m1, id, now));
            lemma_same_deps_trans(h.nodes, m1, m);
        } else {
            let n = m[id];
            assert(h.nodes == m.insert(id, NodeView { summary, ..n }));
            assert(same_deps_within(h.nodes, m));
        }
        lemma_same_deps_acyclic(m, h.nodes);
    }
}

/// Upserting keeps the dependencies free of loops.
pub proof fn lemma_upsert_keeps_acyclic(g: GraphView, h: GraphView, id_in: WorkId, f: WorkFields, now: u64, r: Result<WorkId, String>)
    requires
        upsert_post(g, h, id_in, f, now, r),
        keyed(g.nodes),
        acyclic(g.nodes),
    ensures
        acyclic(h.nodes),
{
    let g1 = if id_in.nil() { GraphView { mint_seq: bump(g.mint_seq), ..g } } else { g };
    let id = if id_in.nil() { crate::graph::minted(g.mint_seq, f.kind, f.parent, f.summary@, now) } else { id_in };
    let n0 = if g1.nodes.contains_key(id) { g1.nodes[id] } else { fresh_node(id, f, now) };
    let m = g.nodes;
    // a node with no dependencies, or the same ones, adds no edge
    let m2 = m.insert(id, n0);
    assert(edges_within(m2, m)) by {
        assert forall|a: WorkId, b: WorkId| #[trigger] step(m2, a, b) implies step(m, a, b) by {
            if a == id && !m.contains_key(id) {
                assert(n0.deps.len() == 0);
            }
        }
    }
    if r is Ok {
        let g3 = logged(with_recomputed(put(g1, upserted(n0, f, now)), id, now), id, f.actor, "upsert", now);
        lemma_put_recompute(g1, upserted(n0, f, now), now);
        assert(g1.nodes == m);
        assert(same_deps_within(g1.nodes.insert(id, upserted(n0, f, now)), m2));
        lemma_same_deps_trans(g3.nodes, g1.nodes.insert(id, upserted(n0, f, now)), m2);
        lemma_same_deps_edges(g3.nodes, m2);
        assert(edges_within(h.nodes, g3.nodes)) by {
            assert forall|a: WorkId, b: WorkId| #[trigger] step(h.nodes, a, b) implies step(g3.nodes, a, b) by {
                assert(h.nodes.contains_key(a));
            }
        }
        lemma_fewer_edges_acyclic(m, m2);
        lemma_fewer_edges_acyclic(m2, g3.nodes);
        lemma_fewer_edges_acyclic(g3.nodes, h.nodes);
    } else {
        lemma_fewer_edges_acyclic(m, m2);
        if h.nodes != m {
            assert(h.nodes == m2);
        }
    }
}

/// A node put back with its dependencies keeps the dependencies free of loops.
proof fn lemma_put_same_deps(g: GraphView, n: NodeView)
    requires
        keyed(g.nodes),
        g.nodes.contains_key(n.id),
        n.deps == g.nodes[n.id].deps,
        acyclic(g.nodes),
    ensures
        acyclic(put(g, n).nodes),
{
    assert(same_deps_within(put(g, n).nodes, g.nodes));
    lemma_same_deps_acyclic(g.nodes, put(g, n).nodes);
}

/// Claiming keeps the dependencies free of loops.
pub proof fn lemma_claim_keeps_acyclic(g: GraphView, h: GraphView, id: WorkId, assignee: WorkId, expected_gen: Option<u64>, now: u64, r: Result<u64, String>)
    requires
        claim_post(g, h, id, assignee, expected_gen, now, r),
        keyed(g.nodes),
        acyclic(g.nodes),
    ensures
        acyclic(h.nodes),
{
    if h != g {
        let n = g.nodes[id];
        lemma_put_same_deps(g, NodeView { status: WorkStatus::Claimed, assignee, cas_gen: bump(n.cas_gen), updated_unix: now, ..n });
    }
}

/// Handing a claim back keeps the dependencies free of loops.
pub proof fn lemma_release_keeps_acyclic(g: GraphView, h: GraphView, id: WorkId, actor: WorkId, now: u64, r: Result<u64, String>)
    requires
        release_post(g, h, id, actor, now, r),
        keyed(g.nodes),
        acyclic(g.nodes),
    ensures
        acyclic(h.nodes),
{
    if h != g {
        lemma_put_same_deps(g, handed_back(g.nodes[id], now));
    }
}

/// Reopening keeps the dependencies free of loops.
pub proof fn lemma_reopen_keeps_acyclic(g: GraphView, h: GraphView, id: WorkId, actor: WorkId, now: u64, r: Result<u64, String>)
    requires
        reopen_post(g, h, id, actor, now, r),
        keyed(g.nodes),
        acyclic(g.nodes),
    ensures
        acyclic(h.nodes),
{
    if h != g {
        lemma_put_same_deps(g, NodeView { archived: false, ..handed_back(g.nodes[id], now) });
    }
}

/// Renewing keeps the dependencies free of loops.
pub proof fn lemma_renew_keeps_acyclic(g: GraphView, h: GraphView, id: WorkId, actor: WorkId, now: u64, r: Result<u64, String>)
    requires
        renew_post(g, h, id, actor, now, r),
        keyed(g.nodes),
        acyclic(g.nodes),
    ensures
        acyclic(h.nodes),
{
    if h != g {
        lemma_put_same_deps(g, NodeView { updated_unix: now, ..g.nodes[id] });
    }
}

/// Starting the work keeps the dependencies free of loops.
pub proof fn lemma_running_keeps_acyclic(g: GraphView, h: GraphView, id: WorkId, actor: WorkId, now: u64, r: Result<(), String>)
    requires
        running_post(g, h, id, actor, now, r),
        keyed(g.nodes),
        acyclic(g.nodes),
    ensures
        acyclic(h.nodes),
{
    if h != g {
        lemma_put_same_deps(g, NodeView { status: WorkStatus::Running, updated_unix: now, ..g.nodes[id] });
    }
}

/// Archiving keeps the dependencies free of loops.
pub proof fn lemma_archive_keeps_acyclic(g: GraphView, h: GraphView, id: WorkId, actor: WorkId, now: u64, r: Result<(), String>)
    requires
        archive_post(g, h, id, actor, now, r),
        keyed(g.nodes),
        acyclic(g.nodes),
    ensures
        acyclic(h.nodes),
{
    if h != g {
        let n = g.nodes[id];
        lemma_put_same_deps(g, NodeView { archived: true, updated_unix: now, cas_gen: bump(n.cas_gen), ..n });
    }
}

/// Unarchiving keeps the dependencies free of loops.
pub proof fn lemma_unarchive_keeps_acyclic(g: GraphView, h: GraphView, id: WorkId, actor: WorkId, now: u64, r: Result<(), String>)
    requires
        unarchive_post(g, h, id, actor, now, r),
        keyed(g.nodes),
        acyclic(g.nodes),
    ensures
        acyclic(h.nodes),
{
    if h != g {
        let n = g.nodes[id];
        lemma_put_same_deps(g, NodeView { archived: false, updated_unix: now, cas_gen: bump(n.cas_gen), ..n });
    }
}

proof fn lemma_reclaimed_deps(g: GraphView, ids: Seq<WorkId>, now: u64)
    requires
        keyed(g.nodes),
        forall|i: int| 0 <= i < ids.len() ==> g.nodes.contains_key(#[trigger] ids[i]),
    ensures
        same_deps_within(reclaimed(g, ids, now).nodes, g.nodes),
        keyed(reclaimed(g, ids, now).nodes),
    decreases ids.len(),
{
    if ids.len() > 0 {
        lemma_reclaimed_deps(g, ids.drop_last(), now);
        assert(g.nodes.contains_key(ids[ids.len() - 1]));
    }
}

/// Taking back stale claims keeps the dependencies free of loops.
pub proof fn lemma_reclaim_keeps_acyclic(g: GraphView, h: GraphView, lease: u64, now: u64, r: Seq<WorkId>)
    requires
        reclaim_post(g, h, lease, now, r),
        keyed(g.nodes),
        acyclic(g.nodes),
    ensures
        acyclic(h.nodes),
{
    assert forall|i: int| 0 <= i < r.len() implies g.nodes.contains_key(#[trigger] r[i]) by {
        assert(r.contains(r[i]));
    }
    lemma_reclaimed_deps(g, r, now);
    lemma_same_deps_acyclic(g.nodes, h.nodes);
}

/// A claim that names the generation wins at most once: the winning claim
/// moves the generation, so a second claim naming the same one is refused.
pub proof fn lemma_claim_gen_wins_once(
    g: GraphView,
    h1: GraphView,
    h2: GraphView,
    id: WorkId,
    a1: WorkId,
    a2: WorkId,
    x: u64,
    now1: u64,
    now2: u64,
    r1: Result<u64, String>,
    r2: Result<u64, String>,
)
    requires
        keyed(g.nodes),
        x < u64::MAX,
        claim_post(g, h1, id, a1, Some(x), now1, r1),
        r1 is Ok,
        claim_post(h1, h2, id, a2, Some(x), now2, r2),
    ensures
        r2 is Err,
        h2 == h1,
{
}

/// Everything the ready view offers, a claim by an identity holding nothing
/// else accepts.
pub proof fn lemma_ready_can_be_claimed(g: GraphView, h: GraphView, id: WorkId, assignee: WorkId, now: u64, r: Result<u64, String>)
    requires
        g.nodes.contains_key(id),
        claimable(g.nodes, g.nodes[id]),
        !id.nil(),
        !assignee.nil(),
        forall|k: WorkId| !holds_other(g, id, assignee, k),
        claim_post(g, h, id, assignee, None, now, r),
    ensures
        r is Ok,
        h.nodes[id].status == WorkStatus::Claimed,
        h.nodes[id].assignee == assignee,
{
}

/// A finished node stays finished: every change but `reopen` leaves the
/// status of a terminal node alone.
pub open spec fn terminal_kept(g: GraphView, h: GraphView) -> bool {
    forall|k: WorkId| #[trigger] h.nodes.contains_key(k) && g.nodes.contains_key(k) && g.nodes[k].status.terminal()
        ==> h.nodes[k].status == g.nodes[k].status
}

pub proof fn lemma_claim_keeps_terminal(g: GraphView, h: GraphView, id: WorkId, assignee: WorkId, expected_gen: Option<u64>, now: u64, r: Result<u64, String>)
    requires
        claim_post(g, h, id, assignee, expected_gen, now, r),
        keyed(g.nodes),
    ensures
        terminal_kept(g, h),
{
}

pub proof fn lemma_complete_keeps_terminal(
    g: GraphView,
    h: GraphView,
    id: WorkId,
    status: WorkStatus,
    summary: Seq<char>,
    actor: WorkId,
    expected_gen: Option<u64>,
    now: u64,
    r: Result<(), String>,
)
    requires
        complete_post(g, h, id, status, summary, actor, expected_gen, now, r),
        keyed(g.nodes),
    ensures
        terminal_kept(g, h),
{
    if h != g && g.nodes.contains_key(id) && !g.nodes[id].status.terminal() && r is Ok && status.terminal() {
        let m = g.nodes;
        let n = m[id];
        let n2 = NodeView {
            status,
            summary: if summary.len() > 0 { summary } else { n.summary },
            finished_unix: now,
            updated_unix: now,
            ..n
        };
        let m1 = m.insert(id, n2);
        assert(h.nodes == promoted(m1, id, now));
        assert forall|k: WorkId| #[trigger] h.nodes.contains_key(k) && g.nodes.contains_key(k) && g.nodes[k].status.terminal()
            implies h.nodes[k].status == g.nodes[k].status by {
            assert(k != id);
            assert(m1[k] == m[k]);
        }
    }
}

pub proof fn lemma_link_keeps_terminal(g: GraphView, h: GraphView, parent: WorkId, child: WorkId, actor: WorkId, now: u64, r: Result<(), String>)
    requires
        link_post(g, h, parent, child, actor, now, r),
        keyed(g.nodes),
    ensures
        terminal_kept(g, h),
{
    if h != g {
        let n = g.nodes[child];
        let n1 = if n.deps.contains(parent) { n } else { NodeView { deps: n.deps.push(parent), updated_unix: now, ..n } };
        let g1 = put(g, n1);
        assert(g1.nodes.contains_key(child));
        assert(h.nodes == g1.nodes.insert(child, recomputed(g1.nodes, g1.nodes[child], now)));
    }
}

pub proof fn lemma_upsert_keeps_terminal(g: GraphView, h: GraphView, id_in: WorkId, f: WorkFields, now: u64, r: Result<WorkId, String>)
    requires
        upsert_post(g, h, id_in, f, now, r),
        keyed(g.nodes),
    ensures
        terminal_kept(g, h),
{
    let g1 = if id_in.nil() { GraphView { mint_seq: bump(g.mint_seq), ..g } } else { g };
    let id = if id_in.nil() { crate::graph::minted(g.mint_seq, f.kind, f.parent, f.summary@, now) } else { id_in };
    let n0 = if g1.nodes.contains_key(id) { g1.nodes[id] } else { fresh_node(id, f, now) };
    if r is Ok {
        let g2 = put(g1, upserted(n0, f, now));
        assert(g2.nodes.contains_key(id));
        let g3 = logged(with_recomputed(g2, id, now), id, f.actor, "upsert", now);
        assert(g3.nodes == g2.nodes.insert(id, recomputed(g2.nodes, g2.nodes[id], now)));
        assert forall|k: WorkId| #[trigger] h.nodes.contains_key(k) && g.nodes.contains_key(k) && g.nodes[k].status.terminal()
            implies h.nodes[k].status == g.nodes[k].status by {
            assert(g3.nodes.contains_key(k) && h.nodes[k] == g3.nodes[k]);
            if k == id {
                assert(n0 == g.nodes[id]);
            }
        }
    }
}

pub proof fn lemma_release_keeps_terminal(g: GraphView, h: GraphView, id: WorkId, actor: WorkId, now: u64, r: Result<u64, String>)
    requires
        release_post(g, h, id, actor, now, r),
        keyed(g.nodes),
    ensures
        terminal_kept(g, h),
{
}

pub proof fn lemma_renew_keeps_terminal(g: GraphView, h: GraphView, id: WorkId, actor: WorkId, now: u64, r: Result<u64, String>)
    requires
        renew_post(g, h, id, actor, now, r),
        keyed(g.nodes),
    ensures
        terminal_kept(g, h),
{
}

pub proof fn lemma_running_keeps_terminal(g: GraphView, h: GraphView, id: WorkId, actor: WorkId, now: u64, r: Result<(), String>)
    requires
        running_post(g, h, id, actor, now, r),
        keyed(g.nodes),
    ensures
        terminal_kept(g, h),
{
}

pub proof fn lemma_archive_keeps_terminal(g: GraphView, h: GraphView, id: WorkId, actor: WorkId, now: u64, r: Result<(), String>)
    requires
        archive_post(g, h, id, actor, now, r),
        keyed(g.nodes),
    ensures
        terminal_kept(g, h),
{
}

pub proof fn lemma_unarchive_keeps_terminal(g: GraphView, h: GraphView, id: WorkId, actor: WorkId, now: u64, r: Result<(), String>)
    requires
        unarchive_post(g, h, id, actor, now, r),
        keyed(g.nodes),
    ensures
        terminal_kept(g, h),
{
}

pub proof fn lemma_unlink_keeps_terminal(g: GraphView, h: GraphView, parent: WorkId, child: WorkId, actor: WorkId, now: u64, r: Result<(), String>)
    requires
        unlink_post(g, h, parent, child, actor, now, r),
        keyed(g.nodes),
    ensures
        terminal_kept(g, h),
{
    if h != g {
        let n = g.nodes[child];
        let kept = without(n.deps, parent);
        let n1 = if kept.len() != n.deps.len() { NodeView { deps: kept, updated_unix: now, ..n } } else { n };
        let g1 = put(g, n1);
        assert(g1.nodes.contains_key(child));
        assert(h.nodes == g1.nodes.insert(child, recomputed(g1.nodes, g1.nodes[child], now)));
    }
}

/// Handing back stale claims touches only held nodes, so finished ones stay.
proof fn lemma_reclaimed_keeps_terminal(g: GraphView, ids: Seq<WorkId>, now: u64)
    requires
        keyed(g.nodes),
        forall|i: int| 0 <= i < ids.len() ==> g.nodes.contains_key(#[trigger] ids[i]) && g.nodes[ids[i]].status.live(),
    ensures
        terminal_kept(g, reclaimed(g, ids, now)),
        forall|k: WorkId| #[trigger] reclaimed(g, ids, now).nodes.contains_key(k) <==> g.nodes.contains_key(k),
    decreases ids.len(),
{
    if ids.len() > 0 {
        let q = ids.drop_last();
        assert forall|i: int| 0 <= i < q.len() implies g.nodes.contains_key(#[trigger] q[i]) && g.nodes[q[i]].status.live() by {
            assert(q[i] == ids[i]);
        }
        lemma_reclaimed_keeps_terminal(g, q, now);
        let id = ids.last();
        assert(g.nodes.contains_key(ids[ids.len() - 1]));
        let g1 = reclaimed(g, q, now);
        let h = reclaimed(g, ids, now);
        let n2 = handed_back(g.nodes[id], now);
        assert(n2.id == id);
        assert(h.nodes == g1.nodes.insert(n2.id, n2));
        assert forall|k: WorkId| #[trigger] h.nodes.contains_key(k) <==> g.nodes.contains_key(k) by {
            assert(g1.nodes.contains_key(k) <==> g.nodes.contains_key(k));
        }
        assert forall|k: WorkId| #[trigger] h.nodes.contains_key(k) && g.nodes.contains_key(k) && g.nodes[k].status.terminal()
            implies h.nodes[k].status == g.nodes[k].status by {
            if k != n2.id {
                assert(g1.nodes.contains_key(k));
                assert(h.nodes[k] == g1.nodes[k]);
            } else {
                assert(g.nodes[id].status.live());
            }
        }
    }
}

pub proof fn lemma_reclaim_keeps_terminal(g: GraphView, h: GraphView, lease: u64, now: u64, r: Seq<WorkId>)
    requires
        reclaim_post(g, h, lease, now, r),
        keyed(g.nodes),
    ensures
        terminal_kept(g, h),
{
    assert forall|i: int| 0 <= i < r.len() implies g.nodes.contains_key(#[trigger] r[i]) && g.nodes[r[i]].status.live() by {
        assert(r.contains(r[i]));
    }
    lemma_reclaimed_keeps_terminal(g, r, now);
}

/// Node `k` is held, claimed or running, by `who`.
pub open spec fn live_by(m: Map<WorkId, NodeView>, k: WorkId, who: WorkId) -> bool {
    m.contains_key(k) && m[k].status.live() && m[k].assignee == who
}

/// No identity holds two live nodes at once.
pub open spec fn one_live_each(m: Map<WorkId, NodeView>) -> bool {
    forall|a: WorkId, b: WorkId, who: WorkId|
        #![trigger live_by(m, a, who), live_by(m, b, who)]
        !who.nil() && live_by(m, a, who) && live_by(m, b, who) ==> a == b
}

/// Whatever `h` holds live, `g` held live by the same identity.
pub open spec fn no_new_holds(g: Map<WorkId, NodeView>, h: Map<WorkId, NodeView>) -> bool {
    forall|k: WorkId, who: WorkId| #[trigger] live_by(h, k, who) ==> live_by(g, k, who)
}

proof fn lemma_no_new_holds_one_live(g: Map<WorkId, NodeView>, h: Map<WorkId, NodeView>)
    requires
        no_new_holds(g, h),
        one_live_each(g),
    ensures
        one_live_each(h),
{
    assert forall|a: WorkId, b: WorkId, who: WorkId|
        #![trigger live_by(h, a, who), live_by(h, b, who)]
        !who.nil() && live_by(h, a, who) && live_by(h, b, who) implies a == b by {
        assert(live_by(g, a, who) && live_by(g, b, who));
    }
}

/// A claim leaves each identity holding at most one live node: the claim is
/// refused while the assignee holds any other.
pub proof fn lemma_claim_keeps_one_live(g: GraphView, h: GraphView, id: WorkId, assignee: WorkId, expected_gen: Option<u64>, now: u64, r: Result<u64, String>)
    requires
        claim_post(g, h, id, assignee, expected_gen, now, r),
        keyed(g.nodes),
        one_live_each(g.nodes),
    ensures
        one_live_each(h.nodes),
{
    if h.nodes != g.nodes {
        let m = g.nodes;
        assert(!exists|k: WorkId| holds_other(g, id, assignee, k));
        assert forall|a: WorkId, b: WorkId, who: WorkId|
            #![trigger live_by(h.nodes, a, who), live_by(h.nodes, b, who)]
            !who.nil() && live_by(h.nodes, a, who) && live_by(h.nodes, b, who) implies a == b by {
            if a != b {
                if a == id {
                    assert(who == assignee);
                    assert(holds_other(g, id, assignee, b));
                } else if b == id {
                    assert(who == assignee);
                    assert(holds_other(g, id, assignee, a));
                } else {
                    assert(live_by(m, a, who) && live_by(m, b, who));
                }
            }
        }
    }
}

/// Recomputing readiness never makes a node live.
proof fn lemma_recomputed_no_new_holds(m: Map<WorkId, NodeView>, n: NodeView, now: u64)
    ensures
        recomputed(m, n, now).status.live() ==> n.status == recomputed(m, n, now).status,
        recomputed(m, n, now).assignee == n.assignee,
{
}

proof fn lemma_put_no_new_holds(m: Map<WorkId, NodeView>, n: NodeView)
    requires
        !n.status.live() || (m.contains_key(n.id) && m[n.id].status.live() && m[n.id].assignee == n.assignee),
    ensures
        no_new_holds(m, m.insert(n.id, n)),
{
    assert forall|k: WorkId, who: WorkId| #[trigger] live_by(m.insert(n.id, n), k, who) implies live_by(m, k, who) by {
        if k != n.id {
            assert(m.insert(n.id, n)[k] == m[k]);
        }
    }
}

proof fn lemma_no_new_holds_trans(a: Map<WorkId, NodeView>, b: Map<WorkId, NodeView>, c: Map<WorkId, NodeView>)
    requires
        no_new_holds(a, b),
        no_new_holds(b, c),
    ensures
        no_new_holds(a, c),
{
    assert forall|k: WorkId, who: WorkId| #[trigger] live_by(c, k, who) implies live_by(a, k, who) by {
        assert(live_by(b, k, who));
    }
}

proof fn lemma_with_recomputed_no_new_holds(g: GraphView, id: WorkId, now: u64)
    ensures
        no_new_holds(g.nodes, with_recomputed(g, id, now).nodes),
{
    if g.nodes.contains_key(id) {
        let n = g.nodes[id];
        lemma_recomputed_no_new_holds(g.nodes, n, now);
        assert forall|k: WorkId, who: WorkId| #[trigger] live_by(with_recomputed(g, id, now).nodes, k, who) implies live_by(g.nodes, k, who) by {
            if k != id {
                assert(with_recomputed(g, id, now).nodes[k] == g.nodes[k]);
            }
        }
    }
}

/// Handing a claim back leaves each identity holding at most one live node.
pub proof fn lemma_release_keeps_one_live(g: GraphView, h: GraphView, id: WorkId, actor: WorkId, now: u64, r: Result<u64, String>)
    requires
        release_post(g, h, id, actor, now, r),
        keyed(g.nodes),
        one_live_each(g.nodes),
    ensures
        one_live_each(h.nodes),
{
    if g.nodes.contains_key(id) && h.nodes != g.nodes {
        let n2 = handed_back(g.nodes[id], now);
        assert(n2.id == id);
        lemma_put_no_new_holds(g.nodes, n2);
        lemma_no_new_holds_one_live(g.nodes, h.nodes);
    }
}

/// Reopening leaves each identity holding at most one live node.
pub proof fn lemma_reopen_keeps_one_live(g: GraphView, h: GraphView, id: WorkId, actor: WorkId, now: u64, r: Result<u64, String>)
    requires
        reopen_post(g, h, id, actor, now, r),
        keyed(g.nodes),
        one_live_each(g.nodes),
    ensures
        one_live_each(h.nodes),
{
    if g.nodes.contains_key(id) && h.nodes != g.nodes {
        let n2 = NodeView { archived: false, ..handed_back(g.nodes[id], now) };
        assert(n2.id == id);
        lemma_put_no_new_holds(g.nodes, n2);
        lemma_no_new_holds_one_live(g.nodes, h.nodes);
    }
}

/// Renewing leaves each identity holding at most one live node.
pub proof fn lemma_renew_keeps_one_live(g: GraphView, h: GraphView, id: WorkId, actor: WorkId, now: u64, r: Result<u64, String>)
    requires
        renew_post(g, h, id, actor, now, r),
        keyed(g.nodes),
        one_live_each(g.nodes),
    ensures
        one_live_each(h.nodes),
{
    if g.nodes.contains_key(id) && h.nodes != g.nodes {
        let n2 = NodeView { updated_unix: now, ..g.nodes[id] };
        assert(n2.id == id);
        lemma_put_no_new_holds(g.nodes, n2);
        lemma_no_new_holds_one_live(g.nodes, h.nodes);
    }
}

/// Starting the work leaves each identity holding at most one live node.
pub proof fn lemma_running_keeps_one_live(g: GraphView, h: GraphView, id: WorkId, actor: WorkId, now: u64, r: Result<(), String>)
    requires
        running_post(g, h, id, actor, now, r),
        keyed(g.nodes),
        one_live_each(g.nodes),
    ensures
        one_live_each(h.nodes),
{
    if g.nodes.contains_key(id) && h.nodes != g.nodes {
        let n2 = NodeView { status: WorkStatus::Running, updated_unix: now, ..g.nodes[id] };
        assert(n2.id == id);
        lemma_put_no_new_holds(g.nodes, n2);
        lemma_no_new_holds_one_live(g.nodes, h.nodes);
    }
}

/// Archiving leaves each identity holding at most one live node.
pub proof fn lemma_archive_keeps_one_live(g: GraphView, h: GraphView, id: WorkId, actor: WorkId, now: u64, r: Result<(), String>)
    requires
        archive_post(g, h, id, actor, now, r),
        keyed(g.nodes),
        one_live_each(g.nodes),
    ensures
        one_live_each(h.nodes),
{
    if g.nodes.contains_key(id) && h.nodes != g.nodes {
        let n = g.nodes[id];
        let n2 = NodeView { archived: true, updated_unix: now, cas_gen: bump(n.cas_gen), ..n };
        assert(n2.id == id);
        lemma_put_no_new_holds(g.nodes, n2);
        lemma_no_new_holds_one_live(g.nodes, h.nodes);
    }
}

/// Unarchiving leaves each identity holding at most one live node.
pub proof fn lemma_unarchive_keeps_one_live(g: GraphView, h: GraphView, id: WorkId, actor: WorkId, now: u64, r: Result<(), String>)
    requires
        unarchive_post(g, h, id, actor, now, r),
        keyed(g.nodes),
        one_live_each(g.nodes),
    ensures
        one_live_each(h.nodes),
{
    if g.nodes.contains_key(id) && h.nodes != g.nodes {
        let n = g.nodes[id];
        let n2 = NodeView { archived: false, updated_unix: now, cas_gen: bump(n.cas_gen), ..n };
        assert(n2.id == id);
        lemma_put_no_new_holds(g.nodes, n2);
        lemma_no_new_holds_one_live(g.nodes, h.nodes);
    }
}

/// Linking leaves each identity holding at most one live node.
pub proof fn lemma_link_keeps_one_live(g: GraphView, h: GraphView, parent: WorkId, child: WorkId, actor: WorkId, now: u64, r: Result<(), String>)
    requires
        link_post(g, h, parent, child, actor, now, r),
        keyed(g.nodes),
        one_live_each(g.nodes),
    ensures
        one_live_each(h.nodes),
{
    if h != g {
        let n = g.nodes[child];
        let n1 = if n.deps.contains(parent) { n } else { NodeView { deps: n.deps.push(parent), updated_unix: now, ..n } };
        assert(n1.id == child);
        lemma_put_no_new_holds(g.nodes, n1);
        lemma_with_recomputed_no_new_holds(put(g, n1), child, now);
        lemma_no_new_holds_trans(g.nodes, put(g, n1).nodes, h.nodes);
        lemma_no_new_holds_one_live(g.nodes, h.nodes);
    }
}

/// Unlinking leaves each identity holding at most one live node.
pub proof fn lemma_unlink_keeps_one_live(g: GraphView, h: GraphView, parent: WorkId, child: WorkId, actor: WorkId, now: u64, r: Result<(), String>)
    requires
        unlink_post(g, h, parent, child, actor, now, r),
        keyed(g.nodes),
        one_live_each(g.nodes),
    ensures
        one_live_each(h.nodes),
{
    if h != g {
        let n = g.nodes[child];
        let kept = without(n.deps, parent);
        let n1 = if kept.len() != n.deps.len() { NodeView { deps: kept, updated_unix: now, ..n } } else { n };
        assert(n1.id == child);
        lemma_put_no_new_holds(g.nodes, n1);
        lemma_with_recomputed_no_new_holds(put(g, n1), child, now);
        lemma_no_new_holds_trans(g.nodes, put(g, n1).nodes, h.nodes);
        lemma_no_new_holds_one_live(g.nodes, h.nodes);
    }
}

/// Completing leaves each identity holding at most one live node.
pub proof fn lemma_complete_keeps_one_live(
    g: GraphView,
    h: GraphView,
    id: WorkId,
    status: WorkStatus,
    summary: Seq<char>,
    actor: WorkId,
    expected_gen: Option<u64>,
    now: u64,
    r: Result<(), String>,
)
    requires
        complete_post(g, h, id, status, summary, actor, expected_gen, now, r),
        keyed(g.nodes),
        one_live_each(g.nodes),
    ensures
        one_live_each(h.nodes),
{
    if h != g && g.nodes.contains_key(id) && r is Ok && status.terminal() {
        let m = g.nodes;
        let n = m[id];
        if n.status.terminal() {
            lemma_put_no_new_holds(m, NodeView { summary, ..n });
        } else {
            let n2 = NodeView {
                status,
                summary: if summary.len() > 0 { summary } else { n.summary },
                finished_unix: now,
                updated_unix: now,
                ..n
            };
            let m1 = m.insert(id, n2);
            lemma_put_no_new_holds(m, n2);
            assert forall|k: WorkId, who: WorkId| #[trigger] live_by(promoted(m1, id, now), k, who) implies live_by(m1, k, who) by {
                lemma_recomputed_no_new_holds(m1, m1[k], now);
            }
            lemma_no_new_holds_trans(m, m1, h.nodes);
        }
        lemma_no_new_holds_one_live(m, h.nodes);
    }
}

/// Upserting leaves each identity holding at most one live node: it never
/// makes a node live, and a fresh node starts unheld.
pub proof fn lemma_upsert_keeps_one_live(g: GraphView, h: GraphView, id_in: WorkId, f: WorkFields, now: u64, r: Result<WorkId, String>)
    requires
        upsert_post(g, h, id_in, f, now, r),
        keyed(g.nodes),
        one_live_each(g.nodes),
    ensures
        one_live_each(h.nodes),
{
    let g1 = if id_in.nil() { GraphView { mint_seq: bump(g.mint_seq), ..g } } else { g };
    let id = if id_in.nil() { crate::graph::minted(g.mint_seq, f.kind, f.parent, f.summary@, now) } else { id_in };
    let n0 = if g1.nodes.contains_key(id) { g1.nodes[id] } else { fresh_node(id, f, now) };
    assert(g1.nodes == g.nodes);
    if h.nodes != g.nodes {
        if !g1.nodes.contains_key(id) {
            assert(n0.id == id);
        } else {
            assert(n0.id == id);
        }
        lemma_put_no_new_holds(g.nodes, n0);
        if r is Ok {
            let n1 = upserted(n0, f, now);
            assert(n1.id == id);
            lemma_put_no_new_holds(g.nodes, n1);
            let g2 = put(g1, n1);
            lemma_with_recomputed_no_new_holds(g2, id, now);
            let g3 = logged(with_recomputed(g2, id, now), id, f.actor, "upsert", now);
            lemma_no_new_holds_trans(g.nodes, g2.nodes, g3.nodes);
            assert forall|k: WorkId, who: WorkId| #[trigger] live_by(h.nodes, k, who) implies live_by(g3.nodes, k, who) by {
                assert(g3.nodes.contains_key(k) && h.nodes[k] == g3.nodes[k]);
            }
            lemma_no_new_holds_trans(g.nodes, g3.nodes, h.nodes);
        }
        lemma_no_new_holds_one_live(g.nodes, h.nodes);
    }
}

/// Handing back stale claims never makes a node live.
proof fn lemma_reclaimed_no_new_holds(g: GraphView, ids: Seq<WorkId>, now: u64)
    ensures
        no_new_holds(g.nodes, reclaimed(g, ids, now).nodes),
    decreases ids.len(),
{
    if ids.len() == 0 {
        assert forall|k: WorkId, who: WorkId| #[trigger] live_by(reclaimed(g, ids, now).nodes, k, who) implies live_by(g.nodes, k, who) by {
        }
    } else {
        let q = ids.drop_last();
        lemma_reclaimed_no_new_holds(g, q, now);
        let g1 = reclaimed(g, q, now);
        let id = ids.last();
        let n2 = handed_back(g.nodes[id], now);
        assert forall|k: WorkId, who: WorkId| #[trigger] live_by(reclaimed(g, ids, now).nodes, k, who) implies live_by(g.nodes, k, who) by {
            if k != n2.id {
                assert(reclaimed(g, ids, now).nodes[k] == g1.nodes[k]);
                assert(live_by(g1.nodes, k, who));
            }
        }
    }
}

/// Taking back stale claims leaves each identity holding at most one live node.
pub proof fn lemma_reclaim_keeps_one_live(g: GraphView, h: GraphView, lease: u64, now: u64, r: Seq<WorkId>)
    requires
        reclaim_post(g, h, lease, now, r),
        keyed(g.nodes),
        one_live_each(g.nodes),
    ensures
        one_live_each(h.nodes),
{
    lemma_reclaimed_no_new_holds(g, r, now);
    lemma_no_new_holds_one_live(g.nodes, h.nodes);
}

/// No node is its own ancestor: walking up from a node's parent never comes
/// back to the node. The parent links form a forest.
pub open spec fn parent_acyclic(m: Map<WorkId, NodeView>) -> bool {
    forall|k: WorkId| #[trigger] m.contains_key(k) && !m[k].parent.nil() ==> !parent_reaches_spec(m, m[k].parent, k)
}

/// Every node of `h` but `id` is in `g` with the same parent.
pub open spec fn parents_from(h: Map<WorkId, NodeView>, g: Map<WorkId, NodeView>, id: WorkId) -> bool {
    forall|k: WorkId| #[trigger] h.contains_key(k) && k != id ==> g.contains_key(k) && h[k].parent == g[k].parent
}

/// Walking on: `a + b` steps from `x` is `b` steps from where `a` steps led.
proof fn lemma_walk_shift(m: Map<WorkId, NodeView>, x: WorkId, y: WorkId, a: nat, b: nat)
    requires
        walk_up(m, x, a) == Some(y),
    ensures
        walk_up(m, x, a + b) == walk_up(m, y, b),
    decreases b,
{
    if b > 0 {
        lemma_walk_shift(m, x, y, a, (b - 1) as nat);
        assert(walk_up(m, x, a + b) == up(m, walk_up(m, x, (a + b - 1) as nat)));
        assert(walk_up(m, y, b) == up(m, walk_up(m, y, (b - 1) as nat)));
    }
}

/// A walk that never stood on `id` before its last step is a walk of `g` too.
proof fn lemma_walk_avoiding(h: Map<WorkId, NodeView>, g: Map<WorkId, NodeView>, id: WorkId, x: WorkId, n: nat, t: WorkId)
    requires
        parents_from(h, g, id),
        walk_up(h, x, n) == Some(t),
        forall|j: nat| j < n ==> walk_up(h, x, j) != Some(id),
    ensures
        walk_up(g, x, n) == Some(t),
    decreases n,
{
    if n > 0 {
        let prev = walk_up(h, x, (n - 1) as nat);
        assert(walk_up(h, x, n) == up(h, prev));
        let y = prev->0;
        assert(prev == Some(y));
        assert forall|j: nat| j < (n - 1) as nat implies walk_up(h, x, j) != Some(id) by {
            assert(j < n);
        }
        lemma_walk_avoiding(h, g, id, x, (n - 1) as nat, y);
        assert(walk_up(h, x, (n - 1) as nat) != Some(id));
        assert(h.contains_key(y) && y != id);
        assert(walk_up(g, x, n) == up(g, walk_up(g, x, (n - 1) as nat)));
    }
}

/// The first time a walk stands on `id`.
proof fn lemma_first_hit(m: Map<WorkId, NodeView>, x: WorkId, id: WorkId, n: nat) -> (s: nat)
    requires
        walk_up(m, x, n) == Some(id),
    ensures
        s <= n,
        walk_up(m, x, s) == Some(id),
        forall|j: nat| j < s ==> walk_up(m, x, j) != Some(id),
    decreases n,
{
    if exists|j: nat| j < n && walk_up(m, x, j) == Some(id) {
        let j = choose|j: nat| j < n && walk_up(m, x, j) == Some(id);
        lemma_first_hit(m, x, id, j)
    } else {
        n
    }
}

/// A walk from a zero id goes nowhere.
proof fn lemma_walk_from_nil(m: Map<WorkId, NodeView>, x: WorkId, n: nat)
    requires
        x.nil(),
        n > 0,
    ensures
        walk_up(m, x, n) is None,
    decreases n,
{
    if n > 1 {
        lemma_walk_from_nil(m, x, (n - 1) as nat);
    }
    assert(walk_up(m, x, n) == up(m, walk_up(m, x, (n - 1) as nat)));
}

/// Changing one node's parent to one that does not lead back to it, and
/// dropping nodes, keeps the parent links a forest.
pub proof fn lemma_reparent_keeps_forest(g: Map<WorkId, NodeView>, h: Map<WorkId, NodeView>, id: WorkId)
    requires
        parent_acyclic(g),
        parents_from(h, g, id),
        h.contains_key(id) ==> h[id].parent.nil() || !parent_reaches_spec(g, h[id].parent, id),
    ensures
        parent_acyclic(h),
{
    assert forall|k: WorkId| #[trigger] h.contains_key(k) && !h[k].parent.nil() implies !parent_reaches_spec(h, h[k].parent, k) by {
        if parent_reaches_spec(h, h[k].parent, k) {
            let x = h[k].parent;
            let n = choose|n: nat| #[trigger] walk_up(h, x, n) == Some(k);
            // One step from `k` is its parent, so `k` comes back to itself
            // after `n + 1` steps.
            assert(walk_up(h, k, 1) == up(h, walk_up(h, k, 0)));
            assert(walk_up(h, k, 1) == Some(x));
            lemma_walk_shift(h, k, x, 1, n);
            let len = (n + 1) as nat;
            assert(walk_up(h, k, len) == Some(k));
            if exists|j: nat| j < len && walk_up(h, k, j) == Some(id) {
                let j = choose|j: nat| j < len && walk_up(h, k, j) == Some(id);
                // From `id`, `len` steps lead back to `id`.
                lemma_walk_shift(h, k, k, len, j);
                lemma_walk_shift(h, k, id, j, len);
                assert(walk_up(h, id, len) == Some(id));
                assert(!id.nil()) by {
                    if id.nil() {
                        lemma_walk_from_nil(h, id, len);
                    }
                }
                assert(walk_up(h, id, 1) == up(h, walk_up(h, id, 0)));
                assert(h.contains_key(id)) by {
                    if !h.contains_key(id) {
                        assert(walk_up(h, id, 1) is None);
                        lemma_walk_from_none(h, id, 1, len);
                    }
                }
                let p = h[id].parent;
                assert(walk_up(h, id, 1) == Some(p));
                lemma_walk_shift(h, id, p, 1, (len - 1) as nat);
                assert(walk_up(h, p, (len - 1) as nat) == Some(id));
                assert(!p.nil()) by {
                    if p.nil() {
                        if len - 1 > 0 {
                            lemma_walk_from_nil(h, p, (len - 1) as nat);
                        }
                    }
                }
                let s = lemma_first_hit(h, p, id, (len - 1) as nat);
                lemma_walk_avoiding(h, g, id, p, s, id);
                assert(parent_reaches_spec(g, p, id));
            } else {
                assert(h.contains_key(k) && k != id) by {
                    assert(walk_up(h, k, 0) == Some(k));
                }
                lemma_walk_avoiding(h, g, id, k, len, k);
                assert(walk_up(g, k, 1) == up(g, walk_up(g, k, 0)));
                assert(walk_up(g, k, 1) == Some(g[k].parent));
                lemma_walk_shift(g, k, g[k].parent, 1, n);
                assert(walk_up(g, g[k].parent, n) == Some(k));
                assert(g.contains_key(k) && !g[k].parent.nil());
                assert(parent_reaches_spec(g, g[k].parent, k));
            }
        }
    }
}

/// Once a walk has stopped it stays stopped.
proof fn lemma_walk_from_none(m: Map<WorkId, NodeView>, x: WorkId, a: nat, b: nat)
    requires
        walk_up(m, x, a) is None,
        a <= b,
    ensures
        walk_up(m, x, b) is None,
    decreases b - a,
{
    if a < b {
        lemma_walk_from_none(m, x, a, (b - 1) as nat);
        assert(walk_up(m, x, b) == up(m, walk_up(m, x, (b - 1) as nat)));
    }
}

/// Upserting keeps the parent links a forest: a parent that would make the
/// node its own ancestor is refused.
pub proof fn lemma_upsert_keeps_forest(g: GraphView, h: GraphView, id_in: WorkId, f: WorkFields, now: u64, r: Result<WorkId, String>)
    requires
        upsert_post(g, h, id_in, f, now, r),
        keyed(g.nodes),
        parent_acyclic(g.nodes),
    ensures
        parent_acyclic(h.nodes),
{
    let g1 = if id_in.nil() { GraphView { mint_seq: bump(g.mint_seq), ..g } } else { g };
    let id = if id_in.nil() { crate::graph::minted(g.mint_seq, f.kind, f.parent, f.summary@, now) } else { id_in };
    let n0 = if g1.nodes.contains_key(id) { g1.nodes[id] } else { fresh_node(id, f, now) };
    assert(g1.nodes == g.nodes);
    let m = g.nodes;
    if !f.parent.nil() && (f.parent == id || parent_reaches_spec(g1.nodes, f.parent, id)) {
        assert(h.nodes == m);
    } else {
        // The node as written, before any check that refuses the upsert.
        let m2 = m.insert(id, n0);
        assert(parents_from(m2, m, id));
        assert(m2[id].parent.nil() || !parent_reaches_spec(m, m2[id].parent, id)) by {
            if m.contains_key(id) {
                assert(n0 == m[id]);
            }
        }
        if r is Ok {
            let n1 = upserted(n0, f, now);
            let m3 = m.insert(id, n1);
            let g2 = put(g1, n1);
            let g3 = logged(with_recomputed(g2, id, now), id, f.actor, "upsert", now);
            assert(n1.id == n0.id);
            assert(n0.id == id) by {
                if m.contains_key(id) {
                    assert(m[id].id == id);
                }
            }
            assert(g2.nodes == m3);
            assert(g3.nodes == m3.insert(id, recomputed(m3, m3[id], now)));
            assert(parents_from(h.nodes, m, id)) by {
                assert forall|k: WorkId| #[trigger] h.nodes.contains_key(k) && k != id implies m.contains_key(k) && h.nodes[k].parent == m[k].parent by {
                    assert(g3.nodes.contains_key(k) && h.nodes[k] == g3.nodes[k]);
                }
            }
            assert(h.nodes.contains_key(id) ==> h.nodes[id].parent == n1.parent) by {
                if h.nodes.contains_key(id) {
                    assert(g3.nodes.contains_key(id) && h.nodes[id] == g3.nodes[id]);
                }
            }
            lemma_reparent_keeps_forest(m, h.nodes, id);
        } else {
            assert(h.nodes == m2);
            lemma_reparent_keeps_forest(m, h.nodes, id);
        }
    }
}

/// Every node of `h` is in `g` with the same parent.
pub open spec fn parents_kept(h: Map<WorkId, NodeView>, g: Map<WorkId, NodeView>) -> bool {
    forall|k: WorkId| #[trigger] h.contains_key(k) ==> g.contains_key(k) && h[k].parent == g[k].parent
}

proof fn lemma_parents_kept_forest(g: Map<WorkId, NodeView>, h: Map<WorkId, NodeView>)
    requires
        parent_acyclic(g),
        parents_kept(h, g),
    ensures
        parent_acyclic(h),
{
    let z = WorkId { hi: 0, lo: 0 };
    assert(parents_from(h, g, z));
    assert(h.contains_key(z) ==> h[z].parent.nil() || !parent_reaches_spec(g, h[z].parent, z)) by {
        if h.contains_key(z) {
            assert(g.contains_key(z));
        }
    }
    lemma_reparent_keeps_forest(g, h, z);
}

proof fn lemma_put_parents_kept(m: Map<WorkId, NodeView>, n: NodeView)
    requires
        m.contains_key(n.id),
        m[n.id].parent == n.parent,
    ensures
        parents_kept(m.insert(n.id, n), m),
{
}

proof fn lemma_parents_kept_trans(a: Map<WorkId, NodeView>, b: Map<WorkId, NodeView>, c: Map<WorkId, NodeView>)
    requires
        parents_kept(b, a),
        parents_kept(c, b),
    ensures
        parents_kept(c, a),
{
    assert forall|k: WorkId| #[trigger] c.contains_key(k) implies a.contains_key(k) && c[k].parent == a[k].parent by {
        assert(b.contains_key(k));
    }
}

/// A claim keeps the parent links a forest.
pub proof fn lemma_claim_keeps_forest(g: GraphView, h: GraphView, id: WorkId, assignee: WorkId, expected_gen: Option<u64>, now: u64, r: Result<u64, String>)
    requires
        claim_post(g, h, id, assignee, expected_gen, now, r),
        parent_acyclic(g.nodes),
    ensures
        parent_acyclic(h.nodes),
{
    if h.nodes != g.nodes {
        let n = g.nodes[id];
        let n2 = NodeView { status: WorkStatus::Claimed, assignee, cas_gen: bump(n.cas_gen), updated_unix: now, ..n };
        assert(h.nodes == g.nodes.insert(id, n2));
        assert(parents_kept(h.nodes, g.nodes));
        lemma_parents_kept_forest(g.nodes, h.nodes);
    }
}

/// Handing a claim back keeps the parent links a forest.
pub proof fn lemma_release_keeps_forest(g: GraphView, h: GraphView, id: WorkId, actor: WorkId, now: u64, r: Result<u64, String>)
    requires
        release_post(g, h, id, actor, now, r),
        keyed(g.nodes),
        parent_acyclic(g.nodes),
    ensures
        parent_acyclic(h.nodes),
{
    if g.nodes.contains_key(id) && h.nodes != g.nodes {
        lemma_put_parents_kept(g.nodes, handed_back(g.nodes[id], now));
        lemma_parents_kept_forest(g.nodes, h.nodes);
    }
}

/// Reopening keeps the parent links a forest.
pub proof fn lemma_reopen_keeps_forest(g: GraphView, h: GraphView, id: WorkId, actor: WorkId, now: u64, r: Result<u64, String>)
    requires
        reopen_post(g, h, id, actor, now, r),
        keyed(g.nodes),
        parent_acyclic(g.nodes),
    ensures
        parent_acyclic(h.nodes),
{
    if g.nodes.contains_key(id) && h.nodes != g.nodes {
        lemma_put_parents_kept(g.nodes, NodeView { archived: false, ..handed_back(g.nodes[id], now) });
        lemma_parents_kept_forest(g.nodes, h.nodes);
    }
}

/// Renewing keeps the parent links a forest.
pub proof fn lemma_renew_keeps_forest(g: GraphView, h: GraphView, id: WorkId, actor: WorkId, now: u64, r: Result<u64, String>)
    requires
        renew_post(g, h, id, actor, now, r),
        keyed(g.nodes),
        parent_acyclic(g.nodes),
    ensures
        parent_acyclic(h.nodes),
{
    if g.nodes.contains_key(id) && h.nodes != g.nodes {
        lemma_put_parents_kept(g.nodes, NodeView { updated_unix: now, ..g.nodes[id] });
        lemma_parents_kept_forest(g.nodes, h.nodes);
    }
}

/// Starting the work keeps the parent links a forest.
pub proof fn lemma_running_keeps_forest(g: GraphView, h: GraphView, id: WorkId, actor: WorkId, now: u64, r: Result<(), String>)
    requires
        running_post(g, h, id, actor, now, r),
        keyed(g.nodes),
        parent_acyclic(g.nodes),
    ensures
        parent_acyclic(h.nodes),
{
    if g.nodes.contains_key(id) && h.nodes != g.nodes {
        lemma_put_parents_kept(g.nodes, NodeView { status: WorkStatus::Running, updated_unix: now, ..g.nodes[id] });
        lemma_parents_kept_forest(g.nodes, h.nodes);
    }
}

/// Archiving keeps the parent links a forest.
pub proof fn lemma_archive_keeps_forest(g: GraphView, h: GraphView, id: WorkId, actor: WorkId, now: u64, r: Result<(), String>)
    requires
        archive_post(g, h, id, actor, now, r),
        keyed(g.nodes),
        parent_acyclic(g.nodes),
    ensures
        parent_acyclic(h.nodes),
{
    if g.nodes.contains_key(id) && h.nodes != g.nodes {
        let n = g.nodes[id];
        lemma_put_parents_kept(g.nodes, NodeView { archived: true, updated_unix: now, cas_gen: bump(n.cas_gen), ..n });
        lemma_parents_kept_forest(g.nodes, h.nodes);
    }
}

/// Unarchiving keeps the parent links a forest.
pub proof fn lemma_unarchive_keeps_forest(g: GraphView, h: GraphView, id: WorkId, actor: WorkId, now: u64, r: Result<(), String>)
    requires
        unarchive_post(g, h, id, actor, now, r),
        keyed(g.nodes),
        parent_acyclic(g.nodes),
    ensures
        parent_acyclic(h.nodes),
{
    if g.nodes.contains_key(id) && h.nodes != g.nodes {
        let n = g.nodes[id];
        lemma_put_parents_kept(g.nodes, NodeView { archived: false, updated_unix: now, cas_gen: bump(n.cas_gen), ..n });
        lemma_parents_kept_forest(g.nodes, h.nodes);
    }
}

proof fn lemma_with_recomputed_parents_kept(g: GraphView, id: WorkId, now: u64)
    ensures
        parents_kept(with_recomputed(g, id, now).nodes, g.nodes),
{
    if g.nodes.contains_key(id) {
        assert forall|k: WorkId| #[trigger] with_recomputed(g, id, now).nodes.contains_key(k)
            implies g.nodes.contains_key(k) && with_recomputed(g, id, now).nodes[k].parent == g.nodes[k].parent by {
            if k != id {
                assert(with_recomputed(g, id, now).nodes[k] == g.nodes[k]);
            }
        }
    }
}

/// Linking keeps the parent links a forest.
pub proof fn lemma_link_keeps_forest(g: GraphView, h: GraphView, parent: WorkId, child: WorkId, actor: WorkId, now: u64, r: Result<(), String>)
    requires
        link_post(g, h, parent, child, actor, now, r),
        keyed(g.nodes),
        parent_acyclic(g.nodes),
    ensures
        parent_acyclic(h.nodes),
{
    if h != g {
        let n = g.nodes[child];
        let n1 = if n.deps.contains(parent) { n } else { NodeView { deps: n.deps.push(parent), updated_unix: now, ..n } };
        lemma_put_parents_kept(g.nodes, n1);
        lemma_with_recomputed_parents_kept(put(g, n1), child, now);
        lemma_parents_kept_trans(g.nodes, put(g, n1).nodes, h.nodes);
        lemma_parents_kept_forest(g.nodes, h.nodes);
    }
}

/// Unlinking keeps the parent links a forest.
pub proof fn lemma_unlink_keeps_forest(g: GraphView, h: GraphView, parent: WorkId, child: WorkId, actor: WorkId, now: u64, r: Result<(), String>)
    requires
        unlink_post(g, h, parent, child, actor, now, r),
        keyed(g.nodes),
        parent_acyclic(g.nodes),
    ensures
        parent_acyclic(h.nodes),
{
    if h != g {
        let n = g.nodes[child];
        let kept = without(n.deps, parent);
        let n1 = if kept.len() != n.deps.len() { NodeView { deps: kept, updated_unix: now, ..n } } else { n };
        lemma_put_parents_kept(g.nodes, n1);
        lemma_with_recomputed_parents_kept(put(g, n1), child, now);
        lemma_parents_kept_trans(g.nodes, put(g, n1).nodes, h.nodes);
        lemma_parents_kept_forest(g.nodes, h.nodes);
    }
}

/// Completing keeps the parent links a forest.
pub proof fn lemma_complete_keeps_forest(
    g: GraphView,
    h: GraphView,
    id: WorkId,
    status: WorkStatus,
    summary: Seq<char>,
    actor: WorkId,
    expected_gen: Option<u64>,
    now: u64,
    r: Result<(), String>,
)
    requires
        complete_post(g, h, id, status, summary, actor, expected_gen, now, r),
        keyed(g.nodes),
        parent_acyclic(g.nodes),
    ensures
        parent_acyclic(h.nodes),
{
    if h != g && g.nodes.contains_key(id) && r is Ok && status.terminal() {
        let m = g.nodes;
        let n = m[id];
        if n.status.terminal() {
            lemma_put_parents_kept(m, NodeView { summary, ..n });
        } else {
            let n2 = NodeView {
                status,
                summary: if summary.len() > 0 { summary } else { n.summary },
                finished_unix: now,
                updated_unix: now,
                ..n
            };
            let m1 = m.insert(id, n2);
            lemma_put_parents_kept(m, n2);
            assert(parents_kept(promoted(m1, id, now), m1));
            lemma_parents_kept_trans(m, m1, h.nodes);
        }
        lemma_parents_kept_forest(m, h.nodes);
    }
}

proof fn lemma_reclaimed_parents_kept(g: GraphView, ids: Seq<WorkId>, now: u64)
    requires
        keyed(g.nodes),
        forall|i: int| 0 <= i < ids.len() ==> g.nodes.contains_key(#[trigger] ids[i]),
    ensures
        parents_kept(reclaimed(g, ids, now).nodes, g.nodes),
        forall|k: WorkId| #[trigger] reclaimed(g, ids, now).nodes.contains_key(k) <==> g.nodes.contains_key(k),
    decreases ids.len(),
{
    if ids.len() > 0 {
        let q = ids.drop_last();
        assert forall|i: int| 0 <= i < q.len() implies g.nodes.contains_key(#[trigger] q[i]) by {
            assert(q[i] == ids[i]);
        }
        lemma_reclaimed_parents_kept(g, q, now);
        let id = ids.last();
        assert(g.nodes.contains_key(ids[ids.len() - 1]));
        let g1 = reclaimed(g, q, now);
        let h = reclaimed(g, ids, now);
        let n2 = handed_back(g.nodes[id], now);
        assert(n2.id == id);
        assert(h.nodes == g1.nodes.insert(id, n2));
        assert forall|k: WorkId| #[trigger] h.nodes.contains_key(k) <==> g.nodes.contains_key(k) by {
            assert(g1.nodes.contains_key(k) <==> g.nodes.contains_key(k));
        }
        assert forall|k: WorkId| #[trigger] h.nodes.contains_key(k) implies g.nodes.contains_key(k) && h.nodes[k].parent == g.nodes[k].parent by {
            if k != id {
                assert(g1.nodes.contains_key(k));
            }
        }
    }
}

/// Taking back stale claims keeps the parent links a forest.
pub proof fn lemma_reclaim_keeps_forest(g: GraphView, h: GraphView, lease: u64, now: u64, r: Seq<WorkId>)
    requires
        reclaim_post(g, h, lease, now, r),
        keyed(g.nodes),
        parent_acyclic(g.nodes),
    ensures
        parent_acyclic(h.nodes),
{
    assert forall|i: int| 0 <= i < r.len() implies g.nodes.contains_key(#[trigger] r[i]) by {
        assert(r.contains(r[i]));
    }
    lemma_reclaimed_parents_kept(g, r, now);
    lemma_parents_kept_forest(g.nodes, h.nodes);
}

/// Only a finished node is archived: the archive flag marks terminal work,
/// it is not a status of its own.
pub open spec fn archived_finished(m: Map<WorkId, NodeView>) -> bool {
    forall|k: WorkId| #[trigger] m.contains_key(k) && m[k].archived ==> m[k].status.terminal()
}

/// Every archived node of `h` is finished, or was archived in `g` with the
/// same status.
pub open spec fn archive_kept(h: Map<WorkId, NodeView>, g: Map<WorkId, NodeView>) -> bool {
    forall|k: WorkId| #[trigger] h.contains_key(k) && h[k].archived
        ==> h[k].status.terminal() || (g.contains_key(k) && g[k].archived && h[k].status == g[k].status)
}

proof fn lemma_archive_kept_finished(g: Map<WorkId, NodeView>, h: Map<WorkId, NodeView>)
    requires
        archived_finished(g),
        archive_kept(h, g),
    ensures
        archived_finished(h),
{
}

proof fn lemma_put_archive_kept(m: Map<WorkId, NodeView>, n: NodeView)
    requires
        n.archived ==> n.status.terminal() || (m.contains_key(n.id) && m[n.id].archived && n.status == m[n.id].status),
    ensures
        archive_kept(m.insert(n.id, n), m),
{
    assert forall|k: WorkId| #[trigger] m.insert(n.id, n).contains_key(k) && m.insert(n.id, n)[k].archived
        implies m.insert(n.id, n)[k].status.terminal() || (m.contains_key(k) && m[k].archived && m.insert(n.id, n)[k].status == m[k].status) by {
        if k != n.id {
            assert(m.insert(n.id, n)[k] == m[k]);
        }
    }
}

/// Recomputing readiness leaves archived nodes alone, in a graph where only
/// finished nodes are archived.
proof fn lemma_with_recomputed_archive_kept(g: GraphView, id: WorkId, now: u64)
    requires
        archived_finished(g.nodes),
    ensures
        archive_kept(with_recomputed(g, id, now).nodes, g.nodes),
{
    if g.nodes.contains_key(id) {
        let n = g.nodes[id];
        assert(recomputed(g.nodes, n, now).archived == n.archived);
        assert(n.archived ==> recomputed(g.nodes, n, now).status == n.status);
        lemma_put_archive_kept(g.nodes, recomputed(g.nodes, n, now));
    }
}

/// A claim keeps archiving to finished work.
pub proof fn lemma_claim_keeps_archive(g: GraphView, h: GraphView, id: WorkId, assignee: WorkId, expected_gen: Option<u64>, now: u64, r: Result<u64, String>)
    requires
        claim_post(g, h, id, assignee, expected_gen, now, r),
        keyed(g.nodes),
        archived_finished(g.nodes),
    ensures
        archived_finished(h.nodes),
{
    if h.nodes != g.nodes {
        let n = g.nodes[id];
        lemma_put_archive_kept(g.nodes, NodeView { status: WorkStatus::Claimed, assignee, cas_gen: bump(n.cas_gen), updated_unix: now, ..n });
        lemma_archive_kept_finished(g.nodes, h.nodes);
    }
}

/// Handing a claim back keeps archiving to finished work.
pub proof fn lemma_release_keeps_archive(g: GraphView, h: GraphView, id: WorkId, actor: WorkId, now: u64, r: Result<u64, String>)
    requires
        release_post(g, h, id, actor, now, r),
        keyed(g.nodes),
        archived_finished(g.nodes),
    ensures
        archived_finished(h.nodes),
{
    if g.nodes.contains_key(id) && h.nodes != g.nodes {
        lemma_put_archive_kept(g.nodes, handed_back(g.nodes[id], now));
        lemma_archive_kept_finished(g.nodes, h.nodes);
    }
}

/// Reopening keeps archiving to finished work: it clears the flag.
pub proof fn lemma_reopen_keeps_archive(g: GraphView, h: GraphView, id: WorkId, actor: WorkId, now: u64, r: Result<u64, String>)
    requires
        reopen_post(g, h, id, actor, now, r),
        keyed(g.nodes),
        archived_finished(g.nodes),
    ensures
        archived_finished(h.nodes),
{
    if g.nodes.contains_key(id) && h.nodes != g.nodes {
        lemma_put_archive_kept(g.nodes, NodeView { archived: false, ..handed_back(g.nodes[id], now) });
        lemma_archive_kept_finished(g.nodes, h.nodes);
    }
}

/// Renewing keeps archiving to finished work.
pub proof fn lemma_renew_keeps_archive(g: GraphView, h: GraphView, id: WorkId, actor: WorkId, now: u64, r: Result<u64, String>)
    requires
        renew_post(g, h, id, actor, now, r),
        keyed(g.nodes),
        archived_finished(g.nodes),
    ensures
        archived_finished(h.nodes),
{
    if g.nodes.contains_key(id) && h.nodes != g.nodes {
        lemma_put_archive_kept(g.nodes, NodeView { updated_unix: now, ..g.nodes[id] });
        lemma_archive_kept_finished(g.nodes, h.nodes);
    }
}

/// Starting the work keeps archiving to finished work.
pub proof fn lemma_running_keeps_archive(g: GraphView, h: GraphView, id: WorkId, actor: WorkId, now: u64, r: Result<(), String>)
    requires
        running_post(g, h, id, actor, now, r),
        keyed(g.nodes),
        archived_finished(g.nodes),
    ensures
        archived_finished(h.nodes),
{
    if g.nodes.contains_key(id) && h.nodes != g.nodes {
        lemma_put_archive_kept(g.nodes, NodeView { status: WorkStatus::Running, updated_unix: now, ..g.nodes[id] });
        lemma_archive_kept_finished(g.nodes, h.nodes);
    }
}

/// Archiving keeps archiving to finished work: it refuses live work.
pub proof fn lemma_archive_keeps_archive(g: GraphView, h: GraphView, id: WorkId, actor: WorkId, now: u64, r: Result<(), String>)
    requires
        archive_post(g, h, id, actor, now, r),
        keyed(g.nodes),
        archived_finished(g.nodes),
    ensures
        archived_finished(h.nodes),
{
    if g.nodes.contains_key(id) && h.nodes != g.nodes {
        let n = g.nodes[id];
        lemma_put_archive_kept(g.nodes, NodeView { archived: true, updated_unix: now, cas_gen: bump(n.cas_gen), ..n });
        lemma_archive_kept_finished(g.nodes, h.nodes);
    }
}

/// Unarchiving keeps archiving to finished work.
pub proof fn lemma_unarchive_keeps_archive(g: GraphView, h: GraphView, id: WorkId, actor: WorkId, now: u64, r: Result<(), String>)
    requires
        unarchive_post(g, h, id, actor, now, r),
        keyed(g.nodes),
        archived_finished(g.nodes),
    ensures
        archived_finished(h.nodes),
{
    if g.nodes.contains_key(id) && h.nodes != g.nodes {
        let n = g.nodes[id];
        lemma_put_archive_kept(g.nodes, NodeView { archived: false, updated_unix: now, cas_gen: bump(n.cas_gen), ..n });
        lemma_archive_kept_finished(g.nodes, h.nodes);
    }
}

/// Linking keeps archiving to finished work.
pub proof fn lemma_link_keeps_archive(g: GraphView, h: GraphView, parent: WorkId, child: WorkId, actor: WorkId, now: u64, r: Result<(), String>)
    requires
        link_post(g, h, parent, child, actor, now, r),
        keyed(g.nodes),
        archived_finished(g.nodes),
    ensures
        archived_finished(h.nodes),
{
    if h != g {
        let n = g.nodes[child];
        let n1 = if n.deps.contains(parent) { n } else { NodeView { deps: n.deps.push(parent), updated_unix: now, ..n } };
        lemma_put_archive_kept(g.nodes, n1);
        lemma_archive_kept_finished(g.nodes, put(g, n1).nodes);
        lemma_with_recomputed_archive_kept(put(g, n1), child, now);
        lemma_archive_kept_finished(put(g, n1).nodes, h.nodes);
    }
}

/// Unlinking keeps archiving to finished work.
pub proof fn lemma_unlink_keeps_archive(g: GraphView, h: GraphView, parent: WorkId, child: WorkId, actor: WorkId, now: u64, r: Result<(), String>)
    requires
        unlink_post(g, h, parent, child, actor, now, r),
        keyed(g.nodes),
        archived_finished(g.nodes),
    ensures
        archived_finished(h.nodes),
{
    if h != g {
        let n = g.nodes[child];
        let kept = without(n.deps, parent);
        let n1 = if kept.len() != n.deps.len() { NodeView { deps: kept, updated_unix: now, ..n } } else { n };
        lemma_put_archive_kept(g.nodes, n1);
        lemma_archive_kept_finished(g.nodes, put(g, n1).nodes);
        lemma_with_recomputed_archive_kept(put(g, n1), child, now);
        lemma_archive_kept_finished(put(g, n1).nodes, h.nodes);
    }
}

/// Completing keeps archiving to finished work.
pub proof fn lemma_complete_keeps_archive(
    g: GraphView,
    h: GraphView,
    id: WorkId,
    status: WorkStatus,
    summary: Seq<char>,
    actor: WorkId,
    expected_gen: Option<u64>,
    now: u64,
    r: Result<(), String>,
)
    requires
        complete_post(g, h, id, status, summary, actor, expected_gen, now, r),
        keyed(g.nodes),
        archived_finished(g.nodes),
    ensures
        archived_finished(h.nodes),
{
    if h != g && g.nodes.contains_key(id) && r is Ok && status.terminal() {
        let m = g.nodes;
        let n = m[id];
        if n.status.terminal() {
            lemma_put_archive_kept(m, NodeView { summary, ..n });
            lemma_archive_kept_finished(m, h.nodes);
        } else {
            let n2 = NodeView {
                status,
                summary: if summary.len() > 0 { summary } else { n.summary },
                finished_unix: now,
                updated_unix: now,
                ..n
            };
            let m1 = m.insert(id, n2);
            lemma_put_archive_kept(m, n2);
            lemma_archive_kept_finished(m, m1);
            assert forall|k: WorkId| #[trigger] promoted(m1, id, now).contains_key(k) && promoted(m1, id, now)[k].archived
                implies promoted(m1, id, now)[k].status.terminal() by {
                assert(m1.contains_key(k));
                assert(m1[k].archived ==> m1[k].status.terminal());
            }
        }
    }
}

/// Upserting keeps archiving to finished work: a finished node is not
/// upserted, and a fresh one starts unarchived.
pub proof fn lemma_upsert_keeps_archive(g: GraphView, h: GraphView, id_in: WorkId, f: WorkFields, now: u64, r: Result<WorkId, String>)
    requires
        upsert_post(g, h, id_in, f, now, r),
        keyed(g.nodes),
        archived_finished(g.nodes),
    ensures
        archived_finished(h.nodes),
{
    let g1 = if id_in.nil() { GraphView { mint_seq: bump(g.mint_seq), ..g } } else { g };
    let id = if id_in.nil() { crate::graph::minted(g.mint_seq, f.kind, f.parent, f.summary@, now) } else { id_in };
    let n0 = if g1.nodes.contains_key(id) { g1.nodes[id] } else { fresh_node(id, f, now) };
    assert(g1.nodes == g.nodes);
    if h.nodes != g.nodes {
        assert(n0.id == id) by {
            if g.nodes.contains_key(id) {
                assert(g.nodes[id].id == id);
            }
        }
        lemma_put_archive_kept(g.nodes, n0);
        lemma_archive_kept_finished(g.nodes, g.nodes.insert(id, n0));
        if r is Ok {
            let n1 = upserted(n0, f, now);
            assert(!n0.archived);
            lemma_put_archive_kept(g.nodes, n1);
            let g2 = put(g1, n1);
            lemma_archive_kept_finished(g.nodes, g2.nodes);
            lemma_with_recomputed_archive_kept(g2, id, now);
            let g3 = logged(with_recomputed(g2, id, now), id, f.actor, "upsert", now);
            lemma_archive_kept_finished(g2.nodes, g3.nodes);
            assert forall|k: WorkId| #[trigger] h.nodes.contains_key(k) && h.nodes[k].archived implies h.nodes[k].status.terminal() by {
                assert(g3.nodes.contains_key(k) && h.nodes[k] == g3.nodes[k]);
            }
        }
    }
}

proof fn lemma_reclaimed_archive(g: GraphView, ids: Seq<WorkId>, now: u64)
    requires
        keyed(g.nodes),
        archived_finished(g.nodes),
        forall|i: int| 0 <= i < ids.len() ==> g.nodes.contains_key(#[trigger] ids[i]) && g.nodes[ids[i]].status.live(),
    ensures
        archived_finished(reclaimed(g, ids, now).nodes),
        forall|k: WorkId| #[trigger] reclaimed(g, ids, now).nodes.contains_key(k) ==> g.nodes.contains_key(k),
    decreases ids.len(),
{
    if ids.len() > 0 {
        let q = ids.drop_last();
        assert forall|i: int| 0 <= i < q.len() implies g.nodes.contains_key(#[trigger] q[i]) && g.nodes[q[i]].status.live() by {
            assert(q[i] == ids[i]);
        }
        lemma_reclaimed_archive(g, q, now);
        let id = ids.last();
        assert(g.nodes.contains_key(ids[ids.len() - 1]));
        let g1 = reclaimed(g, q, now);
        let n2 = handed_back(g.nodes[id], now);
        assert(!g.nodes[id].archived);
        assert(n2.id == id);
        lemma_put_archive_kept(g1.nodes, n2);
        lemma_archive_kept_finished(g1.nodes, g1.nodes.insert(id, n2));
        assert forall|k: WorkId| #[trigger] reclaimed(g, ids, now).nodes.contains_key(k) implies g.nodes.contains_key(k) by {
            if k != id {
                assert(g1.nodes.contains_key(k));
            }
        }
    }
}

/// Taking back stale claims keeps archiving to finished work.
pub proof fn lemma_reclaim_keeps_archive(g: GraphView, h: GraphView, lease: u64, now: u64, r: Seq<WorkId>)
    requires
        reclaim_post(g, h, lease, now, r),
        keyed(g.nodes),
        archived_finished(g.nodes),
    ensures
        archived_finished(h.nodes),
{
    assert forall|i: int| 0 <= i < r.len() implies g.nodes.contains_key(#[trigger] r[i]) && g.nodes[r[i]].status.live() by {
        assert(r.contains(r[i]));
    }
    lemma_reclaimed_archive(g, r, now);
}

/// A node that says it is ready has every dependency present and done.
pub open spec fn ready_sound(m: Map<WorkId, NodeView>) -> bool {
    forall|k: WorkId| #[trigger] m.contains_key(k) && m[k].status == WorkStatus::Ready ==> deps_done(m, m[k])
}

/// Every done node of `g` is still there, and still done, in `h`.
pub open spec fn done_kept(h: Map<WorkId, NodeView>, g: Map<WorkId, NodeView>) -> bool {
    forall|k: WorkId| #[trigger] g.contains_key(k) && g[k].status == WorkStatus::Done ==> h.contains_key(k) && h[k].status == WorkStatus::Done
}

/// Every ready node of `h` was ready in `g` with the same dependencies, or
/// has its dependencies done in `h`.
pub open spec fn ready_from(h: Map<WorkId, NodeView>, g: Map<WorkId, NodeView>) -> bool {
    forall|k: WorkId| #[trigger] h.contains_key(k) && h[k].status == WorkStatus::Ready
        ==> (g.contains_key(k) && g[k].status == WorkStatus::Ready && h[k].deps == g[k].deps) || deps_done(h, h[k])
}

proof fn lemma_deps_done_kept(g: Map<WorkId, NodeView>, h: Map<WorkId, NodeView>, n: NodeView, n2: NodeView)
    requires
        deps_done(g, n),
        done_kept(h, g),
        n2.deps == n.deps,
    ensures
        deps_done(h, n2),
{
    assert forall|i: int| 0 <= i < n2.deps.len() implies h.contains_key(#[trigger] n2.deps[i]) && h[n2.deps[i]].status == WorkStatus::Done by {
        assert(n.deps[i] == n2.deps[i]);
        assert(g.contains_key(n.deps[i]));
    }
}

proof fn lemma_ready_sound_step(g: Map<WorkId, NodeView>, h: Map<WorkId, NodeView>)
    requires
        ready_sound(g),
        done_kept(h, g),
        ready_from(h, g),
    ensures
        ready_sound(h),
{
    assert forall|k: WorkId| #[trigger] h.contains_key(k) && h[k].status == WorkStatus::Ready implies deps_done(h, h[k]) by {
        if !deps_done(h, h[k]) {
            assert(g.contains_key(k) && g[k].status == WorkStatus::Ready);
            lemma_deps_done_kept(g, h, g[k], h[k]);
        }
    }
}

/// Recomputing readiness says ready only when the dependencies are done,
/// and leaves a done node done.
proof fn lemma_recomputed_ready(m: Map<WorkId, NodeView>, n: NodeView, now: u64)
    ensures
        recomputed(m, n, now).status == WorkStatus::Ready ==> deps_done(m, n),
        recomputed(m, n, now).deps == n.deps,
        recomputed(m, n, now).id == n.id,
        (recomputed(m, n, now).status == WorkStatus::Done) == (n.status == WorkStatus::Done),
{
}

/// Putting a node whose status is no longer ready, or is unchanged with the
/// same dependencies, and that is done exactly when it was.
proof fn lemma_put_ready(m: Map<WorkId, NodeView>, n: NodeView)
    requires
        m.contains_key(n.id),
        (n.status == WorkStatus::Done) == (m[n.id].status == WorkStatus::Done),
        n.status == WorkStatus::Ready ==> m[n.id].status == WorkStatus::Ready && n.deps == m[n.id].deps,
    ensures
        done_kept(m.insert(n.id, n), m),
        ready_from(m.insert(n.id, n), m),
{
    assert forall|k: WorkId| #[trigger] m.insert(n.id, n).contains_key(k) && m.insert(n.id, n)[k].status == WorkStatus::Ready
        implies (m.contains_key(k) && m[k].status == WorkStatus::Ready && m.insert(n.id, n)[k].deps == m[k].deps)
            || deps_done(m.insert(n.id, n), m.insert(n.id, n)[k]) by {
        if k != n.id {
            assert(m.insert(n.id, n)[k] == m[k]);
        }
    }
}

/// Recomputing one node's readiness keeps readiness sound.
proof fn lemma_with_recomputed_ready(g: GraphView, id: WorkId, now: u64)
    requires
        keyed(g.nodes),
    ensures
        done_kept(with_recomputed(g, id, now).nodes, g.nodes),
        ready_from(with_recomputed(g, id, now).nodes, g.nodes),
{
    if g.nodes.contains_key(id) {
        let m = g.nodes;
        let n = m[id];
        let r = recomputed(m, n, now);
        let h = m.insert(id, r);
        lemma_recomputed_ready(m, n, now);
        assert(with_recomputed(g, id, now).nodes == h);
        assert(done_kept(h, m));
        assert forall|k: WorkId| #[trigger] h.contains_key(k) && h[k].status == WorkStatus::Ready
            implies (m.contains_key(k) && m[k].status == WorkStatus::Ready && h[k].deps == m[k].deps) || deps_done(h, h[k]) by {
            if k == id {
                lemma_deps_done_kept(m, h, n, r);
            } else {
                assert(h[k] == m[k]);
            }
        }
    }
}

proof fn lemma_done_kept_trans(a: Map<WorkId, NodeView>, b: Map<WorkId, NodeView>, c: Map<WorkId, NodeView>)
    requires
        done_kept(b, a),
        done_kept(c, b),
    ensures
        done_kept(c, a),
{
    assert forall|k: WorkId| #[trigger] a.contains_key(k) && a[k].status == WorkStatus::Done implies c.contains_key(k) && c[k].status == WorkStatus::Done by {
        assert(b.contains_key(k) && b[k].status == WorkStatus::Done);
    }
}

/// A claim keeps readiness sound.
pub proof fn lemma_claim_keeps_ready_sound(g: GraphView, h: GraphView, id: WorkId, assignee: WorkId, expected_gen: Option<u64>, now: u64, r: Result<u64, String>)
    requires
        claim_post(g, h, id, assignee, expected_gen, now, r),
        keyed(g.nodes),
        ready_sound(g.nodes),
    ensures
        ready_sound(h.nodes),
{
    if h.nodes != g.nodes {
        let n = g.nodes[id];
        let n2 = NodeView { status: WorkStatus::Claimed, assignee, cas_gen: bump(n.cas_gen), updated_unix: now, ..n };
        assert(n2.id == id);
        lemma_put_ready(g.nodes, n2);
        lemma_ready_sound_step(g.nodes, h.nodes);
    }
}

/// Renewing keeps readiness sound.
pub proof fn lemma_renew_keeps_ready_sound(g: GraphView, h: GraphView, id: WorkId, actor: WorkId, now: u64, r: Result<u64, String>)
    requires
        renew_post(g, h, id, actor, now, r),
        keyed(g.nodes),
        ready_sound(g.nodes),
    ensures
        ready_sound(h.nodes),
{
    if g.nodes.contains_key(id) && h.nodes != g.nodes {
        lemma_put_ready(g.nodes, NodeView { updated_unix: now, ..g.nodes[id] });
        lemma_ready_sound_step(g.nodes, h.nodes);
    }
}

/// Starting the work keeps readiness sound.
pub proof fn lemma_running_keeps_ready_sound(g: GraphView, h: GraphView, id: WorkId, actor: WorkId, now: u64, r: Result<(), String>)
    requires
        running_post(g, h, id, actor, now, r),
        keyed(g.nodes),
        ready_sound(g.nodes),
    ensures
        ready_sound(h.nodes),
{
    if g.nodes.contains_key(id) && h.nodes != g.nodes {
        lemma_put_ready(g.nodes, NodeView { status: WorkStatus::Running, updated_unix: now, ..g.nodes[id] });
        lemma_ready_sound_step(g.nodes, h.nodes);
    }
}

/// Archiving keeps readiness sound.
pub proof fn lemma_archive_keeps_ready_sound(g: GraphView, h: GraphView, id: WorkId, actor: WorkId, now: u64, r: Result<(), String>)
    requires
        archive_post(g, h, id, actor, now, r),
        keyed(g.nodes),
        ready_sound(g.nodes),
    ensures
        ready_sound(h.nodes),
{
    if g.nodes.contains_key(id) && h.nodes != g.nodes {
        let n = g.nodes[id];
        lemma_put_ready(g.nodes, NodeView { archived: true, updated_unix: now, cas_gen: bump(n.cas_gen), ..n });
        lemma_ready_sound_step(g.nodes, h.nodes);
    }
}

/// Unarchiving keeps readiness sound.
pub proof fn lemma_unarchive_keeps_ready_sound(g: GraphView, h: GraphView, id: WorkId, actor: WorkId, now: u64, r: Result<(), String>)
    requires
        unarchive_post(g, h, id, actor, now, r),
        keyed(g.nodes),
        ready_sound(g.nodes),
    ensures
        ready_sound(h.nodes),
{
    if g.nodes.contains_key(id) && h.nodes != g.nodes {
        let n = g.nodes[id];
        lemma_put_ready(g.nodes, NodeView { archived: false, updated_unix: now, cas_gen: bump(n.cas_gen), ..n });
        lemma_ready_sound_step(g.nodes, h.nodes);
    }
}

/// Linking keeps readiness sound: the dependent's readiness is recomputed.
pub proof fn lemma_link_keeps_ready_sound(g: GraphView, h: GraphView, parent: WorkId, child: WorkId, actor: WorkId, now: u64, r: Result<(), String>)
    requires
        link_post(g, h, parent, child, actor, now, r),
        keyed(g.nodes),
        ready_sound(g.nodes),
    ensures
        ready_sound(h.nodes),
{
    if h != g {
        let m = g.nodes;
        let n = m[child];
        let n1 = if n.deps.contains(parent) { n } else { NodeView { deps: n.deps.push(parent), updated_unix: now, ..n } };
        let g1 = put(g, n1);
        let m1 = g1.nodes;
        lemma_with_recomputed_ready(g1, child, now);
        assert(keyed(m1));
        assert(h.nodes == with_recomputed(g1, child, now).nodes);
        lemma_recomputed_ready(m1, n1, now);
        assert(done_kept(h.nodes, m)) by {
            assert forall|k: WorkId| #[trigger] m.contains_key(k) && m[k].status == WorkStatus::Done implies h.nodes.contains_key(k) && h.nodes[k].status == WorkStatus::Done by {
                assert(m1.contains_key(k) && m1[k].status == WorkStatus::Done);
            }
        }
        assert forall|k: WorkId| #[trigger] h.nodes.contains_key(k) && h.nodes[k].status == WorkStatus::Ready
            implies (m.contains_key(k) && m[k].status == WorkStatus::Ready && h.nodes[k].deps == m[k].deps) || deps_done(h.nodes, h.nodes[k]) by {
            if k == child {
                assert(deps_done(m1, n1));
                lemma_deps_done_kept(m1, h.nodes, n1, h.nodes[k]);
            } else {
                assert(m1[k] == m[k]);
            }
        }
        lemma_ready_sound_step(m, h.nodes);
    }
}

/// Unlinking keeps readiness sound: the dependent's readiness is recomputed.
pub proof fn lemma_unlink_keeps_ready_sound(g: GraphView, h: GraphView, parent: WorkId, child: WorkId, actor: WorkId, now: u64, r: Result<(), String>)
    requires
        unlink_post(g, h, parent, child, actor, now, r),
        keyed(g.nodes),
        ready_sound(g.nodes),
    ensures
        ready_sound(h.nodes),
{
    if h != g {
        let m = g.nodes;
        let n = m[child];
        let kept = without(n.deps, parent);
        let n1 = if kept.len() != n.deps.len() { NodeView { deps: kept, updated_unix: now, ..n } } else { n };
        let g1 = put(g, n1);
        let m1 = g1.nodes;
        lemma_with_recomputed_ready(g1, child, now);
        assert(keyed(m1));
        assert(h.nodes == with_recomputed(g1, child, now).nodes);
        lemma_recomputed_ready(m1, n1, now);
        assert(done_kept(h.nodes, m)) by {
            assert forall|k: WorkId| #[trigger] m.contains_key(k) && m[k].status == WorkStatus::Done implies h.nodes.contains_key(k) && h.nodes[k].status == WorkStatus::Done by {
                assert(m1.contains_key(k) && m1[k].status == WorkStatus::Done);
            }
        }
        assert forall|k: WorkId| #[trigger] h.nodes.contains_key(k) && h.nodes[k].status == WorkStatus::Ready
            implies (m.contains_key(k) && m[k].status == WorkStatus::Ready && h.nodes[k].deps == m[k].deps) || deps_done(h.nodes, h.nodes[k]) by {
            if k == child {
                assert(deps_done(m1, n1));
                lemma_deps_done_kept(m1, h.nodes, n1, h.nodes[k]);
            } else {
                assert(m1[k] == m[k]);
            }
        }
        lemma_ready_sound_step(m, h.nodes);
    }
}

/// Completing keeps readiness sound: only the nodes that waited on the
/// finished one move, and they move to ready only when all they wait on is done.
pub proof fn lemma_complete_keeps_ready_sound(
    g: GraphView,
    h: GraphView,
    id: WorkId,
    status: WorkStatus,
    summary: Seq<char>,
    actor: WorkId,
    expected_gen: Option<u64>,
    now: u64,
    r: Result<(), String>,
)
    requires
        complete_post(g, h, id, status, summary, actor, expected_gen, now, r),
        keyed(g.nodes),
        ready_sound(g.nodes),
    ensures
        ready_sound(h.nodes),
{
    if h != g && g.nodes.contains_key(id) && r is Ok && status.terminal() {
        let m = g.nodes;
        let n = m[id];
        if n.status.terminal() {
            lemma_put_ready(m, NodeView { summary, ..n });
            lemma_ready_sound_step(m, h.nodes);
        } else {
            let n2 = NodeView {
                status,
                summary: if summary.len() > 0 { summary } else { n.summary },
                finished_unix: now,
                updated_unix: now,
                ..n
            };
            let m1 = m.insert(id, n2);
            // A ready node never waits on the node being finished: that
            // node was not done.
            assert(done_kept(m1, m));
            assert(ready_sound(m1)) by {
                assert forall|k: WorkId| #[trigger] m1.contains_key(k) && m1[k].status == WorkStatus::Ready implies deps_done(m1, m1[k]) by {
                    assert(k != id);
                    assert(m1[k] == m[k]);
                    lemma_deps_done_kept(m, m1, m[k], m1[k]);
                }
            }
            let p = promoted(m1, id, now);
            assert(done_kept(p, m1)) by {
                assert forall|k: WorkId| #[trigger] m1.contains_key(k) && m1[k].status == WorkStatus::Done implies p.contains_key(k) && p[k].status == WorkStatus::Done by {
                    lemma_recomputed_ready(m1, m1[k], now);
                }
            }
            assert forall|k: WorkId| #[trigger] p.contains_key(k) && p[k].status == WorkStatus::Ready
                implies (m1.contains_key(k) && m1[k].status == WorkStatus::Ready && p[k].deps == m1[k].deps) || deps_done(p, p[k]) by {
                lemma_recomputed_ready(m1, m1[k], now);
                if m1[k].deps.contains(id) {
                    lemma_deps_done_kept(m1, p, m1[k], p[k]);
                }
            }
            lemma_ready_sound_step(m1, p);
        }
    }
}

/// Upserting keeps readiness sound while the graph has room, so that no
/// finished node is pruned: the node's readiness is derived, not taken
/// from the caller.
pub proof fn lemma_upsert_keeps_ready_sound(g: GraphView, h: GraphView, id_in: WorkId, f: WorkFields, now: u64, r: Result<WorkId, String>)
    requires
        upsert_post(g, h, id_in, f, now, r),
        keyed(g.nodes),
        g.nodes.dom().finite(),
        g.nodes.dom().len() < crate::model::MAX_WORK_NODES,
        ready_sound(g.nodes),
    ensures
        ready_sound(h.nodes),
{
    let g1 = if id_in.nil() { GraphView { mint_seq: bump(g.mint_seq), ..g } } else { g };
    let id = if id_in.nil() { crate::graph::minted(g.mint_seq, f.kind, f.parent, f.summary@, now) } else { id_in };
    let n0 = if g1.nodes.contains_key(id) { g1.nodes[id] } else { fresh_node(id, f, now) };
    let m = g.nodes;
    assert(g1.nodes == m);
    if h.nodes != m {
        assert(n0.id == id) by {
            if m.contains_key(id) {
                assert(m[id].id == id);
            }
        }
        if r is Ok {
            let n1 = upserted(n0, f, now);
            let g2 = put(g1, n1);
            let m2 = g2.nodes;
            let g3 = logged(with_recomputed(g2, id, now), id, f.actor, "upsert", now);
            let m3 = g3.nodes;
            assert(n1.id == id);
            assert(m2.contains_key(id));
            lemma_recomputed_ready(m2, n1, now);
            assert(m3 == m2.insert(id, recomputed(m2, n1, now)));
            // No node is dropped: the graph stays within its bound.
            assert(m3.dom() == m.dom().insert(id));
            vstd::set::axiom_set_insert_len(m.dom(), id);
            assert(m3.dom().len() <= crate::model::MAX_WORK_NODES);
            vstd::set::axiom_set_insert_finite(m.dom(), id);
            vstd::set::axiom_set_difference_finite(m3.dom(), h.nodes.dom());
            vstd::set_lib::lemma_set_empty_equivalency_len(m3.dom() - h.nodes.dom());
            assert forall|k: WorkId| #[trigger] m3.contains_key(k) implies h.nodes.contains_key(k) by {
                if !h.nodes.contains_key(k) {
                    assert((m3.dom() - h.nodes.dom()).contains(k));
                }
            }
            assert(h.nodes =~= m3) by {
                assert forall|k: WorkId| #[trigger] h.nodes.contains_key(k) implies m3.contains_key(k) && h.nodes[k] == m3[k] by {
                }
            }
            // The old node was not done: a done node is terminal, and a
            // terminal node is refused.
            assert(done_kept(m3, m)) by {
                assert forall|k: WorkId| #[trigger] m.contains_key(k) && m[k].status == WorkStatus::Done implies m3.contains_key(k) && m3[k].status == WorkStatus::Done by {
                    if k != id {
                        assert(m2[k] == m[k]);
                    }
                }
            }
            assert forall|k: WorkId| #[trigger] m3.contains_key(k) && m3[k].status == WorkStatus::Ready
                implies (m.contains_key(k) && m[k].status == WorkStatus::Ready && m3[k].deps == m[k].deps) || deps_done(m3, m3[k]) by {
                if k == id {
                    assert(done_kept(m3, m2)) by {
                        assert forall|j: WorkId| #[trigger] m2.contains_key(j) && m2[j].status == WorkStatus::Done implies m3.contains_key(j) && m3[j].status == WorkStatus::Done by {
                        }
                    }
                    lemma_deps_done_kept(m2, m3, n1, m3[k]);
                } else {
                    assert(m3[k] == m2[k] && m2[k] == m[k]);
                }
            }
            lemma_ready_sound_step(m, h.nodes);
        } else {
            assert(h.nodes == m.insert(id, n0));
            if m.contains_key(id) {
                assert(h.nodes =~= m);
            } else {
                assert(done_kept(h.nodes, m));
                assert forall|k: WorkId| #[trigger] h.nodes.contains_key(k) && h.nodes[k].status == WorkStatus::Ready
                    implies (m.contains_key(k) && m[k].status == WorkStatus::Ready && h.nodes[k].deps == m[k].deps) || deps_done(h.nodes, h.nodes[k]) by {
                    assert(k != id);
                }
                lemma_ready_sound_step(m, h.nodes);
            }
        }
    }
}

/// Handing a claim back keeps readiness sound when what the node waits on
/// is still done. A dependency linked while the node was held, and not yet
/// done, would leave it ready with work still to wait for.
pub proof fn lemma_release_keeps_ready_sound(g: GraphView, h: GraphView, id: WorkId, actor: WorkId, now: u64, r: Result<u64, String>)
    requires
        release_post(g, h, id, actor, now, r),
        keyed(g.nodes),
        ready_sound(g.nodes),
        g.nodes.contains_key(id) ==> deps_done(g.nodes, g.nodes[id]),
    ensures
        ready_sound(h.nodes),
{
    if g.nodes.contains_key(id) && h.nodes != g.nodes {
        let m = g.nodes;
        let n2 = handed_back(m[id], now);
        let h2 = m.insert(id, n2);
        assert(h.nodes == h2);
        assert(done_kept(h2, m));
        assert forall|k: WorkId| #[trigger] h2.contains_key(k) && h2[k].status == WorkStatus::Ready
            implies (m.contains_key(k) && m[k].status == WorkStatus::Ready && h2[k].deps == m[k].deps) || deps_done(h2, h2[k]) by {
            if k == id {
                lemma_deps_done_kept(m, h2, m[id], n2);
            } else {
                assert(h2[k] == m[k]);
            }
        }
        lemma_ready_sound_step(m, h2);
    }
}

/// A held node is beyond an upsert's reach: whatever an upsert asks, a
/// claimed or running node comes out exactly as it went in.
pub proof fn lemma_upsert_leaves_held_nodes(g: GraphView, h: GraphView, id_in: WorkId, f: WorkFields, now: u64, r: Result<WorkId, String>, k: WorkId)
    requires
        upsert_post(g, h, id_in, f, now, r),
        keyed(g.nodes),
        g.nodes.contains_key(k),
        g.nodes[k].status.live(),
    ensures
        h.nodes.contains_key(k),
        h.nodes[k] == g.nodes[k],
{
    let g1 = if id_in.nil() { GraphView { mint_seq: bump(g.mint_seq), ..g } } else { g };
    let id = if id_in.nil() { crate::graph::minted(g.mint_seq, f.kind, f.parent, f.summary@, now) } else { id_in };
    let n0 = if g1.nodes.contains_key(id) { g1.nodes[id] } else { fresh_node(id, f, now) };
    let m = g.nodes;
    assert(g1.nodes == m);
    if r is Ok {
        assert(k != id);
        let n1 = upserted(n0, f, now);
        let g2 = put(g1, n1);
        let g3 = logged(with_recomputed(g2, id, now), id, f.actor, "upsert", now);
        assert(g2.nodes.contains_key(id));
        assert(g3.nodes == g2.nodes.insert(id, recomputed(g2.nodes, g2.nodes[id], now)));
        assert(g3.nodes.contains_key(k) && g3.nodes[k] == m[k]);
        assert(h.nodes.contains_key(k)) by {
            if !h.nodes.contains_key(k) {
                assert(g3.nodes[k].status.terminal());
            }
        }
    } else if h.nodes != m {
        assert(h.nodes == m.insert(id, n0));
        if k == id {
            assert(n0 == m[id]);
        }
    }
}

proof fn lemma_reclaimed_ready(g: GraphView, ids: Seq<WorkId>, now: u64)
    requires
        keyed(g.nodes),
        ready_sound(g.nodes),
        forall|i: int| 0 <= i < ids.len() ==> g.nodes.contains_key(#[trigger] ids[i]) && g.nodes[ids[i]].status.live()
            && deps_done(g.nodes, g.nodes[ids[i]]),
    ensures
        ready_sound(reclaimed(g, ids, now).nodes),
        done_kept(reclaimed(g, ids, now).nodes, g.nodes),
    decreases ids.len(),
{
    if ids.len() > 0 {
        let q = ids.drop_last();
        assert forall|i: int| 0 <= i < q.len() implies g.nodes.contains_key(#[trigger] q[i]) && g.nodes[q[i]].status.live()
            && deps_done(g.nodes, g.nodes[q[i]]) by {
            assert(q[i] == ids[i]);
        }
        lemma_reclaimed_ready(g, q, now);
        let id = ids.last();
        assert(g.nodes.contains_key(ids[ids.len() - 1]));
        let g1 = reclaimed(g, q, now);
        let m1 = g1.nodes;
        let n2 = handed_back(g.nodes[id], now);
        assert(n2.id == id);
        let h = m1.insert(id, n2);
        assert(reclaimed(g, ids, now).nodes == h);
        assert(done_kept(h, g.nodes)) by {
            assert forall|k: WorkId| #[trigger] g.nodes.contains_key(k) && g.nodes[k].status == WorkStatus::Done implies h.contains_key(k) && h[k].status == WorkStatus::Done by {
                assert(m1.contains_key(k) && m1[k].status == WorkStatus::Done);
            }
        }
        assert forall|k: WorkId| #[trigger] h.contains_key(k) && h[k].status == WorkStatus::Ready implies deps_done(h, h[k]) by {
            if k == id {
                lemma_deps_done_kept(g.nodes, h, g.nodes[id], n2);
            } else {
                assert(h[k] == m1[k]);
                assert(deps_done(m1, m1[k]));
                assert(done_kept(h, m1)) by {
                    assert forall|j: WorkId| #[trigger] m1.contains_key(j) && m1[j].status == WorkStatus::Done implies h.contains_key(j) && h[j].status == WorkStatus::Done by {
                        if j == id {
                            // The node handed back was held, so nothing
                            // before it in the sweep made it done.
                            assert(g.nodes[id].status.live());
                            assert(m1[id].status == WorkStatus::Done);
                            lemma_reclaimed_status(g, q, now, id);
                        }
                    }
                }
                lemma_deps_done_kept(m1, h, m1[k], h[k]);
            }
        }
    }
}

/// A sweep leaves every node it did not reach as it was, and moves the ones
/// it reached to ready.
proof fn lemma_reclaimed_status(g: GraphView, ids: Seq<WorkId>, now: u64, k: WorkId)
    requires
        keyed(g.nodes),
        g.nodes.contains_key(k),
        forall|i: int| 0 <= i < ids.len() ==> g.nodes.contains_key(#[trigger] ids[i]),
    ensures
        reclaimed(g, ids, now).nodes.contains_key(k),
        reclaimed(g, ids, now).nodes[k].status == g.nodes[k].status || reclaimed(g, ids, now).nodes[k].status == WorkStatus::Ready,
    decreases ids.len(),
{
    if ids.len() > 0 {
        let q = ids.drop_last();
        assert forall|i: int| 0 <= i < q.len() implies g.nodes.contains_key(#[trigger] q[i]) by {
            assert(q[i] == ids[i]);
        }
        lemma_reclaimed_status(g, q, now, k);
        let id = ids.last();
        assert(g.nodes.contains_key(ids[ids.len() - 1]));
        assert(handed_back(g.nodes[id], now).id == id);
    }
}

/// Taking back stale claims keeps readiness sound when each node handed
/// back still has what it waits on done.
pub proof fn lemma_reclaim_keeps_ready_sound(g: GraphView, h: GraphView, lease: u64, now: u64, r: Seq<WorkId>)
    requires
        reclaim_post(g, h, lease, now, r),
        keyed(g.nodes),
        ready_sound(g.nodes),
        forall|k: WorkId| #[trigger] g.nodes.contains_key(k) && g.nodes[k].status.live() ==> deps_done(g.nodes, g.nodes[k]),
    ensures
        ready_sound(h.nodes),
{
    assert forall|i: int| 0 <= i < r.len() implies g.nodes.contains_key(#[trigger] r[i]) && g.nodes[r[i]].status.live()
        && deps_done(g.nodes, g.nodes[r[i]]) by {
        assert(r.contains(r[i]));
    }
    lemma_reclaimed_ready(g, r, now);
}

/// Reopening keeps readiness sound when the reopened node's own
/// dependencies are done and are not the node itself, and, if it was done,
/// no ready node waits on it.
pub proof fn lemma_reopen_keeps_ready_sound(g: GraphView, h: GraphView, id: WorkId, actor: WorkId, now: u64, r: Result<u64, String>)
    requires
        reopen_post(g, h, id, actor, now, r),
        keyed(g.nodes),
        ready_sound(g.nodes),
        g.nodes.contains_key(id) ==> deps_done(g.nodes, g.nodes[id]) && !g.nodes[id].deps.contains(id),
        g.nodes.contains_key(id) && g.nodes[id].status == WorkStatus::Done ==> forall|k: WorkId|
            #[trigger] g.nodes.contains_key(k) && g.nodes[k].status == WorkStatus::Ready ==> !g.nodes[k].deps.contains(id),
    ensures
        ready_sound(h.nodes),
{
    if g.nodes.contains_key(id) && h.nodes != g.nodes {
        let m = g.nodes;
        let n2 = NodeView { archived: false, ..handed_back(m[id], now) };
        let h2 = m.insert(id, n2);
        assert(h.nodes == h2);
        assert forall|k: WorkId| #[trigger] h2.contains_key(k) && h2[k].status == WorkStatus::Ready implies deps_done(h2, h2[k]) by {
            if k == id {
                assert forall|i: int| 0 <= i < n2.deps.len() implies h2.contains_key(#[trigger] n2.deps[i]) && h2[n2.deps[i]].status == WorkStatus::Done by {
                    assert(m.contains_key(n2.deps[i]) && m[n2.deps[i]].status == WorkStatus::Done);
                    assert(n2.deps[i] != id) by {
                        assert(n2.deps == m[id].deps);
                        if n2.deps[i] == id {
                            assert(m[id].deps.contains(id));
                        }
                    }
                }
            } else {
                assert(h2[k] == m[k]);
                assert(deps_done(m, m[k]));
                assert forall|i: int| 0 <= i < h2[k].deps.len() implies h2.contains_key(#[trigger] h2[k].deps[i]) && h2[h2[k].deps[i]].status == WorkStatus::Done by {
                    assert(m.contains_key(m[k].deps[i]) && m[m[k].deps[i]].status == WorkStatus::Done);
                    if m[k].deps[i] == id {
                        assert(m[k].deps.contains(id));
                    }
                }
            }
        }
    }
}

/// No node lists a dependency twice: a dependency is there or it is not.
pub open spec fn deps_distinct(m: Map<WorkId, NodeView>) -> bool {
    forall|k: WorkId| #[trigger] m.contains_key(k) ==> m[k].deps.no_duplicates()
}

/// Every node of `h` is in `g` with the same dependencies, or lists each
/// dependency once.
pub open spec fn deps_from(h: Map<WorkId, NodeView>, g: Map<WorkId, NodeView>) -> bool {
    forall|k: WorkId| #[trigger] h.contains_key(k) ==> (g.contains_key(k) && h[k].deps == g[k].deps) || h[k].deps.no_duplicates()
}

proof fn lemma_deps_from_distinct(g: Map<WorkId, NodeView>, h: Map<WorkId, NodeView>)
    requires
        deps_distinct(g),
        deps_from(h, g),
    ensures
        deps_distinct(h),
{
    assert forall|k: WorkId| #[trigger] h.contains_key(k) implies h[k].deps.no_duplicates() by {
        if !h[k].deps.no_duplicates() {
            assert(g.contains_key(k));
        }
    }
}

proof fn lemma_put_deps_from(m: Map<WorkId, NodeView>, n: NodeView)
    requires
        (m.contains_key(n.id) && n.deps == m[n.id].deps) || n.deps.no_duplicates(),
    ensures
        deps_from(m.insert(n.id, n), m),
{
    assert forall|k: WorkId| #[trigger] m.insert(n.id, n).contains_key(k)
        implies (m.contains_key(k) && m.insert(n.id, n)[k].deps == m[k].deps) || m.insert(n.id, n)[k].deps.no_duplicates() by {
        if k != n.id {
            assert(m.insert(n.id, n)[k] == m[k]);
        }
    }
}

proof fn lemma_deps_same_from(h: Map<WorkId, NodeView>, g: Map<WorkId, NodeView>)
    requires
        same_deps_within(h, g),
    ensures
        deps_from(h, g),
{
}

/// Removing an id keeps a list free of repeats.
proof fn lemma_without_distinct(s: Seq<WorkId>, x: WorkId)
    requires
        s.no_duplicates(),
    ensures
        without(s, x).no_duplicates(),
    decreases s.len(),
{
    if s.len() > 0 {
        let q = s.drop_last();
        assert(q.no_duplicates()) by {
            assert forall|i: int, j: int| 0 <= i < q.len() && 0 <= j < q.len() && i != j implies q[i] != q[j] by {
                assert(q[i] == s[i] && q[j] == s[j]);
            }
        }
        lemma_without_distinct(q, x);
        if s.last() != x {
            lemma_without_sub(q, x, s.last());
            assert(!q.contains(s.last())) by {
                if q.contains(s.last()) {
                    let i = choose|i: int| 0 <= i < q.len() && q[i] == s.last();
                    assert(s[i] == s[s.len() - 1]);
                }
            }
            let w = without(q, x);
            assert(!w.contains(s.last()));
            assert(w.push(s.last()).no_duplicates()) by {
                assert forall|i: int, j: int| 0 <= i < w.len() + 1 && 0 <= j < w.len() + 1 && i != j
                    implies w.push(s.last())[i] != w.push(s.last())[j] by {
                    if i < w.len() && j < w.len() {
                        assert(w.push(s.last())[i] == w[i] && w.push(s.last())[j] == w[j]);
                    } else if i == w.len() {
                        assert(w.push(s.last())[j] == w[j]);
                        assert(w.contains(w[j]));
                    } else {
                        assert(w.push(s.last())[i] == w[i]);
                        assert(w.contains(w[i]));
                    }
                }
            }
        }
    }
}

/// Linking lists a dependency at most once: an edge already there is left alone.
pub proof fn lemma_link_keeps_deps_distinct(g: GraphView, h: GraphView, parent: WorkId, child: WorkId, actor: WorkId, now: u64, r: Result<(), String>)
    requires
        link_post(g, h, parent, child, actor, now, r),
        keyed(g.nodes),
        deps_distinct(g.nodes),
    ensures
        deps_distinct(h.nodes),
{
    if h != g {
        let m = g.nodes;
        let n = m[child];
        let n1 = if n.deps.contains(parent) { n } else { NodeView { deps: n.deps.push(parent), updated_unix: now, ..n } };
        assert(n1.deps.no_duplicates()) by {
            if !n.deps.contains(parent) {
                assert(n.deps.no_duplicates());
                assert forall|i: int, j: int| 0 <= i < n1.deps.len() && 0 <= j < n1.deps.len() && i != j implies n1.deps[i] != n1.deps[j] by {
                    if i < n.deps.len() && j < n.deps.len() {
                        assert(n1.deps[i] == n.deps[i] && n1.deps[j] == n.deps[j]);
                    } else if i == n.deps.len() {
                        assert(n1.deps[j] == n.deps[j]);
                        assert(n.deps.contains(n.deps[j]));
                    } else {
                        assert(n1.deps[i] == n.deps[i]);
                        assert(n.deps.contains(n.deps[i]));
                    }
                }
            }
        }
        lemma_put_deps_from(m, n1);
        lemma_deps_from_distinct(m, put(g, n1).nodes);
        lemma_put_recompute(g, n1, now);
        assert(n1.id == child);
        lemma_deps_same_from(h.nodes, put(g, n1).nodes);
        lemma_deps_from_distinct(put(g, n1).nodes, h.nodes);
    }
}

/// Unlinking keeps each dependency listed at most once.
pub proof fn lemma_unlink_keeps_deps_distinct(g: GraphView, h: GraphView, parent: WorkId, child: WorkId, actor: WorkId, now: u64, r: Result<(), String>)
    requires
        unlink_post(g, h, parent, child, actor, now, r),
        keyed(g.nodes),
        deps_distinct(g.nodes),
    ensures
        deps_distinct(h.nodes),
{
    if h != g {
        let m = g.nodes;
        let n = m[child];
        let kept = without(n.deps, parent);
        let n1 = if kept.len() != n.deps.len() { NodeView { deps: kept, updated_unix: now, ..n } } else { n };
        lemma_without_distinct(n.deps, parent);
        lemma_put_deps_from(m, n1);
        lemma_deps_from_distinct(m, put(g, n1).nodes);
        lemma_put_recompute(g, n1, now);
        assert(n1.id == child);
        lemma_deps_same_from(h.nodes, put(g, n1).nodes);
        lemma_deps_from_distinct(put(g, n1).nodes, h.nodes);
    }
}

/// A claim keeps each dependency listed at most once.
pub proof fn lemma_claim_keeps_deps_distinct(g: GraphView, h: GraphView, id: WorkId, assignee: WorkId, expected_gen: Option<u64>, now: u64, r: Result<u64, String>)
    requires
        claim_post(g, h, id, assignee, expected_gen, now, r),
        keyed(g.nodes),
        deps_distinct(g.nodes),
    ensures
        deps_distinct(h.nodes),
{
    if h.nodes != g.nodes {
        let n = g.nodes[id];
        let n2 = NodeView { status: WorkStatus::Claimed, assignee, cas_gen: bump(n.cas_gen), updated_unix: now, ..n };
        assert(n2.id == id);
        lemma_put_deps_from(g.nodes, n2);
        lemma_deps_from_distinct(g.nodes, h.nodes);
    }
}

/// Handing a claim back keeps each dependency listed at most once.
pub proof fn lemma_release_keeps_deps_distinct(g: GraphView, h: GraphView, id: WorkId, actor: WorkId, now: u64, r: Result<u64, String>)
    requires
        release_post(g, h, id, actor, now, r),
        keyed(g.nodes),
        deps_distinct(g.nodes),
    ensures
        deps_distinct(h.nodes),
{
    if g.nodes.contains_key(id) && h.nodes != g.nodes {
        let n2 = handed_back(g.nodes[id], now);
        assert(n2.id == id);
        lemma_put_deps_from(g.nodes, n2);
        lemma_deps_from_distinct(g.nodes, h.nodes);
    }
}

/// Reopening keeps each dependency listed at most once.
pub proof fn lemma_reopen_keeps_deps_distinct(g: GraphView, h: GraphView, id: WorkId, actor: WorkId, now: u64, r: Result<u64, String>)
    requires
        reopen_post(g, h, id, actor, now, r),
        keyed(g.nodes),
        deps_distinct(g.nodes),
    ensures
        deps_distinct(h.nodes),
{
    if g.nodes.contains_key(id) && h.nodes != g.nodes {
        let n2 = NodeView { archived: false, ..handed_back(g.nodes[id], now) };
        assert(n2.id == id);
        lemma_put_deps_from(g.nodes, n2);
        lemma_deps_from_distinct(g.nodes, h.nodes);
    }
}

/// Renewing keeps each dependency listed at most once.
pub proof fn lemma_renew_keeps_deps_distinct(g: GraphView, h: GraphView, id: WorkId, actor: WorkId, now: u64, r: Result<u64, String>)
    requires
        renew_post(g, h, id, actor, now, r),
        keyed(g.nodes),
        deps_distinct(g.nodes),
    ensures
        deps_distinct(h.nodes),
{
    if g.nodes.contains_key(id) && h.nodes != g.nodes {
        let n2 = NodeView { updated_unix: now, ..g.nodes[id] };
        assert(n2.id == id);
        lemma_put_deps_from(g.nodes, n2);
        lemma_deps_from_distinct(g.nodes, h.nodes);
    }
}

/// Starting the work keeps each dependency listed at most once.
pub proof fn lemma_running_keeps_deps_distinct(g: GraphView, h: GraphView, id: WorkId, actor: WorkId, now: u64, r: Result<(), String>)
    requires
        running_post(g, h, id, actor, now, r),
        keyed(g.nodes),
        deps_distinct(g.nodes),
    ensures
        deps_distinct(h.nodes),
{
    if g.nodes.contains_key(id) && h.nodes != g.nodes {
        let n2 = NodeView { status: WorkStatus::Running, updated_unix: now, ..g.nodes[id] };
        assert(n2.id == id);
        lemma_put_deps_from(g.nodes, n2);
        lemma_deps_from_distinct(g.nodes, h.nodes);
    }
}

/// Archiving keeps each dependency listed at most once.
pub proof fn lemma_archive_keeps_deps_distinct(g: GraphView, h: GraphView, id: WorkId, actor: WorkId, now: u64, r: Result<(), String>)
    requires
        archive_post(g, h, id, actor, now, r),
        keyed(g.nodes),
        deps_distinct(g.nodes),
    ensures
        deps_distinct(h.nodes),
{
    if g.nodes.contains_key(id) && h.nodes != g.nodes {
        let n = g.nodes[id];
        let n2 = NodeView { archived: true, updated_unix: now, cas_gen: bump(n.cas_gen), ..n };
        assert(n2.id == id);
        lemma_put_deps_from(g.nodes, n2);
        lemma_deps_from_distinct(g.nodes, h.nodes);
    }
}

/// Unarchiving keeps each dependency listed at most once.
pub proof fn lemma_unarchive_keeps_deps_distinct(g: GraphView, h: GraphView, id: WorkId, actor: WorkId, now: u64, r: Result<(), String>)
    requires
        unarchive_post(g, h, id, actor, now, r),
        keyed(g.nodes),
        deps_distinct(g.nodes),
    ensures
        deps_distinct(h.nodes),
{
    if g.nodes.contains_key(id) && h.nodes != g.nodes {
        let n = g.nodes[id];
        let n2 = NodeView { archived: false, updated_unix: now, cas_gen: bump(n.cas_gen), ..n };
        assert(n2.id == id);
        lemma_put_deps_from(g.nodes, n2);
        lemma_deps_from_distinct(g.nodes, h.nodes);
    }
}

/// Completing keeps each dependency listed at most once.
pub proof fn lemma_complete_keeps_deps_distinct(
    g: GraphView,
    h: GraphView,
    id: WorkId,
    status: WorkStatus,
    summary: Seq<char>,
    actor: WorkId,
    expected_gen: Option<u64>,
    now: u64,
    r: Result<(), String>,
)
    requires
        complete_post(g, h, id, status, summary, actor, expected_gen, now, r),
        keyed(g.nodes),
        deps_distinct(g.nodes),
    ensures
        deps_distinct(h.nodes),
{
    if h != g && g.nodes.contains_key(id) && r is Ok && status.terminal() {
        let m = g.nodes;
        let n = m[id];
        if n.status.terminal() {
            lemma_put_deps_from(m, NodeView { summary, ..n });
            lemma_deps_from_distinct(m, h.nodes);
        } else {
            let n2 = NodeView {
                status,
                summary: if summary.len() > 0 { summary } else { n.summary },
                finished_unix: now,
                updated_unix: now,
                ..n
            };
            let m1 = m.insert(id, n2);
            lemma_put_deps_from(m, n2);
            lemma_deps_from_distinct(m, m1);
            assert(deps_from(promoted(m1, id, now), m1)) by {
                assert forall|k: WorkId| #[trigger] promoted(m1, id, now).contains_key(k)
                    implies (m1.contains_key(k) && promoted(m1, id, now)[k].deps == m1[k].deps) || promoted(m1, id, now)[k].deps.no_duplicates() by {
                    lemma_recomputed_ready(m1, m1[k], now);
                }
            }
            lemma_deps_from_distinct(m1, h.nodes);
        }
    }
}

/// Upserting keeps each dependency listed at most once: it does not touch
/// dependencies, and a fresh node has none.
pub proof fn lemma_upsert_keeps_deps_distinct(g: GraphView, h: GraphView, id_in: WorkId, f: WorkFields, now: u64, r: Result<WorkId, String>)
    requires
        upsert_post(g, h, id_in, f, now, r),
        keyed(g.nodes),
        deps_distinct(g.nodes),
    ensures
        deps_distinct(h.nodes),
{
    let g1 = if id_in.nil() { GraphView { mint_seq: bump(g.mint_seq), ..g } } else { g };
    let id = if id_in.nil() { crate::graph::minted(g.mint_seq, f.kind, f.parent, f.summary@, now) } else { id_in };
    let n0 = if g1.nodes.contains_key(id) { g1.nodes[id] } else { fresh_node(id, f, now) };
    let m = g.nodes;
    assert(g1.nodes == m);
    if h.nodes != m {
        assert(n0.id == id) by {
            if m.contains_key(id) {
                assert(m[id].id == id);
            }
        }
        assert(n0.deps.no_duplicates()) by {
            if !m.contains_key(id) {
                assert(n0.deps.len() == 0);
            }
        }
        lemma_put_deps_from(m, n0);
        lemma_deps_from_distinct(m, m.insert(id, n0));
        if r is Ok {
            let n1 = upserted(n0, f, now);
            assert(n1.id == id && n1.deps == n0.deps);
            lemma_put_deps_from(m, n1);
            let g2 = put(g1, n1);
            lemma_deps_from_distinct(m, g2.nodes);
            lemma_put_recompute(g1, n1, now);
            let g3 = logged(with_recomputed(g2, id, now), id, f.actor, "upsert", now);
            lemma_deps_same_from(g3.nodes, g2.nodes);
            lemma_deps_from_distinct(g2.nodes, g3.nodes);
            assert forall|k: WorkId| #[trigger] h.nodes.contains_key(k) implies h.nodes[k].deps.no_duplicates() by {
                assert(g3.nodes.contains_key(k) && h.nodes[k] == g3.nodes[k]);
            }
        }
    }
}

/// Taking back stale claims keeps each dependency listed at most once.
pub proof fn lemma_reclaim_keeps_deps_distinct(g: GraphView, h: GraphView, lease: u64, now: u64, r: Seq<WorkId>)
    requires
        reclaim_post(g, h, lease, now, r),
        keyed(g.nodes),
        deps_distinct(g.nodes),
    ensures
        deps_distinct(h.nodes),
{
    assert forall|i: int| 0 <= i < r.len() implies g.nodes.contains_key(#[trigger] r[i]) by {
        assert(r.contains(r[i]));
    }
    lemma_reclaimed_deps(g, r, now);
    lemma_deps_same_from(h.nodes, g.nodes);
    lemma_deps_from_distinct(g.nodes, h.nodes);
}

/// Every dependency names a node of the graph.
pub open spec fn deps_present(m: Map<WorkId, NodeView>) -> bool {
    forall|a: WorkId, b: WorkId| #[trigger] step(m, a, b) ==> m.contains_key(b)
}

/// `h` keeps every node of `g`, and each node of `h` keeps its dependencies
/// from `g` or has all of them present in `h`.
pub open spec fn present_from(h: Map<WorkId, NodeView>, g: Map<WorkId, NodeView>) -> bool {
    &&& forall|k: WorkId| #[trigger] g.contains_key(k) ==> h.contains_key(k)
    &&& forall|a: WorkId, b: WorkId| #[trigger] step(h, a, b) ==> step(g, a, b) || h.contains_key(b)
}

proof fn lemma_present_from(g: Map<WorkId, NodeView>, h: Map<WorkId, NodeView>)
    requires
        deps_present(g),
        present_from(h, g),
    ensures
        deps_present(h),
{
    assert forall|a: WorkId, b: WorkId| #[trigger] step(h, a, b) implies h.contains_key(b) by {
        if step(g, a, b) {
            assert(g.contains_key(b));
        }
    }
}

proof fn lemma_same_deps_present_from(h: Map<WorkId, NodeView>, g: Map<WorkId, NodeView>)
    requires
        same_deps_within(h, g),
        forall|k: WorkId| #[trigger] g.contains_key(k) ==> h.contains_key(k),
    ensures
        present_from(h, g),
{
    assert forall|a: WorkId, b: WorkId| #[trigger] step(h, a, b) implies step(g, a, b) || h.contains_key(b) by {
        assert(h.contains_key(a));
    }
}

proof fn lemma_put_keeps_deps(m: Map<WorkId, NodeView>, n: NodeView)
    requires
        m.contains_key(n.id),
        n.deps == m[n.id].deps,
    ensures
        same_deps_within(m.insert(n.id, n), m),
        forall|k: WorkId| #[trigger] m.contains_key(k) ==> m.insert(n.id, n).contains_key(k),
{
}

/// A graph whose dependencies are present and loop-free, and whose parent
/// links are a forest, passes the graph check: every node is sound, which is
/// exactly when `verify` answers `Ok`.
pub proof fn lemma_sound_graph_verifies(m: Map<WorkId, NodeView>)
    requires
        deps_present(m),
        acyclic(m),
        parent_acyclic(m),
    ensures
        forall|k: WorkId| #[trigger] m.contains_key(k) ==> crate::graph::node_sound(m, k),
{
    assert forall|k: WorkId| #[trigger] m.contains_key(k) implies crate::graph::node_sound(m, k) by {
        let n = m[k];
        assert forall|i: int| 0 <= i < n.deps.len() implies m.contains_key(#[trigger] n.deps[i]) by {
            assert(n.deps.contains(n.deps[i]));
            assert(step(m, k, n.deps[i]));
        }
        if crate::graph::some_reaches(m, n.deps, k) {
            let i = choose|i: int| 0 <= i < n.deps.len() && reaches(m, #[trigger] n.deps[i], k);
            assert(n.deps.contains(n.deps[i]));
            assert(step(m, k, n.deps[i]));
        }
    }
}

/// A claim keeps every dependency present.
pub proof fn lemma_claim_keeps_deps_present(g: GraphView, h: GraphView, id: WorkId, assignee: WorkId, expected_gen: Option<u64>, now: u64, r: Result<u64, String>)
    requires
        claim_post(g, h, id, assignee, expected_gen, now, r),
        keyed(g.nodes),
        deps_present(g.nodes),
    ensures
        deps_present(h.nodes),
{
    if h.nodes != g.nodes {
        let n = g.nodes[id];
        let n2 = NodeView { status: WorkStatus::Claimed, assignee, cas_gen: bump(n.cas_gen), updated_unix: now, ..n };
        assert(n2.id == id);
        lemma_put_keeps_deps(g.nodes, n2);
        lemma_same_deps_present_from(h.nodes, g.nodes);
        lemma_present_from(g.nodes, h.nodes);
    }
}

/// Handing a claim back keeps every dependency present.
pub proof fn lemma_release_keeps_deps_present(g: GraphView, h: GraphView, id: WorkId, actor: WorkId, now: u64, r: Result<u64, String>)
    requires
        release_post(g, h, id, actor, now, r),
        keyed(g.nodes),
        deps_present(g.nodes),
    ensures
        deps_present(h.nodes),
{
    if g.nodes.contains_key(id) && h.nodes != g.nodes {
        let n2 = handed_back(g.nodes[id], now);
        assert(n2.id == id);
        lemma_put_keeps_deps(g.nodes, n2);
        lemma_same_deps_present_from(h.nodes, g.nodes);
        lemma_present_from(g.nodes, h.nodes);
    }
}

/// Reopening keeps every dependency present.
pub proof fn lemma_reopen_keeps_deps_present(g: GraphView, h: GraphView, id: WorkId, actor: WorkId, now: u64, r: Result<u64, String>)
    requires
        reopen_post(g, h, id, actor, now, r),
        keyed(g.nodes),
        deps_present(g.nodes),
    ensures
        deps_present(h.nodes),
{
    if g.nodes.contains_key(id) && h.nodes != g.nodes {
        let n2 = NodeView { archived: false, ..handed_back(g.nodes[id], now) };
        assert(n2.id == id);
        lemma_put_keeps_deps(g.nodes, n2);
        lemma_same_deps_present_from(h.nodes, g.nodes);
        lemma_present_from(g.nodes, h.nodes);
    }
}

/// Renewing keeps every dependency present.
pub proof fn lemma_renew_keeps_deps_present(g: GraphView, h: GraphView, id: WorkId, actor: WorkId, now: u64, r: Result<u64, String>)
    requires
        renew_post(g, h, id, actor, now, r),
        keyed(g.nodes),
        deps_present(g.nodes),
    ensures
        deps_present(h.nodes),
{
    if g.nodes.contains_key(id) && h.nodes != g.nodes {
        let n2 = NodeView { updated_unix: now, ..g.nodes[id] };
        assert(n2.id == id);
        lemma_put_keeps_deps(g.nodes, n2);
        lemma_same_deps_present_from(h.nodes, g.nodes);
        lemma_present_from(g.nodes, h.nodes);
    }
}

/// Starting the work keeps every dependency present.
pub proof fn lemma_running_keeps_deps_present(g: GraphView, h: GraphView, id: WorkId, actor: WorkId, now: u64, r: Result<(), String>)
    requires
        running_post(g, h, id, actor, now, r),
        keyed(g.nodes),
        deps_present(g.nodes),
    ensures
        deps_present(h.nodes),
{
    if g.nodes.contains_key(id) && h.nodes != g.nodes {
        let n2 = NodeView { status: WorkStatus::Running, updated_unix: now, ..g.nodes[id] };
        assert(n2.id == id);
        lemma_put_keeps_deps(g.nodes, n2);
        lemma_same_deps_present_from(h.nodes, g.nodes);
        lemma_present_from(g.nodes, h.nodes);
    }
}

/// Archiving keeps every dependency present.
pub proof fn lemma_archive_keeps_deps_present(g: GraphView, h: GraphView, id: WorkId, actor: WorkId, now: u64, r: Result<(), String>)
    requires
        archive_post(g, h, id, actor, now, r),
        keyed(g.nodes),
        deps_present(g.nodes),
    ensures
        deps_present(h.nodes),
{
    if g.nodes.contains_key(id) && h.nodes != g.nodes {
        let n = g.nodes[id];
        let n2 = NodeView { archived: true, updated_unix: now, cas_gen: bump(n.cas_gen), ..n };
        assert(n2.id == id);
        lemma_put_keeps_deps(g.nodes, n2);
        lemma_same_deps_present_from(h.nodes, g.nodes);
        lemma_present_from(g.nodes, h.nodes);
    }
}

/// Unarchiving keeps every dependency present.
pub proof fn lemma_unarchive_keeps_deps_present(g: GraphView, h: GraphView, id: WorkId, actor: WorkId, now: u64, r: Result<(), String>)
    requires
        unarchive_post(g, h, id, actor, now, r),
        keyed(g.nodes),
        deps_present(g.nodes),
    ensures
        deps_present(h.nodes),
{
    if g.nodes.contains_key(id) && h.nodes != g.nodes {
        let n = g.nodes[id];
        let n2 = NodeView { archived: false, updated_unix: now, cas_gen: bump(n.cas_gen), ..n };
        assert(n2.id == id);
        lemma_put_keeps_deps(g.nodes, n2);
        lemma_same_deps_present_from(h.nodes, g.nodes);
        lemma_present_from(g.nodes, h.nodes);
    }
}

/// Linking keeps every dependency present: it refuses a missing parent.
pub proof fn lemma_link_keeps_deps_present(g: GraphView, h: GraphView, parent: WorkId, child: WorkId, actor: WorkId, now: u64, r: Result<(), String>)
    requires
        link_post(g, h, parent, child, actor, now, r),
        keyed(g.nodes),
        deps_present(g.nodes),
    ensures
        deps_present(h.nodes),
{
    if h != g {
        let m = g.nodes;
        let n = m[child];
        let n1 = if n.deps.contains(parent) { n } else { NodeView { deps: n.deps.push(parent), updated_unix: now, ..n } };
        let m1 = m.insert(child, n1);
        assert(n1.id == child);
        lemma_put_recompute(g, n1, now);
        assert(present_from(m1, m)) by {
            assert forall|a: WorkId, b: WorkId| #[trigger] step(m1, a, b) implies step(m, a, b) || m1.contains_key(b) by {
                if a == child && !n.deps.contains(b) {
                    assert(n1.deps.contains(b));
                    assert(b == parent) by {
                        let i = choose|i: int| 0 <= i < n1.deps.len() && n1.deps[i] == b;
                        if i < n.deps.len() {
                            assert(n1.deps[i] == n.deps[i]);
                        }
                    }
                }
            }
        }
        lemma_present_from(m, m1);
        lemma_same_deps_present_from(h.nodes, m1);
        lemma_present_from(m1, h.nodes);
    }
}

/// Unlinking keeps every dependency present: it only drops edges.
pub proof fn lemma_unlink_keeps_deps_present(g: GraphView, h: GraphView, parent: WorkId, child: WorkId, actor: WorkId, now: u64, r: Result<(), String>)
    requires
        unlink_post(g, h, parent, child, actor, now, r),
        keyed(g.nodes),
        deps_present(g.nodes),
    ensures
        deps_present(h.nodes),
{
    if h != g {
        let m = g.nodes;
        let n = m[child];
        let kept = without(n.deps, parent);
        let n1 = if kept.len() != n.deps.len() { NodeView { deps: kept, updated_unix: now, ..n } } else { n };
        let m1 = m.insert(child, n1);
        assert(n1.id == child);
        lemma_put_recompute(g, n1, now);
        assert(present_from(m1, m)) by {
            assert forall|a: WorkId, b: WorkId| #[trigger] step(m1, a, b) implies step(m, a, b) || m1.contains_key(b) by {
                if a == child {
                    lemma_without_sub(n.deps, parent, b);
                }
            }
        }
        lemma_present_from(m, m1);
        lemma_same_deps_present_from(h.nodes, m1);
        lemma_present_from(m1, h.nodes);
    }
}

/// Completing keeps every dependency present.
pub proof fn lemma_complete_keeps_deps_present(
    g: GraphView,
    h: GraphView,
    id: WorkId,
    status: WorkStatus,
    summary: Seq<char>,
    actor: WorkId,
    expected_gen: Option<u64>,
    now: u64,
    r: Result<(), String>,
)
    requires
        complete_post(g, h, id, status, summary, actor, expected_gen, now, r),
        keyed(g.nodes),
        deps_present(g.nodes),
    ensures
        deps_present(h.nodes),
{
    if h != g && g.nodes.contains_key(id) && r is Ok && status.terminal() {
        let m = g.nodes;
        let n = m[id];
        if n.status.terminal() {
            lemma_put_keeps_deps(m, NodeView { summary, ..n });
            lemma_same_deps_present_from(h.nodes, m);
            lemma_present_from(m, h.nodes);
        } else {
            let n2 = NodeView {
                status,
                summary: if summary.len() > 0 { summary } else { n.summary },
                finished_unix: now,
                updated_unix: now,
                ..n
            };
            let m1 = m.insert(id, n2);
            lemma_put_keeps_deps(m, n2);
            lemma_same_deps_present_from(m1, m);
            lemma_present_from(m, m1);
            let p = promoted(m1, id, now);
            assert(same_deps_within(p, m1)) by {
                assert forall|k: WorkId| #[trigger] p.contains_key(k) implies m1.contains_key(k) && p[k].deps == m1[k].deps by {
                    lemma_recomputed_ready(m1, m1[k], now);
                }
            }
            lemma_same_deps_present_from(p, m1);
            lemma_present_from(m1, p);
        }
    }
}

/// Upserting keeps every dependency present while the graph has room, so
/// that no finished node is pruned: an upsert does not touch dependencies,
/// and a fresh node has none.
pub proof fn lemma_upsert_keeps_deps_present(g: GraphView, h: GraphView, id_in: WorkId, f: WorkFields, now: u64, r: Result<WorkId, String>)
    requires
        upsert_post(g, h, id_in, f, now, r),
        keyed(g.nodes),
        g.nodes.dom().finite(),
        g.nodes.dom().len() < crate::model::MAX_WORK_NODES,
        deps_present(g.nodes),
    ensures
        deps_present(h.nodes),
{
    let g1 = if id_in.nil() { GraphView { mint_seq: bump(g.mint_seq), ..g } } else { g };
    let id = if id_in.nil() { crate::graph::minted(g.mint_seq, f.kind, f.parent, f.summary@, now) } else { id_in };
    let n0 = if g1.nodes.contains_key(id) { g1.nodes[id] } else { fresh_node(id, f, now) };
    let m = g.nodes;
    assert(g1.nodes == m);
    if h.nodes != m {
        assert(n0.id == id) by {
            if m.contains_key(id) {
                assert(m[id].id == id);
            }
        }
        let m2 = m.insert(id, n0);
        assert(present_from(m2, m)) by {
            assert forall|a: WorkId, b: WorkId| #[trigger] step(m2, a, b) implies step(m, a, b) || m2.contains_key(b) by {
                if a == id && !m.contains_key(id) {
                    assert(n0.deps.len() == 0);
                }
            }
        }
        lemma_present_from(m, m2);
        if r is Ok {
            let n1 = upserted(n0, f, now);
            let g2 = put(g1, n1);
            let m3 = logged(with_recomputed(g2, id, now), id, f.actor, "upsert", now).nodes;
            assert(n1.id == id && n1.deps == n0.deps);
            assert(g2.nodes == m2.insert(id, n1));
            lemma_put_keeps_deps(m2, n1);
            lemma_same_deps_present_from(g2.nodes, m2);
            lemma_present_from(m2, g2.nodes);
            lemma_put_recompute(g1, n1, now);
            lemma_same_deps_present_from(m3, g2.nodes);
            lemma_present_from(g2.nodes, m3);
            // No node is dropped: the graph stays within its bound.
            assert(m3.dom() == m.dom().insert(id));
            vstd::set::axiom_set_insert_len(m.dom(), id);
            vstd::set::axiom_set_insert_finite(m.dom(), id);
            vstd::set::axiom_set_difference_finite(m3.dom(), h.nodes.dom());
            vstd::set_lib::lemma_set_empty_equivalency_len(m3.dom() - h.nodes.dom());
            assert forall|k: WorkId| #[trigger] m3.contains_key(k) implies h.nodes.contains_key(k) by {
                if !h.nodes.contains_key(k) {
                    assert((m3.dom() - h.nodes.dom()).contains(k));
                }
            }
            assert(h.nodes =~= m3) by {
                assert forall|k: WorkId| #[trigger] h.nodes.contains_key(k) implies m3.contains_key(k) && h.nodes[k] == m3[k] by {
                }
            }
        }
    }
}

/// Taking back stale claims keeps every dependency present.
pub proof fn lemma_reclaim_keeps_deps_present(g: GraphView, h: GraphView, lease: u64, now: u64, r: Seq<WorkId>)
    requires
        reclaim_post(g, h, lease, now, r),
        keyed(g.nodes),
        deps_present(g.nodes),
    ensures
        deps_present(h.nodes),
{
    assert forall|i: int| 0 <= i < r.len() implies g.nodes.contains_key(#[trigger] r[i]) by {
        assert(r.contains(r[i]));
    }
    lemma_reclaimed_deps(g, r, now);
    lemma_reclaimed_parents_kept(g, r, now);
    lemma_same_deps_present_from(h.nodes, g.nodes);
    lemma_present_from(g.nodes, h.nodes);
}

/// The graph every seat starts from holds every invariant above: no node,
/// so nothing dangles, loops, is held twice or says it is ready.
pub proof fn lemma_empty_graph_sound()
    ensures
        keyed(crate::graph::empty_graph().nodes),
        deps_present(crate::graph::empty_graph().nodes),
        acyclic(crate::graph::empty_graph().nodes),
        parent_acyclic(crate::graph::empty_graph().nodes),
        one_live_each(crate::graph::empty_graph().nodes),
        archived_finished(crate::graph::empty_graph().nodes),
        ready_sound(crate::graph::empty_graph().nodes),
        deps_distinct(crate::graph::empty_graph().nodes),
{
    let m = crate::graph::empty_graph().nodes;
    assert forall|a: WorkId, b: WorkId| #[trigger] step(m, a, b) implies !reaches(m, b, a) by {
    }
    assert forall|k: WorkId| #[trigger] m.contains_key(k) && !m[k].parent.nil() implies !parent_reaches_spec(m, m[k].parent, k) by {
    }
}

/// The graph holds each node under its own id, has finitely many nodes,
/// and every dependency names a present node, closes no loop, and leaves the
/// parent links a forest: what the graph check asks.
pub open spec fn sound(g: GraphView) -> bool {
    &&& keyed(g.nodes)
    &&& g.nodes.dom().finite()
    &&& deps_present(g.nodes)
    &&& acyclic(g.nodes)
    &&& parent_acyclic(g.nodes)
}

proof fn lemma_insert_keyed(m: Map<WorkId, NodeView>, n: NodeView)
    requires
        keyed(m),
        m.dom().finite(),
    ensures
        keyed(m.insert(n.id, n)),
        m.insert(n.id, n).dom().finite(),
{
    assert(m.insert(n.id, n).dom() == m.dom().insert(n.id));
}

proof fn lemma_recompute_keyed(g: GraphView, id: WorkId, now: u64)
    requires
        keyed(g.nodes),
        g.nodes.dom().finite(),
    ensures
        keyed(with_recomputed(g, id, now).nodes),
        with_recomputed(g, id, now).nodes.dom().finite(),
{
    if g.nodes.contains_key(id) {
        lemma_recomputed_ready(g.nodes, g.nodes[id], now);
        assert(g.nodes[id].id == id);
        lemma_insert_keyed(g.nodes, recomputed(g.nodes, g.nodes[id], now));
    }
}

proof fn lemma_claim_keeps_sound(g: GraphView, h: GraphView, id: WorkId, assignee: WorkId, expected_gen: Option<u64>, now: u64, r: Result<u64, String>)
    requires
        claim_post(g, h, id, assignee, expected_gen, now, r),
        sound(g),
    ensures
        sound(h),
{
    if h.nodes != g.nodes {
        let n = g.nodes[id];
        lemma_insert_keyed(g.nodes, NodeView { status: WorkStatus::Claimed, assignee, cas_gen: bump(n.cas_gen), updated_unix: now, ..n });
    }
    lemma_claim_keeps_acyclic(g, h, id, assignee, expected_gen, now, r);
    lemma_claim_keeps_deps_present(g, h, id, assignee, expected_gen, now, r);
    lemma_claim_keeps_forest(g, h, id, assignee, expected_gen, now, r);
}

proof fn lemma_release_keeps_sound(g: GraphView, h: GraphView, id: WorkId, actor: WorkId, now: u64, r: Result<u64, String>)
    requires
        release_post(g, h, id, actor, now, r),
        sound(g),
    ensures
        sound(h),
{
    if g.nodes.contains_key(id) && h.nodes != g.nodes {
        lemma_insert_keyed(g.nodes, handed_back(g.nodes[id], now));
    }
    lemma_release_keeps_acyclic(g, h, id, actor, now, r);
    lemma_release_keeps_deps_present(g, h, id, actor, now, r);
    lemma_release_keeps_forest(g, h, id, actor, now, r);
}

proof fn lemma_reopen_keeps_sound(g: GraphView, h: GraphView, id: WorkId, actor: WorkId, now: u64, r: Result<u64, String>)
    requires
        reopen_post(g, h, id, actor, now, r),
        sound(g),
    ensures
        sound(h),
{
    if g.nodes.contains_key(id) && h.nodes != g.nodes {
        lemma_insert_keyed(g.nodes, NodeView { archived: false, ..handed_back(g.nodes[id], now) });
    }
    lemma_reopen_keeps_acyclic(g, h, id, actor, now, r);
    lemma_reopen_keeps_deps_present(g, h, id, actor, now, r);
    lemma_reopen_keeps_forest(g, h, id, actor, now, r);
}

proof fn lemma_renew_keeps_sound(g: GraphView, h: GraphView, id: WorkId, actor: WorkId, now: u64, r: Result<u64, String>)
    requires
        renew_post(g, h, id, actor, now, r),
        sound(g),
    ensures
        sound(h),
{
    if g.nodes.contains_key(id) && h.nodes != g.nodes {
        lemma_insert_keyed(g.nodes, NodeView { updated_unix: now, ..g.nodes[id] });
    }
    lemma_renew_keeps_acyclic(g, h, id, actor, now, r);
    lemma_renew_keeps_deps_present(g, h, id, actor, now, r);
    lemma_renew_keeps_forest(g, h, id, actor, now, r);
}

proof fn lemma_running_keeps_sound(g: GraphView, h: GraphView, id: WorkId, actor: WorkId, now: u64, r: Result<(), String>)
    requires
        running_post(g, h, id, actor, now, r),
        sound(g),
    ensures
        sound(h),
{
    if g.nodes.contains_key(id) && h.nodes != g.nodes {
        lemma_insert_keyed(g.nodes, NodeView { status: WorkStatus::Running, updated_unix: now, ..g.nodes[id] });
    }
    lemma_running_keeps_acyclic(g, h, id, actor, now, r);
    lemma_running_keeps_deps_present(g, h, id, actor, now, r);
    lemma_running_keeps_forest(g, h, id, actor, now, r);
}

proof fn lemma_archive_keeps_sound(g: GraphView, h: GraphView, id: WorkId, actor: WorkId, now: u64, r: Result<(), String>)
    requires
        archive_post(g, h, id, actor, now, r),
        sound(g),
    ensures
        sound(h),
{
    if g.nodes.contains_key(id) && h.nodes != g.nodes {
        let n = g.nodes[id];
        lemma_insert_keyed(g.nodes, NodeView { archived: true, updated_unix: now, cas_gen: bump(n.cas_gen), ..n });
    }
    lemma_archive_keeps_acyclic(g, h, id, actor, now, r);
    lemma_archive_keeps_deps_present(g, h, id, actor, now, r);
    lemma_archive_keeps_forest(g, h, id, actor, now, r);
}

proof fn lemma_unarchive_keeps_sound(g: GraphView, h: GraphView, id: WorkId, actor: WorkId, now: u64, r: Result<(), String>)
    requires
        unarchive_post(g, h, id, actor, now, r),
        sound(g),
    ensures
        sound(h),
{
    if g.nodes.contains_key(id) && h.nodes != g.nodes {
        let n = g.nodes[id];
        lemma_insert_keyed(g.nodes, NodeView { archived: false, updated_unix: now, cas_gen: bump(n.cas_gen), ..n });
    }
    lemma_unarchive_keeps_acyclic(g, h, id, actor, now, r);
    lemma_unarchive_keeps_deps_present(g, h, id, actor, now, r);
    lemma_unarchive_keeps_forest(g, h, id, actor, now, r);
}

proof fn lemma_link_keeps_sound(g: GraphView, h: GraphView, parent: WorkId, child: WorkId, actor: WorkId, now: u64, r: Result<(), String>)
    requires
        link_post(g, h, parent, child, actor, now, r),
        sound(g),
    ensures
        sound(h),
{
    if h != g {
        let n = g.nodes[child];
        let n1 = if n.deps.contains(parent) { n } else { NodeView { deps: n.deps.push(parent), updated_unix: now, ..n } };
        lemma_insert_keyed(g.nodes, n1);
        lemma_recompute_keyed(put(g, n1), child, now);
    }
    lemma_link_keeps_acyclic(g, h, parent, child, actor, now, r);
    lemma_link_keeps_deps_present(g, h, parent, child, actor, now, r);
    lemma_link_keeps_forest(g, h, parent, child, actor, now, r);
}

proof fn lemma_unlink_keeps_sound(g: GraphView, h: GraphView, parent: WorkId, child: WorkId, actor: WorkId, now: u64, r: Result<(), String>)
    requires
        unlink_post(g, h, parent, child, actor, now, r),
        sound(g),
    ensures
        sound(h),
{
    if h != g {
        let n = g.nodes[child];
        let kept = without(n.deps, parent);
        let n1 = if kept.len() != n.deps.len() { NodeView { deps: kept, updated_unix: now, ..n } } else { n };
        lemma_insert_keyed(g.nodes, n1);
        lemma_recompute_keyed(put(g, n1), child, now);
    }
    lemma_unlink_keeps_acyclic(g, h, parent, child, actor, now, r);
    lemma_unlink_keeps_deps_present(g, h, parent, child, actor, now, r);
    lemma_unlink_keeps_forest(g, h, parent, child, actor, now, r);
}

proof fn lemma_complete_keeps_sound(
    g: GraphView,
    h: GraphView,
    id: WorkId,
    status: WorkStatus,
    summary: Seq<char>,
    actor: WorkId,
    expected_gen: Option<u64>,
    now: u64,
    r: Result<(), String>,
)
    requires
        complete_post(g, h, id, status, summary, actor, expected_gen, now, r),
        sound(g),
    ensures
        sound(h),
{
    if h != g && g.nodes.contains_key(id) && r is Ok && status.terminal() {
        let m = g.nodes;
        let n = m[id];
        if n.status.terminal() {
            lemma_insert_keyed(m, NodeView { summary, ..n });
        } else {
            let n2 = NodeView {
                status,
                summary: if summary.len() > 0 { summary } else { n.summary },
                finished_unix: now,
                updated_unix: now,
                ..n
            };
            let m1 = m.insert(id, n2);
            lemma_insert_keyed(m, n2);
            let p = promoted(m1, id, now);
            assert(p.dom() =~= m1.dom());
            assert forall|k: WorkId| #[trigger] p.contains_key(k) implies p[k].id == k by {
                lemma_recomputed_ready(m1, m1[k], now);
            }
        }
    }
    lemma_complete_keeps_acyclic(g, h, id, status, summary, actor, expected_gen, now, r);
    lemma_complete_keeps_deps_present(g, h, id, status, summary, actor, expected_gen, now, r);
    lemma_complete_keeps_forest(g, h, id, status, summary, actor, expected_gen, now, r);
}

proof fn lemma_upsert_keeps_sound(g: GraphView, h: GraphView, id_in: WorkId, f: WorkFields, now: u64, r: Result<WorkId, String>)
    requires
        upsert_post(g, h, id_in, f, now, r),
        sound(g),
        g.nodes.dom().len() < crate::model::MAX_WORK_NODES,
    ensures
        sound(h),
{
    let g1 = if id_in.nil() { GraphView { mint_seq: bump(g.mint_seq), ..g } } else { g };
    let id = if id_in.nil() { crate::graph::minted(g.mint_seq, f.kind, f.parent, f.summary@, now) } else { id_in };
    let n0 = if g1.nodes.contains_key(id) { g1.nodes[id] } else { fresh_node(id, f, now) };
    let m = g.nodes;
    assert(g1.nodes == m);
    if h.nodes != m {
        assert(n0.id == id) by {
            if m.contains_key(id) {
                assert(m[id].id == id);
            }
        }
        lemma_insert_keyed(m, n0);
        if r is Ok {
            let n1 = upserted(n0, f, now);
            let g2 = put(g1, n1);
            lemma_insert_keyed(m, n1);
            lemma_recompute_keyed(g2, id, now);
            let g3 = logged(with_recomputed(g2, id, now), id, f.actor, "upsert", now);
            assert(h.nodes.dom().subset_of(g3.nodes.dom()));
            vstd::set_lib::lemma_set_subset_finite(g3.nodes.dom(), h.nodes.dom());
            assert forall|k: WorkId| #[trigger] h.nodes.contains_key(k) implies h.nodes[k].id == k by {
                assert(g3.nodes.contains_key(k) && h.nodes[k] == g3.nodes[k]);
            }
        }
    }
    lemma_upsert_keeps_acyclic(g, h, id_in, f, now, r);
    lemma_upsert_keeps_deps_present(g, h, id_in, f, now, r);
    lemma_upsert_keeps_forest(g, h, id_in, f, now, r);
}

proof fn lemma_reclaim_keeps_sound(g: GraphView, h: GraphView, lease: u64, now: u64, r: Seq<WorkId>)
    requires
        reclaim_post(g, h, lease, now, r),
        sound(g),
    ensures
        sound(h),
{
    assert forall|i: int| 0 <= i < r.len() implies g.nodes.contains_key(#[trigger] r[i]) by {
        assert(r.contains(r[i]));
    }
    lemma_reclaimed_deps(g, r, now);
    lemma_reclaimed_parents_kept(g, r, now);
    assert(h.nodes.dom() =~= g.nodes.dom());
    lemma_reclaim_keeps_acyclic(g, h, lease, now, r);
    lemma_reclaim_keeps_deps_present(g, h, lease, now, r);
    lemma_reclaim_keeps_forest(g, h, lease, now, r);
}

/// `h` is what one call on `g` leaves, accepted or refused: any verb on the
/// graph at any time, an upsert only while the graph has room for one more
/// node, so that nothing is pruned.
pub open spec fn one_call(g: GraphView, h: GraphView) -> bool {
    ||| exists|id: WorkId, f: WorkFields, now: u64, r: Result<WorkId, String>|
        #[trigger] upsert_post(g, h, id, f, now, r) && g.nodes.dom().len() < crate::model::MAX_WORK_NODES
    ||| exists|p: WorkId, c: WorkId, a: WorkId, now: u64, r: Result<(), String>| #[trigger] link_post(g, h, p, c, a, now, r)
    ||| exists|p: WorkId, c: WorkId, a: WorkId, now: u64, r: Result<(), String>| #[trigger] unlink_post(g, h, p, c, a, now, r)
    ||| exists|id: WorkId, a: WorkId, e: Option<u64>, now: u64, r: Result<u64, String>| #[trigger] claim_post(g, h, id, a, e, now, r)
    ||| exists|id: WorkId, a: WorkId, now: u64, r: Result<(), String>| #[trigger] running_post(g, h, id, a, now, r)
    ||| exists|id: WorkId, a: WorkId, now: u64, r: Result<u64, String>| #[trigger] renew_post(g, h, id, a, now, r)
    ||| exists|id: WorkId, a: WorkId, now: u64, r: Result<u64, String>| #[trigger] release_post(g, h, id, a, now, r)
    ||| exists|lease: u64, now: u64, r: Seq<WorkId>| #[trigger] reclaim_post(g, h, lease, now, r)
    ||| exists|id: WorkId, st: WorkStatus, sm: Seq<char>, a: WorkId, e: Option<u64>, now: u64, r: Result<(), String>|
        #[trigger] complete_post(g, h, id, st, sm, a, e, now, r)
    ||| exists|id: WorkId, a: WorkId, now: u64, r: Result<u64, String>| #[trigger] reopen_post(g, h, id, a, now, r)
    ||| exists|id: WorkId, a: WorkId, now: u64, r: Result<(), String>| #[trigger] archive_post(g, h, id, a, now, r)
    ||| exists|id: WorkId, a: WorkId, now: u64, r: Result<(), String>| #[trigger] unarchive_post(g, h, id, a, now, r)
}

proof fn lemma_one_call_keeps_sound(g: GraphView, h: GraphView)
    requires
        one_call(g, h),
        sound(g),
    ensures
        sound(h),
{
    if exists|id: WorkId, f: WorkFields, now: u64, r: Result<WorkId, String>|
        #[trigger] upsert_post(g, h, id, f, now, r) && g.nodes.dom().len() < crate::model::MAX_WORK_NODES {
        let (id, f, now, r) = choose|id: WorkId, f: WorkFields, now: u64, r: Result<WorkId, String>|
            #[trigger] upsert_post(g, h, id, f, now, r) && g.nodes.dom().len() < crate::model::MAX_WORK_NODES;
        lemma_upsert_keeps_sound(g, h, id, f, now, r);
    } else if exists|p: WorkId, c: WorkId, a: WorkId, now: u64, r: Result<(), String>| #[trigger] link_post(g, h, p, c, a, now, r) {
        let (p, c, a, now, r) = choose|p: WorkId, c: WorkId, a: WorkId, now: u64, r: Result<(), String>| #[trigger] link_post(g, h, p, c, a, now, r);
        lemma_link_keeps_sound(g, h, p, c, a, now, r);
    } else if exists|p: WorkId, c: WorkId, a: WorkId, now: u64, r: Result<(), String>| #[trigger] unlink_post(g, h, p, c, a, now, r) {
        let (p, c, a, now, r) = choose|p: WorkId, c: WorkId, a: WorkId, now: u64, r: Result<(), String>| #[trigger] unlink_post(g, h, p, c, a, now, r);
        lemma_unlink_keeps_sound(g, h, p, c, a, now, r);
    } else if exists|id: WorkId, a: WorkId, e: Option<u64>, now: u64, r: Result<u64, String>| #[trigger] claim_post(g, h, id, a, e, now, r) {
        let (id, a, e, now, r) = choose|id: WorkId, a: WorkId, e: Option<u64>, now: u64, r: Result<u64, String>| #[trigger] claim_post(g, h, id, a, e, now, r);
        lemma_claim_keeps_sound(g, h, id, a, e, now, r);
    } else if exists|id: WorkId, a: WorkId, now: u64, r: Result<(), String>| #[trigger] running_post(g, h, id, a, now, r) {
        let (id, a, now, r) = choose|id: WorkId, a: WorkId, now: u64, r: Result<(), String>| #[trigger] running_post(g, h, id, a, now, r);
        lemma_running_keeps_sound(g, h, id, a, now, r);
    } else if exists|id: WorkId, a: WorkId, now: u64, r: Result<u64, String>| #[trigger] renew_post(g, h, id, a, now, r) {
        let (id, a, now, r) = choose|id: WorkId, a: WorkId, now: u64, r: Result<u64, String>| #[trigger] renew_post(g, h, id, a, now, r);
        lemma_renew_keeps_sound(g, h, id, a, now, r);
    } else if exists|id: WorkId, a: WorkId, now: u64, r: Result<u64, String>| #[trigger] release_post(g, h, id, a, now, r) {
        let (id, a, now, r) = choose|id: WorkId, a: WorkId, now: u64, r: Result<u64, String>| #[trigger] release_post(g, h, id, a, now, r);
        lemma_release_keeps_sound(g, h, id, a, now, r);
    } else if exists|lease: u64, now: u64, r: Seq<WorkId>| #[trigger] reclaim_post(g, h, lease, now, r) {
        let (lease, now, r) = choose|lease: u64, now: u64, r: Seq<WorkId>| #[trigger] reclaim_post(g, h, lease, now, r);
        lemma_reclaim_keeps_sound(g, h, lease, now, r);
    } else if exists|id: WorkId, st: WorkStatus, sm: Seq<char>, a: WorkId, e: Option<u64>, now: u64, r: Result<(), String>|
        #[trigger] complete_post(g, h, id, st, sm, a, e, now, r) {
        let (id, st, sm, a, e, now, r) = choose|id: WorkId, st: WorkStatus, sm: Seq<char>, a: WorkId, e: Option<u64>, now: u64, r: Result<(), String>|
            #[trigger] complete_post(g, h, id, st, sm, a, e, now, r);
        lemma_complete_keeps_sound(g, h, id, st, sm, a, e, now, r);
    } else if exists|id: WorkId, a: WorkId, now: u64, r: Result<u64, String>| #[trigger] reopen_post(g, h, id, a, now, r) {
        let (id, a, now, r) = choose|id: WorkId, a: WorkId, now: u64, r: Result<u64, String>| #[trigger] reopen_post(g, h, id, a, now, r);
        lemma_reopen_keeps_sound(g, h, id, a, now, r);
    } else if exists|id: WorkId, a: WorkId, now: u64, r: Result<(), String>| #[trigger] archive_post(g, h, id, a, now, r) {
        let (id, a, now, r) = choose|id: WorkId, a: WorkId, now: u64, r: Result<(), String>| #[trigger] archive_post(g, h, id, a, now, r);
        lemma_archive_keeps_sound(g, h, id, a, now, r);
    } else {
        let (id, a, now, r) = choose|id: WorkId, a: WorkId, now: u64, r: Result<(), String>| #[trigger] unarchive_post(g, h, id, a, now, r);
        lemma_unarchive_keeps_sound(g, h, id, a, now, r);
    }
}

proof fn lemma_calls_sound(gs: Seq<GraphView>, i: int)
    requires
        gs.len() > 0,
        gs[0] == crate::graph::empty_graph(),
        forall|j: int| 0 <= j < gs.len() - 1 ==> one_call(#[trigger] gs[j], gs[j + 1]),
        0 <= i < gs.len(),
    ensures
        sound(gs[i]),
    decreases i,
{
    if i == 0 {
        lemma_empty_graph_sound();
        assert(gs[0].nodes.dom() =~= Set::<WorkId>::empty());
    } else {
        lemma_calls_sound(gs, i - 1);
        assert(one_call(gs[i - 1], gs[i - 1 + 1]));
        lemma_one_call_keeps_sound(gs[i - 1], gs[i]);
    }
}

/// The graph check passes on every graph a seat can reach: starting from the
/// empty graph, any run of calls, accepted or refused, with every upsert made
/// while there is room for one more node, leaves each node sound — no
/// dependency missing, no dependency loop, no parent loop — so `verify`
/// answers `Ok` all along.
pub proof fn lemma_every_reachable_graph_verifies(gs: Seq<GraphView>)
    requires
        gs.len() > 0,
        gs[0] == crate::graph::empty_graph(),
        forall|j: int| 0 <= j < gs.len() - 1 ==> one_call(#[trigger] gs[j], gs[j + 1]),
    ensures
        forall|i: int, k: WorkId| 0 <= i < gs.len() && #[trigger] gs[i].nodes.contains_key(k) ==> crate::graph::node_sound(gs[i].nodes, k),
{
    assert forall|i: int, k: WorkId| 0 <= i < gs.len() && #[trigger] gs[i].nodes.contains_key(k) implies crate::graph::node_sound(gs[i].nodes, k) by {
        lemma_calls_sound(gs, i);
        lemma_sound_graph_verifies(gs[i].nodes);
    }
}

/// An upsert that goes through leaves the node in the graph, with the
/// summary asked for when one is given; an empty summary leaves the stored
/// one alone, and a fresh node given none has none.
pub proof fn lemma_upsert_summary(g: GraphView, h: GraphView, id_in: WorkId, f: WorkFields, now: u64, r: Result<WorkId, String>)
    requires
        upsert_post(g, h, id_in, f, now, r),
        keyed(g.nodes),
    ensures
        r matches Ok(w) ==> h.nodes.contains_key(w),
        r matches Ok(w) ==> (f.summary@.len() > 0 ==> h.nodes[w].summary == f.summary@),
        r matches Ok(w) ==> (f.summary@.len() == 0 && g.nodes.contains_key(w) ==> h.nodes[w].summary == g.nodes[w].summary),
        r matches Ok(w) ==> (f.summary@.len() == 0 && !g.nodes.contains_key(w) ==> h.nodes[w].summary.len() == 0),
{
    let g1 = if id_in.nil() { GraphView { mint_seq: bump(g.mint_seq), ..g } } else { g };
    let id = if id_in.nil() { crate::graph::minted(g.mint_seq, f.kind, f.parent, f.summary@, now) } else { id_in };
    let n0 = if g1.nodes.contains_key(id) { g1.nodes[id] } else { fresh_node(id, f, now) };
    assert(g1.nodes == g.nodes);
    if r is Ok {
        let n1 = upserted(n0, f, now);
        let g2 = put(g1, n1);
        let g3 = logged(with_recomputed(g2, id, now), id, f.actor, "upsert", now);
        assert(n0.id == id) by {
            if g.nodes.contains_key(id) {
                assert(g.nodes[id].id == id);
            }
        }
        assert(g2.nodes.contains_key(id));
        let n3 = recomputed(g2.nodes, n1, now);
        assert(g3.nodes == g2.nodes.insert(id, n3));
        assert(!n3.status.terminal());
        assert(h.nodes.contains_key(id)) by {
            if !h.nodes.contains_key(id) {
                assert(g3.nodes.contains_key(id));
            }
        }
        assert(h.nodes[id] == g3.nodes[id]);
        assert(r == Ok::<WorkId, String>(id));
    }
}

/// Completing a node as done readies every node that waited on it and now
/// has all it waits on done, whichever place the finished node holds among
/// its dependencies.
pub proof fn lemma_complete_readies_waiting(
    g: GraphView,
    h: GraphView,
    id: WorkId,
    summary: Seq<char>,
    actor: WorkId,
    expected_gen: Option<u64>,
    now: u64,
    r: Result<(), String>,
    k: WorkId,
)
    requires
        complete_post(g, h, id, WorkStatus::Done, summary, actor, expected_gen, now, r),
        keyed(g.nodes),
        r is Ok,
        g.nodes.contains_key(id),
        !g.nodes[id].status.terminal(),
        k != id,
        g.nodes.contains_key(k),
        g.nodes[k].deps.contains(id),
        g.nodes[k].status == WorkStatus::Todo || g.nodes[k].status == WorkStatus::Blocked || g.nodes[k].status == WorkStatus::Ready,
        forall|i: int| 0 <= i < g.nodes[k].deps.len() ==> h.nodes.contains_key(#[trigger] g.nodes[k].deps[i])
            && h.nodes[g.nodes[k].deps[i]].status == WorkStatus::Done,
    ensures
        h.nodes.contains_key(id),
        h.nodes[id].status == WorkStatus::Done,
        h.nodes.contains_key(k),
        h.nodes[k].status == WorkStatus::Ready,
        h.nodes[k].deps == g.nodes[k].deps,
{
    let m = g.nodes;
    let n = m[id];
    let n2 = NodeView {
        status: WorkStatus::Done,
        summary: if summary.len() > 0 { summary } else { n.summary },
        finished_unix: now,
        updated_unix: now,
        ..n
    };
    let m1 = m.insert(id, n2);
    assert(h.nodes == promoted(m1, id, now));
    assert(m1[k] == m[k]);
    lemma_recomputed_ready(m1, m1[id], now);
    lemma_recomputed_ready(m1, m1[k], now);
    assert(deps_done(m1, m1[k])) by {
        assert forall|i: int| 0 <= i < m1[k].deps.len() implies m1.contains_key(#[trigger] m1[k].deps[i])
            && m1[m1[k].deps[i]].status == WorkStatus::Done by {
            let d = m1[k].deps[i];
            assert(h.nodes.contains_key(d) && h.nodes[d].status == WorkStatus::Done);
            lemma_recomputed_ready(m1, m1[d], now);
        }
    }
}

/// Taking back stale claims hands back exactly the held nodes, claimed or
/// running, whose last touch is at least the lease before now, each once,
/// the longest quiet first.
pub proof fn lemma_reclaim_hands_back_stale_holds(g: GraphView, h: GraphView, lease: u64, now: u64, r: Seq<WorkId>, k: WorkId)
    requires
        reclaim_post(g, h, lease, now, r),
        keyed(g.nodes),
    ensures
        r.contains(k) <==> g.nodes.contains_key(k)
            && (g.nodes[k].status == WorkStatus::Claimed || g.nodes[k].status == WorkStatus::Running)
            && (if now >= g.nodes[k].updated_unix { now - g.nodes[k].updated_unix } else { 0 }) >= lease,
        r.contains(k) ==> h.nodes.contains_key(k) && h.nodes[k].status == WorkStatus::Ready && h.nodes[k].assignee.nil()
            && h.nodes[k].updated_unix == now
            && h.nodes[k].cas_gen == (if g.nodes[k].cas_gen == u64::MAX { u64::MAX } else { (g.nodes[k].cas_gen + 1) as u64 })
            && h.nodes[k].deps == g.nodes[k].deps && h.nodes[k].parent == g.nodes[k].parent
            && h.nodes[k].summary == g.nodes[k].summary,
        !r.contains(k) && g.nodes.contains_key(k) ==> h.nodes.contains_key(k) && h.nodes[k] == g.nodes[k],
        r.no_duplicates(),
        forall|i: int, j: int| 0 <= i < j < r.len() ==> g.nodes[#[trigger] r[i]].updated_unix <= g.nodes[#[trigger] r[j]].updated_unix,
{
    assert forall|i: int| 0 <= i < r.len() implies g.nodes.contains_key(#[trigger] r[i]) by {
        assert(r.contains(r[i]));
    }
    assert(r.no_duplicates()) by {
        assert forall|i: int, j: int| 0 <= i < r.len() && 0 <= j < r.len() && i != j implies r[i] != r[j] by {
            if i < j {
                assert(crate::graph::touched_before(g, r[i], r[j]));
            } else {
                assert(crate::graph::touched_before(g, r[j], r[i]));
            }
        }
    }
    lemma_reclaimed_at(g, r, now, k);
}

/// Handing back each of `ids` in turn leaves each of them handed back and
/// every other node as it was.
proof fn lemma_reclaimed_at(g: GraphView, ids: Seq<WorkId>, now: u64, k: WorkId)
    requires
        keyed(g.nodes),
        ids.no_duplicates(),
        forall|i: int| 0 <= i < ids.len() ==> g.nodes.contains_key(#[trigger] ids[i]),
    ensures
        reclaimed(g, ids, now).nodes.contains_key(k) == g.nodes.contains_key(k),
        ids.contains(k) ==> reclaimed(g, ids, now).nodes[k] == handed_back(g.nodes[k], now),
        !ids.contains(k) && g.nodes.contains_key(k) ==> reclaimed(g, ids, now).nodes[k] == g.nodes[k],
    decreases ids.len(),
{
    if ids.len() > 0 {
        let q = ids.drop_last();
        assert forall|i: int| 0 <= i < q.len() implies g.nodes.contains_key(#[trigger] q[i]) by {
            assert(q[i] == ids[i]);
        }
        assert(q.no_duplicates()) by {
            assert forall|i: int, j: int| 0 <= i < q.len() && 0 <= j < q.len() && i != j implies q[i] != q[j] by {
                assert(q[i] == ids[i] && q[j] == ids[j]);
            }
        }
        lemma_reclaimed_at(g, q, now, k);
        let id = ids.last();
        assert(g.nodes.contains_key(ids[ids.len() - 1]));
        let n2 = handed_back(g.nodes[id], now);
        assert(n2.id == id);
        if k == id {
            assert(ids.contains(k));
        } else {
            if ids.contains(k) {
                let i = choose|i: int| 0 <= i < ids.len() && ids[i] == k;
                assert(q[i] == k);
            }
            if q.contains(k) {
                let i = choose|i: int| 0 <= i < q.len() && q[i] == k;
                assert(ids[i] == k);
            }
        }
    }
}

/// Each of the ids, in order, as 32 hex characters with one space between.
proof fn lemma_join_hex_layout(ids: Seq<WorkId>)
    requires
        ids.len() > 0,
    ensures
        join_hex(ids).len() == 33 * ids.len() - 1,
        forall|i: int| 0 <= i < ids.len() ==> join_hex(ids).subrange(33 * i, 33 * i + 32) == (#[trigger] ids[i]).hex(),
        forall|i: int| 0 <= i < ids.len() - 1 ==> #[trigger] join_hex(ids)[33 * i + 32] == ' ',
    decreases ids.len(),
{
    if ids.len() == 1 {
        assert(join_hex(ids).subrange(0, 32) =~= ids[0].hex());
    } else {
        let q = ids.drop_last();
        lemma_join_hex_layout(q);
        let jq = join_hex(q);
        let j = join_hex(ids);
        assert(j == jq + " "@ + ids.last().hex());
        reveal_strlit(" ");
        assert forall|i: int| 0 <= i < ids.len() implies j.subrange(33 * i, 33 * i + 32) == (#[trigger] ids[i]).hex() by {
            if i < q.len() {
                assert(q[i] == ids[i]);
                assert(j.subrange(33 * i, 33 * i + 32) =~= jq.subrange(33 * i, 33 * i + 32));
            } else {
                assert(j.subrange(33 * i, 33 * i + 32) =~= ids.last().hex());
            }
        }
        assert forall|i: int| 0 <= i < ids.len() - 1 implies #[trigger] j[33 * i + 32] == ' ' by {
            if i < q.len() - 1 {
                assert(j[33 * i + 32] == jq[33 * i + 32]);
            }
        }
    }
}

/// The dependency line `get` prints names every dependency, in order: the
/// ids of `k` dependencies take `32 * k` characters with a space between
/// each two, after `deps` and two spaces; no dependency prints `-`.
pub proof fn lemma_get_lists_every_dep(n: NodeView)
    ensures
        get_lines(n).len() == 2,
        n.deps.len() == 0 ==> get_lines(n)[1] == "deps  -"@,
        n.deps.len() > 0 ==> get_lines(n)[1].len() == 6 + 33 * n.deps.len() - 1,
        n.deps.len() > 0 ==> get_lines(n)[1].subrange(0, 6) == "deps  "@,
        forall|i: int| 0 <= i < n.deps.len() ==> get_lines(n)[1].subrange(6 + 33 * i, 6 + 33 * i + 32) == (#[trigger] n.deps[i]).hex(),
        forall|i: int| 0 <= i < n.deps.len() - 1 ==> #[trigger] get_lines(n)[1][6 + 33 * i + 32] == ' ',
{
    reveal_strlit("deps  ");
    reveal_strlit("-");
    reveal_strlit("deps  -");
    let line = get_lines(n)[1];
    if n.deps.len() == 0 {
        assert(line =~= "deps  "@ + "-"@);
    } else {
        lemma_join_hex_layout(n.deps);
        let jh = join_hex(n.deps);
        assert(line == "deps  "@ + jh);
        assert(line.subrange(0, 6) =~= "deps  "@);
        assert forall|i: int| 0 <= i < n.deps.len() implies line.subrange(6 + 33 * i, 6 + 33 * i + 32) == (#[trigger] n.deps[i]).hex() by {
            assert(line.subrange(6 + 33 * i, 6 + 33 * i + 32) =~= jh.subrange(33 * i, 33 * i + 32));
        }
        assert forall|i: int| 0 <= i < n.deps.len() - 1 implies #[trigger] line[6 + 33 * i + 32] == ' ' by {
            assert(line[6 + 33 * i + 32] == jh[33 * i + 32]);
        }
    }
}

/// How long a held node has been quiet, in whole units of the coarsest
/// that fits: seconds under a minute, whole minutes under an hour, whole
/// hours under a day, whole days after; nothing for a node nobody holds.
pub proof fn lemma_quiet_whole_units(n: NodeView, now: u64)
    ensures
        !(n.status == WorkStatus::Claimed || n.status == WorkStatus::Running) ==> quiet_text(n, now) is None,
        ({
            let s: nat = if now >= n.updated_unix { (now - n.updated_unix) as nat } else { 0 };
            (n.status == WorkStatus::Claimed || n.status == WorkStatus::Running) ==> {
                &&& s < 60 ==> quiet_text(n, now) == Some(dec(s) + "s"@)
                &&& 60 <= s < 3600 ==> exists|v: nat| quiet_text(n, now) == Some(#[trigger] dec(v) + "m"@) && v * 60 <= s < v * 60 + 60
                &&& 3600 <= s < 86400 ==> exists|v: nat| quiet_text(n, now) == Some(#[trigger] dec(v) + "h"@) && v * 3600 <= s < v * 3600 + 3600
                &&& 86400 <= s ==> exists|v: nat| quiet_text(n, now) == Some(#[trigger] dec(v) + "d"@) && v * 86400 <= s < v * 86400 + 86400
            }
        }),
{
    let s: nat = if now >= n.updated_unix { (now - n.updated_unix) as nat } else { 0 };
    if n.status == WorkStatus::Claimed || n.status == WorkStatus::Running {
        if 60 <= s < 3600 {
            let v = s / 60;
            assert(v * 60 <= s < v * 60 + 60);
            assert(quiet_text(n, now) == Some(dec(v) + "m"@));
        } else if 3600 <= s < 86400 {
            let v = s / 3600;
            assert(v * 3600 <= s < v * 3600 + 3600);
            assert(quiet_text(n, now) == Some(dec(v) + "h"@));
        } else if 86400 <= s {
            let v = s / 86400;
            assert(v * 86400 <= s < v * 86400 + 86400);
            assert(quiet_text(n, now) == Some(dec(v) + "d"@));
        }
    }
}

/// Every id in `deps` is a node of `m`, other than `w`, that is done.
pub open spec fn others_done(m: Map<WorkId, NodeView>, deps: Seq<WorkId>, w: WorkId) -> bool {
    forall|i: int| 0 <= i < deps.len() ==> #[trigger] deps[i] != w && m.contains_key(deps[i]) && m[deps[i]].status == WorkStatus::Done
}

/// An upsert that goes through sets what it is given and keeps what it is
/// not: an unset kind or role, or a zero parent, leaves the stored one; the
/// dependencies are never touched, and a fresh node has none. Readiness is
/// derived: the node is ready exactly when every dependency is another
/// node of the graph that is done, and otherwise waits as blocked when
/// asked to, else as todo.
pub proof fn lemma_upsert_fields(g: GraphView, h: GraphView, id_in: WorkId, f: WorkFields, now: u64, r: Result<WorkId, String>)
    requires
        upsert_post(g, h, id_in, f, now, r),
        keyed(g.nodes),
    ensures
        r matches Ok(w) ==> h.nodes.contains_key(w) && {
            let old_kind = if g.nodes.contains_key(w) { g.nodes[w].kind } else { f.kind };
            let old_role = if g.nodes.contains_key(w) { g.nodes[w].role } else { f.role };
            let old_parent = if g.nodes.contains_key(w) { g.nodes[w].parent } else { f.parent };
            let deps = if g.nodes.contains_key(w) { g.nodes[w].deps } else { Seq::<WorkId>::empty() };
            let all_done = others_done(g.nodes, deps, w);
            &&& h.nodes[w].kind == (if f.kind != crate::work::WorkKind::Unset { f.kind } else { old_kind })
            &&& h.nodes[w].role == (if f.role != crate::work::WorkRole::Unset { f.role } else { old_role })
            &&& h.nodes[w].parent == (if !f.parent.nil() { f.parent } else { old_parent })
            &&& h.nodes[w].deps == deps
            &&& h.nodes[w].id == w
            &&& (all_done ==> h.nodes[w].status == WorkStatus::Ready)
            &&& (!all_done ==> h.nodes[w].status == (if f.status == WorkStatus::Blocked { WorkStatus::Blocked } else { WorkStatus::Todo }))
        },
{
    let g1 = if id_in.nil() { GraphView { mint_seq: bump(g.mint_seq), ..g } } else { g };
    let id = if id_in.nil() { crate::graph::minted(g.mint_seq, f.kind, f.parent, f.summary@, now) } else { id_in };
    let n0 = if g1.nodes.contains_key(id) { g1.nodes[id] } else { fresh_node(id, f, now) };
    assert(g1.nodes == g.nodes);
    if r is Ok {
        lemma_upsert_summary(g, h, id_in, f, now, r);
        let n1 = upserted(n0, f, now);
        let g2 = put(g1, n1);
        let g3 = logged(with_recomputed(g2, id, now), id, f.actor, "upsert", now);
        assert(n0.id == id) by {
            if g.nodes.contains_key(id) {
                assert(g.nodes[id].id == id);
            }
        }
        assert(g2.nodes.contains_key(id));
        let n3 = recomputed(g2.nodes, n1, now);
        assert(g3.nodes == g2.nodes.insert(id, n3));
        assert(r == Ok::<WorkId, String>(id));
        assert(h.nodes[id] == n3);
        assert(n3.kind == n1.kind && n3.role == n1.role && n3.parent == n1.parent && n3.deps == n1.deps && n3.id == id);
        assert(f.status == WorkStatus::Todo || f.status == WorkStatus::Ready || f.status == WorkStatus::Blocked);
        let deps = if g.nodes.contains_key(id) { g.nodes[id].deps } else { Seq::<WorkId>::empty() };
        assert(n1.deps == deps);
        let all_done = others_done(g.nodes, deps, id);
        assert(all_done == deps_done(g2.nodes, n1)) by {
            if all_done {
                assert forall|i: int| 0 <= i < n1.deps.len() implies g2.nodes.contains_key(#[trigger] n1.deps[i])
                    && g2.nodes[n1.deps[i]].status == WorkStatus::Done by {
                    assert(deps[i] != id);
                }
            }
            if deps_done(g2.nodes, n1) {
                assert forall|i: int| 0 <= i < deps.len() implies #[trigger] deps[i] != id && g.nodes.contains_key(deps[i])
                    && g.nodes[deps[i]].status == WorkStatus::Done by {
                    assert(g2.nodes.contains_key(n1.deps[i]) && g2.nodes[n1.deps[i]].status == WorkStatus::Done);
                    if deps[i] == id {
                        assert(g2.nodes[id] == n1);
                    }
                }
            }
        }
        assert(all_done ==> n3.status == WorkStatus::Ready);
        assert(!all_done ==> n3.status == (if f.status == WorkStatus::Blocked { WorkStatus::Blocked } else { WorkStatus::Todo }));
        assert(n3.kind == (if f.kind != crate::work::WorkKind::Unset { f.kind } else { if g.nodes.contains_key(id) { g.nodes[id].kind } else { f.kind } }));
        assert(n3.role == (if f.role != crate::work::WorkRole::Unset { f.role } else { if g.nodes.contains_key(id) { g.nodes[id].role } else { f.role } }));
        assert(n3.parent == (if !f.parent.nil() { f.parent } else { if g.nodes.contains_key(id) { g.nodes[id].parent } else { f.parent } }));
    }
}

/// Completing a node changes no node that does not wait on it, the node
/// itself aside.
pub proof fn lemma_complete_leaves_the_rest(
    g: GraphView,
    h: GraphView,
    id: WorkId,
    status: WorkStatus,
    summary: Seq<char>,
    actor: WorkId,
    expected_gen: Option<u64>,
    now: u64,
    r: Result<(), String>,
    k: WorkId,
)
    requires
        complete_post(g, h, id, status, summary, actor, expected_gen, now, r),
        keyed(g.nodes),
        k != id,
        g.nodes.contains_key(k),
        !g.nodes[k].deps.contains(id),
    ensures
        h.nodes.contains_key(k),
        h.nodes[k] == g.nodes[k],
{
    if h != g && g.nodes.contains_key(id) && r is Ok && status.terminal() && !g.nodes[id].status.terminal() {
        let m = g.nodes;
        let n = m[id];
        let n2 = NodeView {
            status,
            summary: if summary.len() > 0 { summary } else { n.summary },
            finished_unix: now,
            updated_unix: now,
            ..n
        };
        let m1 = m.insert(id, n2);
        assert(h.nodes == promoted(m1, id, now));
        assert(m1[k] == m[k]);
    }
}

/// A completion goes through only for a terminal status, on a present
/// node, at the generation it names if it names one, and by its holder or
/// on an unheld node. A node that was not finished then carries the given
/// status, is stamped finished now, keeps its stored summary when the given
/// one is empty and takes the given one otherwise, and keeps its
/// dependencies, parent and holder.
pub proof fn lemma_complete_outcome(
    g: GraphView,
    h: GraphView,
    id: WorkId,
    status: WorkStatus,
    summary: Seq<char>,
    actor: WorkId,
    expected_gen: Option<u64>,
    now: u64,
    r: Result<(), String>,
)
    requires
        complete_post(g, h, id, status, summary, actor, expected_gen, now, r),
        keyed(g.nodes),
    ensures
        r is Ok ==> status.terminal() && !id.nil() && g.nodes.contains_key(id),
        r is Ok ==> (expected_gen matches Some(x) ==> g.nodes[id].cas_gen == x),
        r is Ok ==> !g.nodes[id].assignee.nil() && !actor.nil() ==> g.nodes[id].assignee == actor,
        r is Ok && !g.nodes[id].status.terminal() ==> {
            &&& h.nodes.contains_key(id)
            &&& h.nodes[id].status == status
            &&& h.nodes[id].finished_unix == now
            &&& h.nodes[id].summary == (if summary.len() > 0 { summary } else { g.nodes[id].summary })
            &&& h.nodes[id].deps == g.nodes[id].deps
            &&& h.nodes[id].parent == g.nodes[id].parent
            &&& h.nodes[id].assignee == g.nodes[id].assignee
        },
        r is Err ==> h == g,
{
    if r is Ok && status.terminal() && !id.nil() && g.nodes.contains_key(id) && !g.nodes[id].status.terminal() {
        let n = g.nodes[id];
        let n2 = NodeView {
            status,
            summary: if summary.len() > 0 { summary } else { n.summary },
            finished_unix: now,
            updated_unix: now,
            ..n
        };
        assert(n.id == id);
        let m1 = g.nodes.insert(id, n2);
        assert(m1[id] == n2);
        assert(recomputed(m1, n2, now) == n2);
    }
}

/// Loading a list of nodes with distinct ids keeps each under its id.
proof fn lemma_last_wins_distinct(ns: Seq<NodeView>)
    requires
        forall|i: int, j: int| 0 <= i < j < ns.len() ==> (#[trigger] ns[i]).id != (#[trigger] ns[j]).id,
    ensures
        forall|k: WorkId| #[trigger] last_wins(ns).contains_key(k) <==> exists|i: int| 0 <= i < ns.len() && ns[i].id == k,
        forall|i: int| 0 <= i < ns.len() ==> last_wins(ns)[(#[trigger] ns[i]).id] == ns[i],
    decreases ns.len(),
{
    if ns.len() > 0 {
        let q = ns.drop_last();
        lemma_last_wins_distinct(q);
        assert(last_wins(ns) == last_wins(q).insert(ns.last().id, ns.last()));
        assert forall|k: WorkId| #[trigger] last_wins(ns).contains_key(k) <==> exists|i: int| 0 <= i < ns.len() && ns[i].id == k by {
            if last_wins(ns).contains_key(k) {
                if k != ns.last().id {
                    assert(last_wins(q).contains_key(k));
                    let i = choose|i: int| 0 <= i < q.len() && q[i].id == k;
                    assert(q[i] == ns[i]);
                } else {
                    assert(ns[ns.len() - 1].id == k);
                }
            }
            if exists|i: int| 0 <= i < ns.len() && ns[i].id == k {
                let i = choose|i: int| 0 <= i < ns.len() && ns[i].id == k;
                if i < ns.len() - 1 {
                    assert(q[i].id == k);
                }
            }
        }
        assert forall|i: int| 0 <= i < ns.len() implies last_wins(ns)[(#[trigger] ns[i]).id] == ns[i] by {
            if i < ns.len() - 1 {
                assert(q[i] == ns[i]);
                assert(ns[i].id != ns[ns.len() - 1].id);
            }
        }
    }
}

/// Loading what was saved gives back the graph: the same nodes and
/// counters, with the ledger left behind.
pub proof fn lemma_save_then_load(g: GraphView, ns: Seq<NodeView>, h: GraphView)
    requires
        in_list_order(g.nodes, ns),
        snapshot_fits(FORMAT_V1@, ns),
        loads_from(snapshot_bytes(FORMAT_V1@, g.next_seq, g.mint_seq, ns), h),
    ensures
        h.nodes == g.nodes,
        h.next_seq == g.next_seq,
        h.mint_seq == g.mint_seq,
        h.ledger.len() == 0,
{
    let b = snapshot_bytes(FORMAT_V1@, g.next_seq, g.mint_seq, ns);
    let (f, a, c, ns2) = choose|f: Seq<char>, a: u64, c: u64, ns2: Seq<NodeView>|
        snapshot_fits(f, ns2) && b == #[trigger] snapshot_bytes(f, a, c, ns2) && h == crate::graph::loaded(a, c, ns2);
    lemma_snapshot_unique(FORMAT_V1@, g.next_seq, g.mint_seq, ns, f, a, c, ns2);
    assert forall|i: int, j: int| 0 <= i < j < ns.len() implies (#[trigger] ns[i]).id != (#[trigger] ns[j]).id by {
        assert(newer(ns[i], ns[j]));
    }
    lemma_last_wins_distinct(ns);
    assert(h.nodes =~= g.nodes) by {
        assert forall|k: WorkId| #[trigger] h.nodes.contains_key(k) <==> g.nodes.contains_key(k) by {
            if g.nodes.contains_key(k) {
                let i = choose|i: int| 0 <= i < ns.len() && (#[trigger] ns[i]).id == k;
            }
            if h.nodes.contains_key(k) {
                let i = choose|i: int| 0 <= i < ns.len() && ns[i].id == k;
                assert(g.nodes.contains_key(ns[i].id));
            }
        }
        assert forall|k: WorkId| #[trigger] h.nodes.contains_key(k) implies h.nodes[k] == g.nodes[k] by {
            let i = choose|i: int| 0 <= i < ns.len() && ns[i].id == k;
            assert(g.nodes.contains_key(ns[i].id));
        }
    }
}

} // verus!
