//! Claim/complete DAG. The host process is the sole mutator.
//!
//! Every operation that changes the graph has two forms: one that reads the
//! clock, and one (`*_at`) that is handed the time. The contracts live on the
//! second; the first promises that some clock reading makes them true.

use vstd::prelude::*;
use std::collections::VecDeque;
use crate::id::WorkId;
use crate::model::{id_seq, lemma_dom_len, acyclic, is_path, lemma_reaches_refl, lemma_reaches_step, lemma_reaches_trans, reaches, step, lemma_recomputed_done, lemma_same_done_deps, promoted, same_done, bump, deps_done, fails_with, holds_id, ids_distinct, lemma_map_absent, lemma_map_at, lemma_map_key, lemma_map_push, lemma_map_remove, lemma_map_update, lemma_views_push, lemma_views_remove, lemma_views_update, logged, node_map, recomputed, views, with_recomputed, GraphView, MAX_LEDGER, MAX_WORK_NODES};
use crate::sort::{keyed_lt, keyed_sorted, sort_keyed, Keyed};
use crate::text::{push_chars, push_str};
use crate::snap::{decode_snapshot, encode_snapshot, not_a_snapshot, ref_views, snapshot_bytes, snapshot_fits, all_fit, node_fits, text_fits, Snapshot, SNAP_BIN};
use crate::depth::{depth_of, depths_of, DepthMap};
use crate::work::{NodeView, WorkFields, WorkKind, WorkLedgerEntry, WorkNode, WorkRole, WorkStatus};
use crate::id::{le_bytes, mint_of, mint_parts, mint_work_id, u64_le};

verus! {

/// How long a claim stands before anybody may take it back, in seconds.
pub const DEFAULT_LEASE_SECS: u64 = 900;

/// The snapshot's file name inside the graph directory.
pub const SNAP_FILE: &'static str = "work.bin";

/// Snapshot format written by this crate.
pub const FORMAT_V1: &'static str = "claimdag/v1";

pub struct WorkGraph {
    nodes: Vec<WorkNode>,
    ledger: VecDeque<WorkLedgerEntry>,
    next_seq: u64,
    mint_seq: u64,
}

impl View for WorkGraph {
    type V = GraphView;

    closed spec fn view(&self) -> GraphView {
        GraphView {
            nodes: node_map(views(self.nodes@)),
            ledger: self.ledger@,
            next_seq: self.next_seq,
            mint_seq: self.mint_seq,
        }
    }
}

/// Ids in strictly increasing order.
pub open spec fn ids_sorted(ids: Seq<WorkId>) -> bool {
    forall|i: int, j: int| 0 <= i < j < ids.len() ==> (#[trigger] ids[i]).lt(#[trigger] ids[j])
}

/// The hex of each id, separated by single spaces.
pub open spec fn join_hex(ids: Seq<WorkId>) -> Seq<char>
    decreases ids.len(),
{
    if ids.len() == 0 {
        Seq::empty()
    } else if ids.len() == 1 {
        ids[0].hex()
    } else {
        join_hex(ids.drop_last()) + " "@ + ids.last().hex()
    }
}

/// Node `k` is held by `assignee` and is not node `id`.
pub open spec fn holds_other(g: GraphView, id: WorkId, assignee: WorkId, k: WorkId) -> bool {
    &&& k != id
    &&& g.nodes.contains_key(k)
    &&& g.nodes[k].assignee == assignee
    &&& g.nodes[k].status.live()
}

/// The refusal `claim` gives a busy assignee: every other node it holds,
/// in id order.
pub open spec fn busy_message(g: GraphView, id: WorkId, assignee: WorkId, m: Seq<char>) -> bool {
    exists|ids: Seq<WorkId>|
        #![trigger join_hex(ids)]
        ids_sorted(ids) && (forall|k: WorkId| ids.contains(k) <==> holds_other(g, id, assignee, k))
            && m == "claim: assignee busy "@ + join_hex(ids)
}

/// What `claim` does at time `now`.
pub open spec fn claim_post(
    g: GraphView,
    h: GraphView,
    id: WorkId,
    assignee: WorkId,
    expected_gen: Option<u64>,
    now: u64,
    r: Result<u64, String>,
) -> bool {
    if id.nil() {
        fails_with(r, "claim: zero id"@) && h == g
    } else if assignee.nil() {
        fails_with(r, "claim: zero assignee"@) && h == g
    } else if !g.nodes.contains_key(id) {
        fails_with(r, "claim: not found"@) && h == g
    } else if expected_gen matches Some(x) && g.nodes[id].cas_gen != x {
        fails_with(r, "claim: gen mismatch"@) && h == g
    } else if !g.nodes[id].status.open() {
        fails_with(r, "claim: status "@ + g.nodes[id].status.name()) && h == g
    } else if !deps_done(g.nodes, g.nodes[id]) {
        fails_with(r, "claim: deps unsatisfied"@) && h == g
    } else if exists|k: WorkId| holds_other(g, id, assignee, k) {
        (r matches Err(e) && busy_message(g, id, assignee, e@)) && h == g
    } else {
        let n = g.nodes[id];
        let n2 = NodeView {
            status: WorkStatus::Claimed,
            assignee,
            cas_gen: bump(n.cas_gen),
            updated_unix: now,
            ..n
        };
        &&& r == Ok::<u64, String>(n2.cas_gen)
        &&& h == logged(GraphView { nodes: g.nodes.insert(id, n2), ..g }, id, assignee, "claim", now)
    }
}

/// Somebody other than the holder speaks for a held node. A zero on either
/// side is the command line's escape.
pub open spec fn stranger(n: NodeView, actor: WorkId) -> bool {
    !n.assignee.nil() && !actor.nil() && n.assignee != actor
}

/// The graph with one node replaced.
pub open spec fn put(g: GraphView, n: NodeView) -> GraphView {
    GraphView { nodes: g.nodes.insert(n.id, n), ..g }
}

/// A node handed back: ready, unheld, generation moved.
pub open spec fn handed_back(n: NodeView, now: u64) -> NodeView {
    NodeView {
        status: WorkStatus::Ready,
        assignee: WorkId { hi: 0, lo: 0 },
        cas_gen: bump(n.cas_gen),
        updated_unix: now,
        ..n
    }
}

/// What `release` does at time `now`.
pub open spec fn release_post(g: GraphView, h: GraphView, id: WorkId, actor: WorkId, now: u64, r: Result<u64, String>) -> bool {
    if !g.nodes.contains_key(id) {
        fails_with(r, "release: not found"@) && h == g
    } else if !g.nodes[id].status.live() {
        fails_with(r, "release: status "@ + g.nodes[id].status.name()) && h == g
    } else if stranger(g.nodes[id], actor) {
        fails_with(r, "release: not assignee"@) && h == g
    } else {
        let n2 = handed_back(g.nodes[id], now);
        &&& r == Ok::<u64, String>(n2.cas_gen)
        &&& h == logged(put(g, n2), id, g.nodes[id].assignee, "release", now)
    }
}

/// What `reopen` does at time `now`.
pub open spec fn reopen_post(g: GraphView, h: GraphView, id: WorkId, actor: WorkId, now: u64, r: Result<u64, String>) -> bool {
    if !g.nodes.contains_key(id) {
        fails_with(r, "reopen: not found"@) && h == g
    } else if !g.nodes[id].status.terminal() {
        fails_with(r, "reopen: status "@ + g.nodes[id].status.name() + " is not terminal"@) && h == g
    } else {
        let n2 = NodeView { archived: false, ..handed_back(g.nodes[id], now) };
        &&& r == Ok::<u64, String>(n2.cas_gen)
        &&& h == logged(put(g, n2), id, actor, "reopen", now)
    }
}

/// What `renew` does at time `now`.
pub open spec fn renew_post(g: GraphView, h: GraphView, id: WorkId, actor: WorkId, now: u64, r: Result<u64, String>) -> bool {
    if !g.nodes.contains_key(id) {
        fails_with(r, "renew: not found"@) && h == g
    } else if !g.nodes[id].status.live() {
        fails_with(r, "renew: status "@ + g.nodes[id].status.name()) && h == g
    } else if stranger(g.nodes[id], actor) {
        fails_with(r, "renew: not assignee"@) && h == g
    } else {
        &&& r == Ok::<u64, String>(g.nodes[id].cas_gen)
        &&& h == put(g, NodeView { updated_unix: now, ..g.nodes[id] })
    }
}

/// What `set_running` does at time `now`.
pub open spec fn running_post(g: GraphView, h: GraphView, id: WorkId, actor: WorkId, now: u64, r: Result<(), String>) -> bool {
    if !g.nodes.contains_key(id) {
        fails_with(r, "running: not found"@) && h == g
    } else if !g.nodes[id].status.live() {
        fails_with(r, "running: status "@ + g.nodes[id].status.name()) && h == g
    } else if stranger(g.nodes[id], actor) {
        fails_with(r, "running: not assignee"@) && h == g
    } else {
        &&& r is Ok
        &&& h == logged(put(g, NodeView { status: WorkStatus::Running, updated_unix: now, ..g.nodes[id] }), id, actor, "running", now)
    }
}

/// What `archive` does at time `now`.
pub open spec fn archive_post(g: GraphView, h: GraphView, id: WorkId, actor: WorkId, now: u64, r: Result<(), String>) -> bool {
    if id.nil() {
        fails_with(r, "archive: zero id"@) && h == g
    } else if !g.nodes.contains_key(id) {
        fails_with(r, "archive: not found"@) && h == g
    } else if !g.nodes[id].status.terminal() {
        fails_with(r, "archive: not terminal"@) && h == g
    } else if g.nodes[id].archived {
        r is Ok && h == g
    } else {
        let n = g.nodes[id];
        &&& r is Ok
        &&& h == logged(put(g, NodeView { archived: true, updated_unix: now, cas_gen: bump(n.cas_gen), ..n }), id, actor, "archive", now)
    }
}

/// What `unarchive` does at time `now`.
pub open spec fn unarchive_post(g: GraphView, h: GraphView, id: WorkId, actor: WorkId, now: u64, r: Result<(), String>) -> bool {
    if id.nil() {
        fails_with(r, "unarchive: zero id"@) && h == g
    } else if !g.nodes.contains_key(id) {
        fails_with(r, "unarchive: not found"@) && h == g
    } else if !g.nodes[id].archived {
        r is Ok && h == g
    } else {
        let n = g.nodes[id];
        &&& r is Ok
        &&& h == logged(put(g, NodeView { archived: false, updated_unix: now, cas_gen: bump(n.cas_gen), ..n }), id, actor, "unarchive", now)
    }
}

/// What `complete` does at time `now`.
pub open spec fn complete_post(
    g: GraphView,
    h: GraphView,
    id: WorkId,
    status: WorkStatus,
    summary: Seq<char>,
    actor: WorkId,
    expected_gen: Option<u64>,
    now: u64,
    r: Result<(), String>,
) -> bool {
    if !status.terminal() {
        fails_with(r, "complete: status not terminal"@) && h == g
    } else if id.nil() {
        fails_with(r, "complete: zero id"@) && h == g
    } else if !g.nodes.contains_key(id) {
        fails_with(r, "complete: not found"@) && h == g
    } else if expected_gen matches Some(x) && g.nodes[id].cas_gen != x {
        fails_with(r, "complete: gen mismatch"@) && h == g
    } else if stranger(g.nodes[id], actor) {
        fails_with(r, "complete: not assignee"@) && h == g
    } else if g.nodes[id].status.terminal() {
        &&& r is Ok
        &&& h == if summary.len() > 0 {
            put(g, NodeView { summary, ..g.nodes[id] })
        } else {
            g
        }
    } else {
        let n = g.nodes[id];
        let n2 = NodeView {
            status,
            summary: if summary.len() > 0 { summary } else { n.summary },
            finished_unix: now,
            updated_unix: now,
            ..n
        };
        let g1 = logged(put(g, n2), id, actor, "complete", now);
        &&& r is Ok
        &&& h == GraphView { nodes: promoted(g1.nodes, id, now), ..g1 }
    }
}

/// Some start arrives at `target` along dependency edges.
pub open spec fn some_reaches(m: Map<WorkId, NodeView>, start: Seq<WorkId>, target: WorkId) -> bool {
    exists|k: int| 0 <= k < start.len() && reaches(m, #[trigger] start[k], target)
}

/// During a search: `x` is waiting, was expanded, or is a dead end that is
/// not the target.
pub open spec fn covered(
    m: Map<WorkId, NodeView>,
    stack: Seq<WorkId>,
    seen: Set<WorkId>,
    target: WorkId,
    x: WorkId,
) -> bool {
    stack.contains(x) || seen.contains(x) || (!m.contains_key(x) && x != target)
}

/// What a dependency search keeps true: everything waiting or expanded is
/// reachable from a start, nothing expanded is the target, and every start
/// and every dependency of an expanded node is covered.
pub open spec fn search_inv(
    m: Map<WorkId, NodeView>,
    start: Seq<WorkId>,
    target: WorkId,
    stack: Seq<WorkId>,
    seen: Set<WorkId>,
) -> bool {
    &&& forall|k: int| 0 <= k < stack.len() ==> some_reaches(m, start, #[trigger] stack[k])
    &&& forall|x: WorkId| #[trigger] seen.contains(x) ==> m.contains_key(x) && x != target && some_reaches(m, start, x)
    &&& forall|x: WorkId, d: WorkId| #[trigger] step(m, x, d) && seen.contains(x) ==> covered(m, stack, seen, target, d)
    &&& forall|k: int| 0 <= k < start.len() ==> covered(m, stack, seen, target, #[trigger] start[k])
}

proof fn lemma_search_start(m: Map<WorkId, NodeView>, start: Seq<WorkId>, target: WorkId)
    ensures
        search_inv(m, start, target, start, Set::empty()),
{
    assert forall|k: int| 0 <= k < start.len() implies some_reaches(m, start, #[trigger] start[k]) by {
        lemma_reaches_refl(m, start[k]);
    }
    assert forall|k: int| 0 <= k < start.len() implies covered(m, start, Set::empty(), target, #[trigger] start[k]) by {
        assert(start.contains(start[k]));
    }
}

proof fn lemma_search_none(m: Map<WorkId, NodeView>, start: Seq<WorkId>, target: WorkId, seen: Set<WorkId>)
    requires
        search_inv(m, start, target, Seq::empty(), seen),
    ensures
        !some_reaches(m, start, target),
{
    if some_reaches(m, start, target) {
        let k = choose|k: int| 0 <= k < start.len() && reaches(m, #[trigger] start[k], target);
        let p = choose|p: Seq<WorkId>| #[trigger] is_path(m, p) && p[0] == start[k] && p.last() == target;
        assert(covered(m, Seq::empty(), seen, target, start[k]));
        lemma_covered_path(m, seen, target, p, p.len() - 1);
    }
}

proof fn lemma_search_expand(
    m: Map<WorkId, NodeView>,
    start: Seq<WorkId>,
    target: WorkId,
    s0: Seq<WorkId>,
    seen: Set<WorkId>,
    s1: Seq<WorkId>,
    id: WorkId,
)
    requires
        search_inv(m, start, target, s0, seen),
        s0.len() > 0,
        s0.last() == id,
        id != target,
        m.contains_key(id),
        s1 == s0.drop_last() + m[id].deps,
    ensures
        search_inv(m, start, target, s1, seen.insert(id)),
{
    let seen1 = seen.insert(id);
    assert(s0[s0.len() - 1] == id);
    let kk = choose|kk: int| 0 <= kk < start.len() && reaches(m, #[trigger] start[kk], id);
    assert forall|k: int| 0 <= k < s1.len() implies some_reaches(m, start, #[trigger] s1[k]) by {
        if k < s0.len() - 1 {
            assert(s1[k] == s0[k]);
        } else {
            let d = s1[k];
            assert(d == m[id].deps[k - (s0.len() - 1)]);
            assert(step(m, id, d));
            lemma_reaches_step(m, start[kk], id, d);
        }
    }
    assert forall|x: WorkId| s0.contains(x) implies x == id || s1.contains(x) by {
        let k = choose|k: int| 0 <= k < s0.len() && s0[k] == x;
        if k < s0.len() - 1 {
            assert(s1[k] == x);
        }
    }
    assert forall|x: WorkId, d: WorkId| #[trigger] step(m, x, d) && seen1.contains(x) implies covered(m, s1, seen1, target, d) by {
        if x == id {
            let q = choose|q: int| 0 <= q < m[id].deps.len() && m[id].deps[q] == d;
            assert(s1[s0.len() - 1 + q] == d);
        } else {
            assert(covered(m, s0, seen, target, d));
        }
    }
    assert forall|k: int| 0 <= k < start.len() implies covered(m, s1, seen1, target, #[trigger] start[k]) by {
        assert(covered(m, s0, seen, target, start[k]));
    }
}

proof fn lemma_search_skip(
    m: Map<WorkId, NodeView>,
    start: Seq<WorkId>,
    target: WorkId,
    s0: Seq<WorkId>,
    seen: Set<WorkId>,
    s1: Seq<WorkId>,
    id: WorkId,
)
    requires
        search_inv(m, start, target, s0, seen),
        s0.len() > 0,
        s0.last() == id,
        s1 == s0.drop_last(),
        seen.contains(id) || (!m.contains_key(id) && id != target),
    ensures
        search_inv(m, start, target, s1, seen),
{
    assert forall|k: int| 0 <= k < s1.len() implies some_reaches(m, start, #[trigger] s1[k]) by {
        assert(s1[k] == s0[k]);
    }
    assert forall|x: WorkId| s0.contains(x) implies x == id || s1.contains(x) by {
        let k = choose|k: int| 0 <= k < s0.len() && s0[k] == x;
        if k < s0.len() - 1 {
            assert(s1[k] == x);
        }
    }
    assert forall|x: WorkId, d: WorkId| #[trigger] step(m, x, d) && seen.contains(x) implies covered(m, s1, seen, target, d) by {
        assert(covered(m, s0, seen, target, d));
    }
    assert forall|k: int| 0 <= k < start.len() implies covered(m, s1, seen, target, #[trigger] start[k]) by {
        assert(covered(m, s0, seen, target, start[k]));
    }
}

/// Along a path from a covered node, with nothing waiting and the expanded
/// set closed, every node is covered.
proof fn lemma_covered_path(
    m: Map<WorkId, NodeView>,
    seen: Set<WorkId>,
    target: WorkId,
    p: Seq<WorkId>,
    k: int,
)
    requires
        is_path(m, p),
        0 <= k < p.len(),
        covered(m, Seq::empty(), seen, target, p[0]),
        forall|x: WorkId, d: WorkId| seen.contains(x) && #[trigger] step(m, x, d) ==> covered(m, Seq::empty(), seen, target, d),
    ensures
        covered(m, Seq::empty(), seen, target, p[k]),
    decreases k,
{
    if k > 0 {
        lemma_covered_path(m, seen, target, p, k - 1);
        assert(step(m, p[k - 1], p[k]));
    }
}

/// The ids with every copy of `x` removed.
pub open spec fn without(s: Seq<WorkId>, x: WorkId) -> Seq<WorkId>
    decreases s.len(),
{
    if s.len() == 0 {
        s
    } else if s.last() == x {
        without(s.drop_last(), x)
    } else {
        without(s.drop_last(), x).push(s.last())
    }
}

/// What `link_dep` does at time `now`.
pub open spec fn link_post(g: GraphView, h: GraphView, parent: WorkId, child: WorkId, actor: WorkId, now: u64, r: Result<(), String>) -> bool {
    if parent.nil() || child.nil() {
        fails_with(r, "link: zero id"@) && h == g
    } else if parent == child {
        fails_with(r, "link: self-dep"@) && h == g
    } else if !g.nodes.contains_key(parent) {
        fails_with(r, "link: parent missing"@) && h == g
    } else if !g.nodes.contains_key(child) {
        fails_with(r, "link: child missing"@) && h == g
    } else if reaches(g.nodes, parent, child) {
        fails_with(r, "link: would create cycle"@) && h == g
    } else {
        let n = g.nodes[child];
        let n1 = if n.deps.contains(parent) {
            n
        } else {
            NodeView { deps: n.deps.push(parent), updated_unix: now, ..n }
        };
        &&& r is Ok
        &&& h == logged(with_recomputed(put(g, n1), child, now), child, actor, "link", now)
    }
}

/// What `unlink_dep` does at time `now`.
pub open spec fn unlink_post(g: GraphView, h: GraphView, parent: WorkId, child: WorkId, actor: WorkId, now: u64, r: Result<(), String>) -> bool {
    if parent.nil() || child.nil() {
        fails_with(r, "unlink: zero id"@) && h == g
    } else if !g.nodes.contains_key(child) {
        fails_with(r, "unlink: child missing"@) && h == g
    } else {
        let n = g.nodes[child];
        let kept = without(n.deps, parent);
        let n1 = if kept.len() != n.deps.len() {
            NodeView { deps: kept, updated_unix: now, ..n }
        } else {
            n
        };
        &&& r is Ok
        &&& h == logged(with_recomputed(put(g, n1), child, now), child, actor, "unlink", now)
    }
}

/// Removing nothing leaves the ids alone.
proof fn lemma_without_len(s: Seq<WorkId>, x: WorkId)
    ensures
        without(s, x).len() <= s.len(),
        without(s, x).len() == s.len() ==> without(s, x) == s,
    decreases s.len(),
{
    if s.len() > 0 {
        lemma_without_len(s.drop_last(), x);
        if without(s, x).len() == s.len() {
            assert(s.last() != x);
            assert(s.drop_last().push(s.last()) =~= s);
        }
    }
}

/// A held node quiet for at least `lease` seconds at `now`.
pub open spec fn stale(g: GraphView, k: WorkId, lease: u64, now: u64) -> bool {
    &&& g.nodes.contains_key(k)
    &&& g.nodes[k].status.live()
    &&& (if now >= g.nodes[k].updated_unix { now - g.nodes[k].updated_unix } else { 0 }) >= lease
}

/// Oldest first by last touch, then by id.
pub open spec fn touched_before(g: GraphView, a: WorkId, b: WorkId) -> bool {
    g.nodes[a].updated_unix < g.nodes[b].updated_unix || (g.nodes[a].updated_unix == g.nodes[b].updated_unix && a.lt(b))
}

/// The graph after handing back each of `ids` in turn.
pub open spec fn reclaimed(g: GraphView, ids: Seq<WorkId>, now: u64) -> GraphView
    decreases ids.len(),
{
    if ids.len() == 0 {
        g
    } else {
        let g1 = reclaimed(g, ids.drop_last(), now);
        let id = ids.last();
        logged(put(g1, handed_back(g.nodes[id], now)), id, g.nodes[id].assignee, "reclaim", now)
    }
}

/// What `reclaim` does at time `now`: every stale claim, oldest first, is
/// handed back.
pub open spec fn reclaim_post(g: GraphView, h: GraphView, lease: u64, now: u64, r: Seq<WorkId>) -> bool {
    &&& forall|i: int, j: int| 0 <= i < j < r.len() ==> touched_before(g, #[trigger] r[i], #[trigger] r[j])
    &&& forall|k: WorkId| r.contains(k) <==> stale(g, k, lease, now)
    &&& h == reclaimed(g, r, now)
}

/// One step up the parent chain: from a present, nonzero node to its parent.
pub open spec fn up(m: Map<WorkId, NodeView>, o: Option<WorkId>) -> Option<WorkId> {
    match o {
        Some(y) => if !y.nil() && m.contains_key(y) {
            Some(m[y].parent)
        } else {
            None
        },
        None => None,
    }
}

/// Where `k` steps up the parent chain from `x` leads, while it leads anywhere.
pub open spec fn walk_up(m: Map<WorkId, NodeView>, x: WorkId, k: nat) -> Option<WorkId>
    decreases k,
{
    if k == 0 {
        Some(x)
    } else {
        up(m, walk_up(m, x, (k - 1) as nat))
    }
}

/// Walking up the parent chain from `from` meets `target`, a nonzero id.
pub open spec fn parent_reaches_spec(m: Map<WorkId, NodeView>, from: WorkId, target: WorkId) -> bool {
    !target.nil() && exists|k: nat| #[trigger] walk_up(m, from, k) == Some(target)
}

/// A chain that comes back to a place it has been repeats from there on.
proof fn lemma_walk_period(m: Map<WorkId, NodeView>, x: WorkId, j: nat, k: nat, t: nat)
    requires
        j < k,
        walk_up(m, x, j) == walk_up(m, x, k),
    ensures
        walk_up(m, x, k + t) == walk_up(m, x, j + t),
    decreases t,
{
    if t > 0 {
        lemma_walk_period(m, x, j, k, (t - 1) as nat);
        assert(walk_up(m, x, k + t) == up(m, walk_up(m, x, (k + t - 1) as nat)));
        assert(walk_up(m, x, j + t) == up(m, walk_up(m, x, (j + t - 1) as nat)));
    }
}

/// After a repeat, nothing new is met.
proof fn lemma_walk_repeats(m: Map<WorkId, NodeView>, x: WorkId, j: nat, k: nat, t: nat)
    requires
        j < k,
        walk_up(m, x, j) == walk_up(m, x, k),
        t >= k,
    ensures
        exists|q: nat| q < k && walk_up(m, x, t) == #[trigger] walk_up(m, x, q),
    decreases t,
{
    let d = (k - j) as nat;
    let t2 = (t - d) as nat;
    lemma_walk_period(m, x, j, k, (t - k) as nat);
    assert(walk_up(m, x, t) == walk_up(m, x, t2));
    if t2 >= k {
        lemma_walk_repeats(m, x, j, k, t2);
    }
}

/// Once the chain stops, it stays stopped.
proof fn lemma_walk_stops(m: Map<WorkId, NodeView>, x: WorkId, k: nat, t: nat)
    requires
        walk_up(m, x, k) is None,
        t >= k,
    ensures
        walk_up(m, x, t) is None,
    decreases t,
{
    if t > k {
        lemma_walk_stops(m, x, k, (t - 1) as nat);
    }
}

/// The later of a node's finish and its last touch.
pub open spec fn age(n: NodeView) -> u64 {
    if n.finished_unix >= n.updated_unix {
        n.finished_unix
    } else {
        n.updated_unix
    }
}

/// Archived nodes go first.
pub open spec fn shelf(n: NodeView) -> u64 {
    if n.archived {
        0
    } else {
        1
    }
}

/// `a` is dropped no later than `b` when the graph is over its cap.
pub open spec fn prune_before(a: NodeView, b: NodeView) -> bool {
    shelf(a) < shelf(b) || (shelf(a) == shelf(b) && age(a) <= age(b))
}

/// The ids of the finished nodes.
pub open spec fn terminal_ids(m: Map<WorkId, NodeView>) -> Set<WorkId> {
    Set::new(|k: WorkId| m.contains_key(k) && m[k].status.terminal())
}

/// How many finished nodes a graph of this many nodes drops.
pub open spec fn overflow_drop(len: nat, terminal: nat) -> nat {
    if len <= MAX_WORK_NODES {
        0
    } else if len - MAX_WORK_NODES <= terminal {
        (len - MAX_WORK_NODES) as nat
    } else {
        terminal
    }
}

/// `h` is `g` with its overflow of finished nodes dropped: archived first,
/// then those finished longest ago.
pub open spec fn pruned_from(g: GraphView, h: GraphView) -> bool {
    &&& h.ledger == g.ledger
    &&& h.next_seq == g.next_seq
    &&& h.mint_seq == g.mint_seq
    &&& forall|k: WorkId| #[trigger] h.nodes.contains_key(k) ==> g.nodes.contains_key(k) && h.nodes[k] == g.nodes[k]
    &&& forall|k: WorkId| #[trigger] g.nodes.contains_key(k) && !h.nodes.contains_key(k) ==> g.nodes[k].status.terminal()
    &&& forall|r: WorkId, k: WorkId|
        #![trigger g.nodes.contains_key(r), h.nodes.contains_key(k)]
        g.nodes.contains_key(r) && !h.nodes.contains_key(r) && h.nodes.contains_key(k)
            && g.nodes[k].status.terminal() ==> prune_before(g.nodes[r], g.nodes[k])
    &&& (g.nodes.dom() - h.nodes.dom()).len() == overflow_drop(g.nodes.dom().len(), terminal_ids(g.nodes).len())
}

/// The ids at the marked positions.
pub open spec fn marked_ids(nodes: Seq<WorkNode>, marks: Seq<bool>) -> Set<WorkId> {
    Set::new(|k: WorkId| exists|i: int| 0 <= i < nodes.len() && marks[i] && (#[trigger] nodes[i]).id == k)
}

/// The role string a kind mints under.
pub open spec fn mint_role(kind: WorkKind) -> Seq<char> {
    match kind {
        WorkKind::Goal => "work-goal"@,
        WorkKind::Step => "work-step"@,
        WorkKind::Task => "work-task"@,
        WorkKind::Molecule => "work-molecule"@,
        WorkKind::Unset => "work"@,
    }
}

/// The id minted for a new node: the next mint sequence number, salted with
/// the time.
pub open spec fn minted(mint_seq: u64, kind: WorkKind, parent: WorkId, summary: Seq<char>, now: u64) -> WorkId {
    mint_of(mint_parts(parent, WorkId { hi: 0, lo: 0 }, mint_role(kind), summary, bump(mint_seq), le_bytes(now)))
}

/// A node as an upsert first creates it.
pub open spec fn fresh_node(id: WorkId, f: WorkFields, now: u64) -> NodeView {
    NodeView {
        id,
        kind: f.kind,
        status: WorkStatus::Todo,
        role: f.role,
        assignee: WorkId { hi: 0, lo: 0 },
        parent: f.parent,
        deps: Seq::empty(),
        cas_gen: 1,
        created_unix: now,
        updated_unix: now,
        finished_unix: 0,
        summary: Seq::empty(),
        archived: false,
    }
}

/// A node with an upsert's fields applied: unset fields keep what was there.
pub open spec fn upserted(n0: NodeView, f: WorkFields, now: u64) -> NodeView {
    NodeView {
        status: f.status,
        kind: if f.kind != WorkKind::Unset { f.kind } else { n0.kind },
        role: if f.role != WorkRole::Unset { f.role } else { n0.role },
        parent: if !f.parent.nil() { f.parent } else { n0.parent },
        summary: if f.summary@.len() > 0 { f.summary@ } else { n0.summary },
        updated_unix: now,
        ..n0
    }
}

/// What `upsert` does at time `now`.
pub open spec fn upsert_post(g: GraphView, h: GraphView, id_in: WorkId, f: WorkFields, now: u64, r: Result<WorkId, String>) -> bool {
    let g1 = if id_in.nil() { GraphView { mint_seq: bump(g.mint_seq), ..g } } else { g };
    let id = if id_in.nil() { minted(g.mint_seq, f.kind, f.parent, f.summary@, now) } else { id_in };
    let n0 = if g1.nodes.contains_key(id) { g1.nodes[id] } else { fresh_node(id, f, now) };
    let g2 = put(g1, n0);
    if !f.parent.nil() && (f.parent == id || parent_reaches_spec(g1.nodes, f.parent, id)) {
        fails_with(r, "upsert: parent cycle"@) && h == g1
    } else if n0.status.terminal() {
        fails_with(r, "upsert: node is terminal"@) && h == g2
    } else if n0.status.live() && f.status != n0.status {
        fails_with(r, "upsert: node is claimed; use completeWork"@) && h == g2
    } else if !(f.status == WorkStatus::Todo || f.status == WorkStatus::Ready || f.status == WorkStatus::Blocked) {
        fails_with(r, "upsert: status claim/run/terminal requires claimWork or completeWork"@) && h == g2
    } else {
        &&& r == Ok::<WorkId, String>(id)
        &&& pruned_from(logged(with_recomputed(put(g1, upserted(n0, f, now)), id, now), id, f.actor, "upsert", now), h)
    }
}

/// Whether a node shows in a list with these filters.
pub open spec fn listed(n: NodeView, show_terminal: bool, show_archived: bool) -> bool {
    if n.archived {
        show_archived
    } else if n.status.terminal() {
        show_terminal
    } else {
        true
    }
}

/// List order: most recently touched first, then by id.
pub open spec fn newer(a: NodeView, b: NodeView) -> bool {
    a.updated_unix > b.updated_unix || (a.updated_unix == b.updated_unix && a.id.lt(b.id))
}

/// `r` is exactly the nodes of `m` that pass `keep`, each once, ordered by `before`.
pub open spec fn lists<'a>(m: Map<WorkId, NodeView>, r: Seq<&'a WorkNode>, keep: spec_fn(NodeView) -> bool, before: spec_fn(NodeView, NodeView) -> bool) -> bool {
    &&& forall|i: int| 0 <= i < r.len() ==> m.contains_key((#[trigger] r[i]).id) && r[i]@ == m[r[i].id] && keep(r[i]@)
    &&& forall|k: WorkId| m.contains_key(k) && keep(m[k]) ==> exists|i: int| 0 <= i < r.len() && (#[trigger] r[i]).id == k
    &&& forall|i: int, j: int| 0 <= i < j < r.len() ==> before((#[trigger] r[i])@, (#[trigger] r[j])@)
}

/// A node the ready view offers: not archived, open to a claim, and every
/// dependency present and done.
pub open spec fn claimable(m: Map<WorkId, NodeView>, n: NodeView) -> bool {
    &&& !n.archived
    &&& n.status.open()
    &&& deps_done(m, n)
}

/// Ready order: deepest chain first, then most recently touched, then id.
pub open spec fn ready_before(d: Map<WorkId, u32>, a: NodeView, b: NodeView) -> bool {
    ||| d[a.id] > d[b.id]
    ||| d[a.id] == d[b.id] && newer(a, b)
}

/// `r` lists the claimable nodes of `m`, in ready order under depths `d`.
pub open spec fn ready_listing<'a>(m: Map<WorkId, NodeView>, d: Map<WorkId, u32>, r: Seq<&'a WorkNode>) -> bool {
    lists(m, r, |n: NodeView| claimable(m, n), |a: NodeView, b: NodeView| ready_before(d, a, b))
}

/// `ns` holds every node of `m` once, newest first.
pub open spec fn in_list_order(m: Map<WorkId, NodeView>, ns: Seq<NodeView>) -> bool {
    &&& forall|i: int| 0 <= i < ns.len() ==> m.contains_key((#[trigger] ns[i]).id) && m[ns[i].id] == ns[i]
    &&& forall|k: WorkId| m.contains_key(k) ==> exists|i: int| 0 <= i < ns.len() && (#[trigger] ns[i]).id == k
    &&& forall|i: int, j: int| 0 <= i < j < ns.len() ==> newer(#[trigger] ns[i], #[trigger] ns[j])
}

/// The nodes of a snapshot by id, a later node replacing an earlier one
/// with the same id.
pub open spec fn last_wins(ns: Seq<NodeView>) -> Map<WorkId, NodeView>
    decreases ns.len(),
{
    if ns.len() == 0 {
        Map::empty()
    } else {
        last_wins(ns.drop_last()).insert(ns.last().id, ns.last())
    }
}

/// The graph a snapshot loads as: its nodes and counters, an empty ledger.
pub open spec fn loaded(next_seq: u64, mint_seq: u64, ns: Seq<NodeView>) -> GraphView {
    GraphView { nodes: last_wins(ns), ledger: Seq::empty(), next_seq, mint_seq }
}

/// The graph with nothing in it.
pub open spec fn empty_graph() -> GraphView {
    GraphView { nodes: Map::empty(), ledger: Seq::empty(), next_seq: 0, mint_seq: 0 }
}

/// `b` is the snapshot of some graph, and `g` is what it loads as.
pub open spec fn loads_from(b: Seq<u8>, g: GraphView) -> bool {
    exists|f: Seq<char>, a: u64, c: u64, ns: Seq<NodeView>|
        snapshot_fits(f, ns) && b == #[trigger] snapshot_bytes(f, a, c, ns) && g == loaded(a, c, ns)
}

/// `b` is no snapshot at all.
pub open spec fn no_snapshot(b: Seq<u8>) -> bool {
    forall|f: Seq<char>, a: u64, c: u64, ns: Seq<NodeView>| snapshot_fits(f, ns) ==> b != #[trigger] snapshot_bytes(f, a, c, ns)
}

/// Why there is no graph to read in a directory.
pub enum Absent {
    /// No directory at all: this seat has never had a graph here.
    NoDirectory(String),
    /// A directory with no snapshot in it.
    NoSnapshot(String),
    /// A snapshot that could not be read, and the reason given.
    Unreadable(String, String),
}

/// What a reader is told about an absent graph.
pub open spec fn absent_message(a: Absent) -> Seq<char> {
    match a {
        Absent::NoDirectory(dir) => "no work graph at "@ + dir@
            + ": the directory does not exist, so nothing has been claimed on this seat. Set CLAIMDAG_DIR, pass --dir, or claim something to create it"@,
        Absent::NoSnapshot(dir) => "no work graph at "@ + dir@ + ": the directory holds no "@ + SNAP_BIN@ + ". Claim something to create it"@,
        Absent::Unreadable(dir, why) => "the work graph at "@ + dir@ + " could not be read: "@ + why@,
    }
}

impl Absent {
    /// The sentence a reader is shown.
    pub fn message(&self) -> (r: String)
        ensures
            r@ == absent_message(*self),
    {
        let mut r = String::new();
        match self {
            Absent::NoDirectory(dir) => {
                push_str(&mut r, "no work graph at ");
                push_str(&mut r, dir.as_str());
                push_str(&mut r, ": the directory does not exist, so nothing has been claimed on this seat. Set CLAIMDAG_DIR, pass --dir, or claim something to create it");
            },
            Absent::NoSnapshot(dir) => {
                push_str(&mut r, "no work graph at ");
                push_str(&mut r, dir.as_str());
                push_str(&mut r, ": the directory holds no ");
                push_str(&mut r, SNAP_BIN);
                push_str(&mut r, ". Claim something to create it");
            },
            Absent::Unreadable(dir, why) => {
                push_str(&mut r, "the work graph at ");
                push_str(&mut r, dir.as_str());
                push_str(&mut r, " could not be read: ");
                push_str(&mut r, why.as_str());
            },
        }
        proof {
            assert(r@ =~= absent_message(*self));
        }
        r
    }
}

/// What the graph check finds wrong with node `k`, as its message says.
pub open spec fn verify_fault(m: Map<WorkId, NodeView>, k: WorkId, msg: Seq<char>) -> bool {
    let n = m[k];
    ||| exists|d: WorkId| n.deps.contains(d) && !m.contains_key(d) && msg == "verify: "@ + k.hex() + " deps missing "@ + d.hex()
    ||| some_reaches(m, n.deps, k) && msg == "verify: cycle involving "@ + k.hex()
    ||| !n.parent.nil() && parent_reaches_spec(m, n.parent, k) && msg == "verify: parent cycle involving "@ + k.hex()
}

/// Node `k` passes the graph check.
pub open spec fn node_sound(m: Map<WorkId, NodeView>, k: WorkId) -> bool {
    let n = m[k];
    &&& forall|i: int| 0 <= i < n.deps.len() ==> m.contains_key(#[trigger] n.deps[i])
    &&& !some_reaches(m, n.deps, k)
    &&& n.parent.nil() || !parent_reaches_spec(m, n.parent, k)
}

impl Default for WorkGraph {
    fn default() -> (g: WorkGraph)
        ensures
            g.wf(),
            g@.nodes == Map::<WorkId, NodeView>::empty(),
            g@.ledger == Seq::<WorkLedgerEntry>::empty(),
            g@.next_seq == 0,
            g@.mint_seq == 0,
    {
        let g = WorkGraph { nodes: Vec::new(), ledger: VecDeque::new(), next_seq: 0, mint_seq: 0 };
        assert(g@.nodes =~= Map::<WorkId, NodeView>::empty());
        g
    }
}

impl WorkGraph {
    /// The graph's own invariant: no id twice, the ledger within its cap.
    pub closed spec fn wf(&self) -> bool {
        &&& ids_distinct(views(self.nodes@))
        &&& self.ledger@.len() <= MAX_LEDGER
    }

    /// Every key maps to a node carrying that id.
    pub proof fn lemma_keys(&self)
        requires
            self.wf(),
        ensures
            forall|k: WorkId| #[trigger] self@.nodes.contains_key(k) ==> self@.nodes[k].id == k,
    {
        assert forall|k: WorkId| #[trigger] self@.nodes.contains_key(k) implies self@.nodes[k].id == k by {
            lemma_map_key(views(self.nodes@), k);
        }
    }

    /// Seconds since the epoch by `std::time::SystemTime::now`, or zero when
    /// the clock is before it. Nothing is promised of the value: it is the
    /// machine's clock.
    #[verifier::external_body]
    pub fn now() -> u64 {
        std::time::SystemTime::now()
            .duration_since(std::time::UNIX_EPOCH)
            .map(|d| d.as_secs())
            .unwrap_or(0)
    }

    /// The audit ledger, oldest first.
    pub fn ledger(&self) -> (l: &VecDeque<WorkLedgerEntry>)
        ensures
            l@ == self@.ledger,
    {
        &self.ledger
    }

    /// Where the node with this id sits.
    fn find(&self, id: WorkId) -> (r: Option<usize>)
        requires
            self.wf(),
        ensures
            r matches Some(i) ==> i < self.nodes@.len() && self.nodes@[i as int].id == id
                && self@.nodes.contains_key(id) && self@.nodes[id] == self.nodes@[i as int]@,
            r is None ==> !self@.nodes.contains_key(id),
    {
        let mut i: usize = 0;
        while i < self.nodes.len()
            invariant
                self.wf(),
                i <= self.nodes@.len(),
                forall|k: int| 0 <= k < i ==> (#[trigger] self.nodes@[k]).id != id,
            decreases self.nodes@.len() - i,
        {
            if self.nodes[i].id == id {
                proof {
                    assert(views(self.nodes@)[i as int] == self.nodes@[i as int]@);
                    lemma_map_at(views(self.nodes@), i as int);
                }
                return Some(i);
            }
            i = i + 1;
        }
        proof {
            assert forall|k: int| 0 <= k < views(self.nodes@).len() implies (#[trigger] views(self.nodes@)[k]).id != id by {
                assert(views(self.nodes@)[k] == self.nodes@[k]@);
            }
            lemma_map_absent(views(self.nodes@), id);
        }
        None
    }

    pub fn get(&self, id: WorkId) -> (r: Option<&WorkNode>)
        requires
            self.wf(),
        ensures
            r matches Some(n) ==> self@.nodes.contains_key(id) && n@ == self@.nodes[id],
            r is None ==> !self@.nodes.contains_key(id),
    {
        match self.find(id) {
            Some(i) => Some(&self.nodes[i]),
            None => None,
        }
    }

    /// Record an operation in the ledger.
    fn push_ledger(&mut self, work_id: WorkId, actor: WorkId, op: &'static str, now: u64)
        requires
            old(self).wf(),
        ensures
            final(self).wf(),
            final(self).nodes@ == old(self).nodes@,
            final(self)@ == logged(old(self)@, work_id, actor, op, now),
    {
        self.next_seq = self.next_seq.saturating_add(1);
        let e = WorkLedgerEntry { seq: self.next_seq, ts_unix: now, work_id, actor, op };
        let ghost before = self.ledger@;
        self.ledger.push_back(e);
        if self.ledger.len() > MAX_LEDGER {
            self.ledger.pop_front();
            assert(self.ledger@ =~= before.push(e).drop_first());
        }
    }

    /// Overwrite node `i`, keeping its id.
    proof fn lemma_replaced(old_nodes: Seq<WorkNode>, i: int, new_nodes: Seq<WorkNode>)
        requires
            ids_distinct(views(old_nodes)),
            0 <= i < old_nodes.len(),
            new_nodes == old_nodes.update(i, new_nodes[i]),
            new_nodes[i].id == old_nodes[i].id,
        ensures
            ids_distinct(views(new_nodes)),
            node_map(views(new_nodes)) == node_map(views(old_nodes)).insert(old_nodes[i].id, new_nodes[i]@),
    {
        lemma_views_update(old_nodes, i, new_nodes[i]);
        assert(views(old_nodes)[i] == old_nodes[i]@);
        lemma_map_update(views(old_nodes), i, new_nodes[i]@);
    }

    /// Whether every dependency of node `i` is present and done.
    fn deps_satisfied(&self, i: usize) -> (r: bool)
        requires
            self.wf(),
            i < self.nodes@.len(),
        ensures
            r == deps_done(self@.nodes, self.nodes@[i as int]@),
    {
        let deps = &self.nodes[i].deps;
        let mut j: usize = 0;
        while j < deps.len()
            invariant
                self.wf(),
                deps@ == self.nodes@[i as int].deps@,
                j <= deps@.len(),
                forall|k: int| 0 <= k < j ==> self@.nodes.contains_key(#[trigger] deps@[k])
                    && self@.nodes[deps@[k]].status == WorkStatus::Done,
            decreases deps@.len() - j,
        {
            match self.find(deps[j]) {
                Some(p) => {
                    if self.nodes[p].status != WorkStatus::Done {
                        return false;
                    }
                },
                None => {
                    return false;
                },
            }
            j = j + 1;
        }
        true
    }

    /// The ids of every other node `assignee` holds, in id order.
    fn busy_ids(&self, id: WorkId, assignee: WorkId) -> (r: Vec<WorkId>)
        requires
            self.wf(),
        ensures
            ids_sorted(r@),
            forall|k: WorkId| r@.contains(k) <==> holds_other(self@, id, assignee, k),
    {
        proof {
            self.lemma_keys();
        }
        let mut keyed: Vec<Keyed> = Vec::new();
        let mut i: usize = 0;
        while i < self.nodes.len()
            invariant
                self.wf(),
                i <= self.nodes@.len(),
                forall|k: int| 0 <= k < keyed@.len() ==> (#[trigger] keyed@[k]).at < i,
                forall|a: int, b: int| 0 <= a < b < keyed@.len() ==> (#[trigger] keyed@[a]).at < (#[trigger] keyed@[b]).at,
                forall|k: int| 0 <= k < keyed@.len() ==> {
                    let e = #[trigger] keyed@[k];
                    &&& e.at < self.nodes@.len()
                    &&& e.k0 == self.nodes@[e.at as int].id.hi
                    &&& e.k1 == self.nodes@[e.at as int].id.lo
                    &&& e.k2 == 0 && e.k3 == 0
                    &&& holds_other(self@, id, assignee, self.nodes@[e.at as int].id)
                },
                forall|j: int| 0 <= j < i && holds_other(self@, id, assignee, (#[trigger] self.nodes@[j]).id) ==>
                    exists|k: int| 0 <= k < keyed@.len() && (#[trigger] keyed@[k]).at == j,
            decreases self.nodes@.len() - i,
        {
            let n = &self.nodes[i];
            proof {
                assert(views(self.nodes@)[i as int] == self.nodes@[i as int]@);
                lemma_map_at(views(self.nodes@), i as int);
            }
            if n.id != id && n.assignee == assignee && n.status.is_live() {
                let ghost before = keyed@;
                keyed.push(Keyed { k0: n.id.hi, k1: n.id.lo, k2: 0, k3: 0, at: i });
                assert(keyed@[before.len() as int].at == i);
                assert forall|j: int| 0 <= j < i && holds_other(self@, id, assignee, (#[trigger] self.nodes@[j]).id) implies
                    exists|k: int| 0 <= k < keyed@.len() && (#[trigger] keyed@[k]).at == j by {
                    let k = choose|k: int| 0 <= k < before.len() && (#[trigger] before[k]).at == j;
                    assert(keyed@[k] == before[k]);
                }
            }
            i = i + 1;
        }
        assert(keyed@.no_duplicates()) by {
            assert forall|a: int, b: int| 0 <= a < keyed@.len() && 0 <= b < keyed@.len() && a != b implies keyed@[a] != keyed@[b] by {
                if a < b {
                    assert(keyed@[a].at < keyed@[b].at);
                } else {
                    assert(keyed@[b].at < keyed@[a].at);
                }
            }
        }
        let sorted = sort_keyed(keyed);
        let mut out: Vec<WorkId> = Vec::new();
        let mut j: usize = 0;
        while j < sorted.len()
            invariant
                j <= sorted@.len(),
                keyed_sorted(sorted@),
                out@.len() == j,
                forall|k: int| 0 <= k < j ==> (#[trigger] out@[k]).hi == sorted@[k].k0 && out@[k].lo == sorted@[k].k1,
            decreases sorted@.len() - j,
        {
            out.push(WorkId { hi: sorted[j].k0, lo: sorted[j].k1 });
            j = j + 1;
        }
        proof {
            assert forall|e: Keyed| sorted@.contains(e) implies {
                &&& e.at < self.nodes@.len()
                &&& e.k0 == self.nodes@[e.at as int].id.hi
                &&& e.k1 == self.nodes@[e.at as int].id.lo
                &&& e.k2 == 0 && e.k3 == 0
                &&& holds_other(self@, id, assignee, self.nodes@[e.at as int].id)
            } by {
                assert(keyed@.contains(e));
                let k = choose|k: int| 0 <= k < keyed@.len() && keyed@[k] == e;
                assert(keyed@[k] == e);
            }
            assert forall|a: int, b: int| 0 <= a < b < out@.len() implies (#[trigger] out@[a]).lt(#[trigger] out@[b]) by {
                let ea = sorted@[a];
                let eb = sorted@[b];
                assert(sorted@.contains(ea));
                assert(sorted@.contains(eb));
                assert(keyed_lt(ea, eb));
                if ea.k0 == eb.k0 && ea.k1 == eb.k1 {
                    let na = self.nodes@[ea.at as int];
                    let nb = self.nodes@[eb.at as int];
                    assert(views(self.nodes@)[ea.at as int] == na@);
                    assert(views(self.nodes@)[eb.at as int] == nb@);
                    assert(ea.at != eb.at);
                    assert(na.id == nb.id);
                }
            }
            assert forall|k: WorkId| out@.contains(k) <==> holds_other(self@, id, assignee, k) by {
                if out@.contains(k) {
                    let a = choose|a: int| 0 <= a < out@.len() && out@[a] == k;
                    let e = sorted@[a];
                    assert(sorted@.contains(e));
                    assert(self.nodes@[e.at as int].id == k);
                }
                if holds_other(self@, id, assignee, k) {
                    let j = lemma_map_key(views(self.nodes@), k);
                    assert(views(self.nodes@)[j] == self.nodes@[j]@);
                    let kk = choose|kk: int| 0 <= kk < keyed@.len() && (#[trigger] keyed@[kk]).at == j;
                    let e = keyed@[kk];
                    assert(keyed@.contains(e));
                    assert(sorted@.contains(e));
                    let a = choose|a: int| 0 <= a < sorted@.len() && sorted@[a] == e;
                    assert(out@[a] == k);
                }
            }
        }
        out
    }

    pub fn claim_at(
        &mut self,
        id: WorkId,
        assignee: WorkId,
        expected_gen: Option<u64>,
        now: u64,
    ) -> (r: Result<u64, String>)
        requires
            old(self).wf(),
        ensures
            final(self).wf(),
            claim_post(old(self)@, final(self)@, id, assignee, expected_gen, now, r),
    {
        if id.is_zero() {
            return Err(String::from_str("claim: zero id"));
        }
        if assignee.is_zero() {
            return Err(String::from_str("claim: zero assignee"));
        }
        let i = match self.find(id) {
            Some(i) => i,
            None => {
                return Err(String::from_str("claim: not found"));
            },
        };
        if let Some(g) = expected_gen {
            if self.nodes[i].cas_gen != g {
                return Err(String::from_str("claim: gen mismatch"));
            }
        }
        if !self.nodes[i].status.is_open() {
            let mut m = String::from_str("claim: status ");
            m.append(self.nodes[i].status.as_str());
            return Err(m);
        }
        if !self.deps_satisfied(i) {
            return Err(String::from_str("claim: deps unsatisfied"));
        }
        let busy = self.busy_ids(id, assignee);
        if busy.len() > 0 {
            let m = busy_text(&busy);
            assert(busy@.contains(busy@[0]));
            assert(holds_other(self@, id, assignee, busy@[0]));
            return Err(m);
        }
        let ghost g0 = self@;
        let ghost old_nodes = self.nodes@;
        let new_gen;
        {
            let n = &mut self.nodes[i];
            n.status = WorkStatus::Claimed;
            n.assignee = assignee;
            n.cas_gen = n.cas_gen.saturating_add(1);
            n.updated_unix = now;
            new_gen = n.cas_gen;
        }
        proof {
            Self::lemma_replaced(old_nodes, i as int, self.nodes@);
            assert(!exists|k: WorkId| holds_other(g0, id, assignee, k)) by {
                if exists|k: WorkId| holds_other(g0, id, assignee, k) {
                    let k = choose|k: WorkId| holds_other(g0, id, assignee, k);
                    assert(busy@.contains(k));
                }
            }
        }
        self.push_ledger(id, assignee, "claim", now);
        Ok(new_gen)
    }

    /// Compare-and-swap claim: a node open and unblocked, for an assignee that
    /// holds nothing else live.
    pub fn claim(&mut self, id: WorkId, assignee: WorkId, expected_gen: Option<u64>) -> (r: Result<u64, String>)
        requires
            old(self).wf(),
        ensures
            final(self).wf(),
            exists|now: u64| claim_post(old(self)@, final(self)@, id, assignee, expected_gen, now, r),
    {
        let now = Self::now();
        self.claim_at(id, assignee, expected_gen, now)
    }
    /// Hand one claim back on purpose: ready, unheld, generation moved. Only
    /// the holder may; a zero actor is the command line's escape.
    pub fn release_at(&mut self, id: WorkId, actor: WorkId, now: u64) -> (r: Result<u64, String>)
        requires
            old(self).wf(),
        ensures
            final(self).wf(),
            release_post(old(self)@, final(self)@, id, actor, now, r),
    {
        let i = match self.find(id) {
            Some(i) => i,
            None => {
                return Err(String::from_str("release: not found"));
            },
        };
        if !self.nodes[i].status.is_live() {
            let mut m = String::from_str("release: status ");
            m.append(self.nodes[i].status.as_str());
            return Err(m);
        }
        let holder = self.nodes[i].assignee;
        if !holder.is_zero() && !actor.is_zero() && holder != actor {
            return Err(String::from_str("release: not assignee"));
        }
        let ghost old_nodes = self.nodes@;
        let generation;
        {
            let n = &mut self.nodes[i];
            n.status = WorkStatus::Ready;
            n.assignee = WorkId::zero();
            n.cas_gen = n.cas_gen.saturating_add(1);
            n.updated_unix = now;
            generation = n.cas_gen;
        }
        proof {
            Self::lemma_replaced(old_nodes, i as int, self.nodes@);
        }
        self.push_ledger(id, holder, "release", now);
        Ok(generation)
    }

    pub fn release(&mut self, id: WorkId, actor: WorkId) -> (r: Result<u64, String>)
        requires
            old(self).wf(),
        ensures
            final(self).wf(),
            exists|now: u64| release_post(old(self)@, final(self)@, id, actor, now, r),
    {
        let now = Self::now();
        self.release_at(id, actor, now)
    }

    /// Bring a terminal node back to ready, generation moved. The ledger keeps
    /// the earlier completion.
    pub fn reopen_at(&mut self, id: WorkId, actor: WorkId, now: u64) -> (r: Result<u64, String>)
        requires
            old(self).wf(),
        ensures
            final(self).wf(),
            reopen_post(old(self)@, final(self)@, id, actor, now, r),
    {
        let i = match self.find(id) {
            Some(i) => i,
            None => {
                return Err(String::from_str("reopen: not found"));
            },
        };
        if !self.nodes[i].status.is_terminal() {
            let mut m = String::from_str("reopen: status ");
            m.append(self.nodes[i].status.as_str());
            m.append(" is not terminal");
            return Err(m);
        }
        let ghost old_nodes = self.nodes@;
        let generation;
        {
            let n = &mut self.nodes[i];
            n.status = WorkStatus::Ready;
            n.assignee = WorkId::zero();
            n.archived = false;
            n.cas_gen = n.cas_gen.saturating_add(1);
            n.updated_unix = now;
            generation = n.cas_gen;
        }
        proof {
            Self::lemma_replaced(old_nodes, i as int, self.nodes@);
        }
        self.push_ledger(id, actor, "reopen", now);
        Ok(generation)
    }

    pub fn reopen(&mut self, id: WorkId, actor: WorkId) -> (r: Result<u64, String>)
        requires
            old(self).wf(),
        ensures
            final(self).wf(),
            exists|now: u64| reopen_post(old(self)@, final(self)@, id, actor, now, r),
    {
        let now = Self::now();
        self.reopen_at(id, actor, now)
    }

    /// Move the lease forward. The generation stays.
    pub fn renew_at(&mut self, id: WorkId, actor: WorkId, now: u64) -> (r: Result<u64, String>)
        requires
            old(self).wf(),
        ensures
            final(self).wf(),
            renew_post(old(self)@, final(self)@, id, actor, now, r),
    {
        let i = match self.find(id) {
            Some(i) => i,
            None => {
                return Err(String::from_str("renew: not found"));
            },
        };
        if !self.nodes[i].status.is_live() {
            let mut m = String::from_str("renew: status ");
            m.append(self.nodes[i].status.as_str());
            return Err(m);
        }
        let holder = self.nodes[i].assignee;
        if !holder.is_zero() && !actor.is_zero() && holder != actor {
            return Err(String::from_str("renew: not assignee"));
        }
        let ghost old_nodes = self.nodes@;
        let generation;
        {
            let n = &mut self.nodes[i];
            n.updated_unix = now;
            generation = n.cas_gen;
        }
        proof {
            Self::lemma_replaced(old_nodes, i as int, self.nodes@);
        }
        Ok(generation)
    }

    pub fn renew(&mut self, id: WorkId, actor: WorkId) -> (r: Result<u64, String>)
        requires
            old(self).wf(),
        ensures
            final(self).wf(),
            exists|now: u64| renew_post(old(self)@, final(self)@, id, actor, now, r),
    {
        let now = Self::now();
        self.renew_at(id, actor, now)
    }

    /// Mark held work as started. Only the holder may.
    pub fn set_running_at(&mut self, id: WorkId, actor: WorkId, now: u64) -> (r: Result<(), String>)
        requires
            old(self).wf(),
        ensures
            final(self).wf(),
            running_post(old(self)@, final(self)@, id, actor, now, r),
    {
        let i = match self.find(id) {
            Some(i) => i,
            None => {
                return Err(String::from_str("running: not found"));
            },
        };
        if !self.nodes[i].status.is_live() {
            let mut m = String::from_str("running: status ");
            m.append(self.nodes[i].status.as_str());
            return Err(m);
        }
        let holder = self.nodes[i].assignee;
        if !holder.is_zero() && !actor.is_zero() && holder != actor {
            return Err(String::from_str("running: not assignee"));
        }
        let ghost old_nodes = self.nodes@;
        {
            let n = &mut self.nodes[i];
            n.status = WorkStatus::Running;
            n.updated_unix = now;
        }
        proof {
            Self::lemma_replaced(old_nodes, i as int, self.nodes@);
        }
        self.push_ledger(id, actor, "running", now);
        Ok(())
    }

    pub fn set_running(&mut self, id: WorkId, actor: WorkId) -> (r: Result<(), String>)
        requires
            old(self).wf(),
        ensures
            final(self).wf(),
            exists|now: u64| running_post(old(self)@, final(self)@, id, actor, now, r),
    {
        let now = Self::now();
        self.set_running_at(id, actor, now)
    }

    /// Soft-hide a terminal node. Not a delete, not a status.
    pub fn archive_at(&mut self, id: WorkId, actor: WorkId, now: u64) -> (r: Result<(), String>)
        requires
            old(self).wf(),
        ensures
            final(self).wf(),
            archive_post(old(self)@, final(self)@, id, actor, now, r),
    {
        if id.is_zero() {
            return Err(String::from_str("archive: zero id"));
        }
        let i = match self.find(id) {
            Some(i) => i,
            None => {
                return Err(String::from_str("archive: not found"));
            },
        };
        if !self.nodes[i].status.is_terminal() {
            return Err(String::from_str("archive: not terminal"));
        }
        if self.nodes[i].archived {
            return Ok(());
        }
        let ghost old_nodes = self.nodes@;
        {
            let n = &mut self.nodes[i];
            n.archived = true;
            n.updated_unix = now;
            n.cas_gen = n.cas_gen.saturating_add(1);
        }
        proof {
            Self::lemma_replaced(old_nodes, i as int, self.nodes@);
        }
        self.push_ledger(id, actor, "archive", now);
        Ok(())
    }

    pub fn archive(&mut self, id: WorkId, actor: WorkId) -> (r: Result<(), String>)
        requires
            old(self).wf(),
        ensures
            final(self).wf(),
            exists|now: u64| archive_post(old(self)@, final(self)@, id, actor, now, r),
    {
        let now = Self::now();
        self.archive_at(id, actor, now)
    }

    /// Clear the archive flag. The status stays terminal.
    pub fn unarchive_at(&mut self, id: WorkId, actor: WorkId, now: u64) -> (r: Result<(), String>)
        requires
            old(self).wf(),
        ensures
            final(self).wf(),
            unarchive_post(old(self)@, final(self)@, id, actor, now, r),
    {
        if id.is_zero() {
            return Err(String::from_str("unarchive: zero id"));
        }
        let i = match self.find(id) {
            Some(i) => i,
            None => {
                return Err(String::from_str("unarchive: not found"));
            },
        };
        if !self.nodes[i].archived {
            return Ok(());
        }
        let ghost old_nodes = self.nodes@;
        {
            let n = &mut self.nodes[i];
            n.archived = false;
            n.updated_unix = now;
            n.cas_gen = n.cas_gen.saturating_add(1);
        }
        proof {
            Self::lemma_replaced(old_nodes, i as int, self.nodes@);
        }
        self.push_ledger(id, actor, "unarchive", now);
        Ok(())
    }

    pub fn unarchive(&mut self, id: WorkId, actor: WorkId) -> (r: Result<(), String>)
        requires
            old(self).wf(),
        ensures
            final(self).wf(),
            exists|now: u64| unarchive_post(old(self)@, final(self)@, id, actor, now, r),
    {
        let now = Self::now();
        self.unarchive_at(id, actor, now)
    }
    /// Recompute the readiness of node `i` from its dependencies.
    fn recompute_at(&mut self, i: usize, now: u64)
        requires
            old(self).wf(),
            i < old(self).nodes@.len(),
        ensures
            final(self).wf(),
            final(self).nodes@.len() == old(self).nodes@.len(),
            final(self)@ == put(old(self)@, recomputed(old(self)@.nodes, old(self).nodes@[i as int]@, now)),
            forall|j: int| 0 <= j < final(self).nodes@.len() && j != i ==> final(self).nodes@[j] == old(self).nodes@[j],
            final(self).nodes@[i as int]@ == recomputed(old(self)@.nodes, old(self).nodes@[i as int]@, now),
    {
        let ready = matches!(self.nodes[i].status, WorkStatus::Todo | WorkStatus::Blocked | WorkStatus::Ready)
            && self.deps_satisfied(i);
        let ghost old_nodes = self.nodes@;
        let status = self.nodes[i].status;
        if ready && (status == WorkStatus::Todo || status == WorkStatus::Blocked) {
            {
                let n = &mut self.nodes[i];
                n.status = WorkStatus::Ready;
                n.updated_unix = now;
            }
            proof {
                Self::lemma_replaced(old_nodes, i as int, self.nodes@);
            }
        } else if !ready && status == WorkStatus::Ready {
            {
                let n = &mut self.nodes[i];
                n.status = WorkStatus::Todo;
                n.updated_unix = now;
            }
            proof {
                Self::lemma_replaced(old_nodes, i as int, self.nodes@);
            }
        } else {
            proof {
                assert(views(old_nodes)[i as int] == old_nodes[i as int]@);
                lemma_map_at(views(old_nodes), i as int);
                assert(self@.nodes =~= self@.nodes.insert(old_nodes[i as int].id, old_nodes[i as int]@));
            }
        }
        proof {
            assert(views(old_nodes)[i as int] == old_nodes[i as int]@);
            lemma_map_at(views(old_nodes), i as int);
        }
    }

    /// Recompute the readiness of the node with this id, if there is one.
    fn recompute_ready(&mut self, id: WorkId, now: u64)
        requires
            old(self).wf(),
        ensures
            final(self).wf(),
            final(self)@ == with_recomputed(old(self)@, id, now),
    {
        match self.find(id) {
            Some(i) => {
                self.recompute_at(i, now);
            },
            None => {},
        }
    }

    /// Recompute every node that waits on `done_id`.
    fn promote_dependents(&mut self, done_id: WorkId, now: u64)
        requires
            old(self).wf(),
        ensures
            final(self).wf(),
            final(self)@ == (GraphView { nodes: promoted(old(self)@.nodes, done_id, now), ..old(self)@ }),
    {
        let ghost g0 = self@;
        let ghost n0 = self.nodes@;
        let mut j: usize = 0;
        while j < self.nodes.len()
            invariant
                self.wf(),
                self.nodes@.len() == n0.len(),
                j <= n0.len(),
                ids_distinct(views(n0)),
                g0.nodes == node_map(views(n0)),
                self@.ledger == g0.ledger,
                self@.next_seq == g0.next_seq,
                self@.mint_seq == g0.mint_seq,
                forall|k: int| 0 <= k < n0.len() ==> (#[trigger] self.nodes@[k]).id == n0[k].id,
                forall|k: int| j <= k < n0.len() ==> (#[trigger] self.nodes@[k]) == n0[k],
                forall|k: int| 0 <= k < j ==> (#[trigger] self.nodes@[k])@ == promoted(g0.nodes, done_id, now)[n0[k].id],
                same_done(self@.nodes, g0.nodes),
            decreases n0.len() - j,
        {
            proof {
                assert(views(n0)[j as int] == n0[j as int]@);
                lemma_map_at(views(n0), j as int);
            }
            if contains_id(&self.nodes[j].deps, done_id) {
                let ghost before = self@;
                let ghost before_nodes = self.nodes@;
                self.recompute_at(j, now);
                proof {
                    lemma_same_done_deps(before.nodes, g0.nodes, n0[j as int]@);
                    lemma_recomputed_done(before.nodes, n0[j as int]@, now);
                    assert(views(before_nodes)[j as int] == before_nodes[j as int]@);
                    lemma_map_at(views(before_nodes), j as int);
                    assert(same_done(self@.nodes, g0.nodes)) by {
                        assert forall|k: WorkId| #[trigger] self@.nodes.contains_key(k) implies (self@.nodes[k].status == WorkStatus::Done <==> g0.nodes[k].status == WorkStatus::Done) by {
                            if k != n0[j as int].id {
                                assert(before.nodes.contains_key(k));
                            }
                        }
                    }
                }
            }
            j = j + 1;
        }
        proof {
            let p = promoted(g0.nodes, done_id, now);
            assert forall|k: WorkId| #[trigger] self@.nodes.contains_key(k) <==> p.contains_key(k) by {
            }
            assert forall|k: WorkId| #[trigger] self@.nodes.contains_key(k) implies self@.nodes[k] == p[k] by {
                let a = lemma_map_key(views(self.nodes@), k);
                assert(views(self.nodes@)[a] == self.nodes@[a]@);
                assert(self.nodes@[a].id == n0[a].id);
                assert(views(n0)[a] == n0[a]@);
                lemma_map_at(views(n0), a);
            }
            assert(self@.nodes =~= p);
        }
    }

    /// Finish a node. `expected_gen` is the fencing token from the claim;
    /// `None` skips the check. A terminal node stays as it is, but its
    /// holder may still rewrite its summary.
    pub fn complete_at(
        &mut self,
        id: WorkId,
        status: WorkStatus,
        summary: &str,
        actor: WorkId,
        expected_gen: Option<u64>,
        now: u64,
    ) -> (r: Result<(), String>)
        requires
            old(self).wf(),
        ensures
            final(self).wf(),
            complete_post(old(self)@, final(self)@, id, status, summary@, actor, expected_gen, now, r),
    {
        if !status.is_terminal() {
            return Err(String::from_str("complete: status not terminal"));
        }
        if id.is_zero() {
            return Err(String::from_str("complete: zero id"));
        }
        let i = match self.find(id) {
            Some(i) => i,
            None => {
                return Err(String::from_str("complete: not found"));
            },
        };
        if let Some(g) = expected_gen {
            if self.nodes[i].cas_gen != g {
                return Err(String::from_str("complete: gen mismatch"));
            }
        }
        let holder = self.nodes[i].assignee;
        if !holder.is_zero() && !actor.is_zero() && holder != actor {
            return Err(String::from_str("complete: not assignee"));
        }
        let ghost old_nodes = self.nodes@;
        let has_summary = !summary.is_empty();
        if self.nodes[i].status.is_terminal() {
            if has_summary {
                {
                    let n = &mut self.nodes[i];
                    n.summary = String::from_str(summary);
                }
                proof {
                    Self::lemma_replaced(old_nodes, i as int, self.nodes@);
                }
            }
            return Ok(());
        }
        {
            let n = &mut self.nodes[i];
            n.status = status;
            if has_summary {
                n.summary = String::from_str(summary);
            }
            n.finished_unix = now;
            n.updated_unix = now;
        }
        proof {
            Self::lemma_replaced(old_nodes, i as int, self.nodes@);
        }
        self.push_ledger(id, actor, "complete", now);
        self.promote_dependents(id, now);
        Ok(())
    }

    pub fn complete(
        &mut self,
        id: WorkId,
        status: WorkStatus,
        summary: &str,
        actor: WorkId,
        expected_gen: Option<u64>,
    ) -> (r: Result<(), String>)
        requires
            old(self).wf(),
        ensures
            final(self).wf(),
            exists|now: u64| complete_post(old(self)@, final(self)@, id, status, summary@, actor, expected_gen, now, r),
    {
        let now = Self::now();
        self.complete_at(id, status, summary, actor, expected_gen, now)
    }

    /// Whether walking dependency edges from any of `start` arrives at
    /// `target`.
    #[verifier::spinoff_prover]
    #[verifier::rlimit(40)]
    fn reaches_from(&self, start: Vec<WorkId>, target: WorkId) -> (r: bool)
        requires
            self.wf(),
        ensures
            r == some_reaches(self@.nodes, start@, target),
    {
        let ghost m = self@.nodes;
        let n = self.nodes.len();
        let mut visited: Vec<bool> = Vec::new();
        let mut z: usize = 0;
        while z < n
            invariant
                z <= n == self.nodes@.len(),
                visited@.len() == z,
                forall|i: int| 0 <= i < z ==> !visited@[i],
            decreases n - z,
        {
            visited.push(false);
            z = z + 1;
        }
        let mut stack = start;
        let ghost start_seq = stack@;
        let ghost mut unvisited: Set<int> = vstd::set_lib::set_int_range(0, n as int);
        let ghost mut seen: Set<WorkId> = Set::empty();
        proof {
            vstd::set_lib::lemma_int_range(0, n as int);
            lemma_search_start(m, start_seq, target);
        }
        loop
            invariant
                self.wf(),
                m == self@.nodes,
                start_seq == start@,
                n == self.nodes@.len(),
                visited@.len() == n,
                unvisited.finite(),
                forall|i: int| #[trigger] unvisited.contains(i) <==> 0 <= i < n && !visited@[i],
                forall|i: int| 0 <= i < n ==> (#[trigger] visited@[i] <==> seen.contains(self.nodes@[i].id)),
                search_inv(m, start_seq, target, stack@, seen),
            decreases unvisited.len(), stack@.len(),
        {
            let ghost s0 = stack@;
            match stack.pop() {
                None => {
                    proof {
                        assert(s0 =~= Seq::<WorkId>::empty());
                        lemma_search_none(m, start_seq, target, seen);
                    }
                    return false;
                },
                Some(id) => {
                    assert(s0 == stack@.push(id));
                    if id == target {
                        proof {
                            assert(s0[s0.len() - 1] == id);
                        }
                        return true;
                    }
                    match self.find(id) {
                        Some(i) => {
                            if !visited[i] {
                                proof {
                                    assert(unvisited.contains(i as int));
                                }
                                visited.set(i, true);
                                proof {
                                    unvisited = unvisited.remove(i as int);
                                }
                                let deps = &self.nodes[i].deps;
                                let ghost mid = stack@;
                                let mut j: usize = 0;
                                while j < deps.len()
                                    invariant
                                        j <= deps@.len(),
                                        deps@ == self.nodes@[i as int].deps@,
                                        stack@ == mid + deps@.take(j as int),
                                    decreases deps@.len() - j,
                                {
                                    stack.push(deps[j]);
                                    j = j + 1;
                                    assert(deps@.take(j as int) =~= deps@.take(j - 1).push(deps@[j - 1]));
                                }
                                proof {
                                    assert(deps@.take(deps@.len() as int) =~= deps@);
                                    lemma_search_expand(m, start_seq, target, s0, seen, stack@, id);
                                    seen = seen.insert(id);
                                    assert forall|k: int| 0 <= k < n implies (#[trigger] visited@[k] <==> seen.contains(self.nodes@[k].id)) by {
                                        if k != i {
                                            assert(views(self.nodes@)[k] == self.nodes@[k]@);
                                            assert(views(self.nodes@)[i as int] == self.nodes@[i as int]@);
                                            assert(self.nodes@[k].id != id) by {
                                                if k < i {
                                                    assert(views(self.nodes@)[k].id != views(self.nodes@)[i as int].id);
                                                } else {
                                                    assert(views(self.nodes@)[i as int].id != views(self.nodes@)[k].id);
                                                }
                                            }
                                        }
                                    }
                                }
                            } else {
                                proof {
                                    assert(seen.contains(id));
                                    lemma_search_skip(m, start_seq, target, s0, seen, stack@, id);
                                }
                            }
                        },
                        None => {
                            proof {
                                lemma_search_skip(m, start_seq, target, s0, seen, stack@, id);
                            }
                        },
                    }
                },
            }
        }
    }

    /// Whether linking `parent` before `child` would close a loop.
    fn would_cycle(&self, parent: WorkId, child: WorkId) -> (r: bool)
        requires
            self.wf(),
        ensures
            r == reaches(self@.nodes, parent, child),
    {
        let start = vec![parent];
        let r = self.reaches_from(start, child);
        proof {
            if reaches(self@.nodes, parent, child) {
                assert(start@[0] == parent);
            }
        }
        r
    }

    pub fn link_dep_at(&mut self, parent: WorkId, child: WorkId, actor: WorkId, now: u64) -> (r: Result<(), String>)
        requires
            old(self).wf(),
        ensures
            final(self).wf(),
            link_post(old(self)@, final(self)@, parent, child, actor, now, r),
    {
        if parent.is_zero() || child.is_zero() {
            return Err(String::from_str("link: zero id"));
        }
        if parent == child {
            return Err(String::from_str("link: self-dep"));
        }
        if self.find(parent).is_none() {
            return Err(String::from_str("link: parent missing"));
        }
        let i = match self.find(child) {
            Some(i) => i,
            None => {
                return Err(String::from_str("link: child missing"));
            },
        };
        if self.would_cycle(parent, child) {
            return Err(String::from_str("link: would create cycle"));
        }
        let ghost g0 = self@;
        if !contains_id(&self.nodes[i].deps, parent) {
            let ghost old_nodes = self.nodes@;
            {
                let n = &mut self.nodes[i];
                n.deps.push(parent);
                n.updated_unix = now;
            }
            proof {
                Self::lemma_replaced(old_nodes, i as int, self.nodes@);
            }
        } else {
            assert(put(g0, g0.nodes[child]) =~= g0) by {
                assert(g0.nodes.insert(child, g0.nodes[child]) =~= g0.nodes);
            }
        }
        self.recompute_ready(child, now);
        self.push_ledger(child, actor, "link", now);
        Ok(())
    }

    /// Add a boolean hard dependency: `parent` before `child`.
    pub fn link_dep(&mut self, parent: WorkId, child: WorkId, actor: WorkId) -> (r: Result<(), String>)
        requires
            old(self).wf(),
        ensures
            final(self).wf(),
            exists|now: u64| link_post(old(self)@, final(self)@, parent, child, actor, now, r),
    {
        let now = Self::now();
        self.link_dep_at(parent, child, actor, now)
    }

    pub fn unlink_dep_at(&mut self, parent: WorkId, child: WorkId, actor: WorkId, now: u64) -> (r: Result<(), String>)
        requires
            old(self).wf(),
        ensures
            final(self).wf(),
            unlink_post(old(self)@, final(self)@, parent, child, actor, now, r),
    {
        if parent.is_zero() || child.is_zero() {
            return Err(String::from_str("unlink: zero id"));
        }
        let i = match self.find(child) {
            Some(i) => i,
            None => {
                return Err(String::from_str("unlink: child missing"));
            },
        };
        let kept = ids_without(&self.nodes[i].deps, parent);
        proof {
            lemma_without_len(self.nodes@[i as int].deps@, parent);
        }
        let ghost g0 = self@;
        if kept.len() != self.nodes[i].deps.len() {
            let ghost old_nodes = self.nodes@;
            {
                let n = &mut self.nodes[i];
                n.deps = kept;
                n.updated_unix = now;
            }
            proof {
                Self::lemma_replaced(old_nodes, i as int, self.nodes@);
            }
        } else {
            assert(put(g0, g0.nodes[child]) =~= g0) by {
                assert(g0.nodes.insert(child, g0.nodes[child]) =~= g0.nodes);
            }
        }
        self.recompute_ready(child, now);
        self.push_ledger(child, actor, "unlink", now);
        Ok(())
    }

    /// Drop a boolean hard dependency. A missing edge is not an error.
    pub fn unlink_dep(&mut self, parent: WorkId, child: WorkId, actor: WorkId) -> (r: Result<(), String>)
        requires
            old(self).wf(),
        ensures
            final(self).wf(),
            exists|now: u64| unlink_post(old(self)@, final(self)@, parent, child, actor, now, r),
    {
        let now = Self::now();
        self.unlink_dep_at(parent, child, actor, now)
    }

    /// Return every claim quiet for at least `lease_secs` to ready, bumping
    /// the generation so a holder that wakes later is fenced. Returns the
    /// nodes handed back, oldest first.
    pub fn reclaim_at(&mut self, lease_secs: u64, now: u64) -> (r: Vec<WorkId>)
        requires
            old(self).wf(),
        ensures
            final(self).wf(),
            reclaim_post(old(self)@, final(self)@, lease_secs, now, r@),
    {
        let ghost g0 = self@;
        proof {
            self.lemma_keys();
        }
        let mut keyed: Vec<Keyed> = Vec::new();
        let mut i: usize = 0;
        while i < self.nodes.len()
            invariant
                self.wf(),
                self@ == g0,
                i <= self.nodes@.len(),
                forall|a: int, b: int| 0 <= a < b < keyed@.len() ==> (#[trigger] keyed@[a]).at < (#[trigger] keyed@[b]).at,
                forall|k: int| 0 <= k < keyed@.len() ==> {
                    let e = #[trigger] keyed@[k];
                    &&& e.at < i
                    &&& e.k0 == self.nodes@[e.at as int].updated_unix
                    &&& e.k1 == self.nodes@[e.at as int].id.hi
                    &&& e.k2 == self.nodes@[e.at as int].id.lo
                    &&& e.k3 == 0
                    &&& stale(g0, self.nodes@[e.at as int].id, lease_secs, now)
                },
                forall|j: int| 0 <= j < i && stale(g0, (#[trigger] self.nodes@[j]).id, lease_secs, now) ==>
                    exists|k: int| 0 <= k < keyed@.len() && (#[trigger] keyed@[k]).at == j,
            decreases self.nodes@.len() - i,
        {
            let n = &self.nodes[i];
            proof {
                assert(views(self.nodes@)[i as int] == self.nodes@[i as int]@);
                lemma_map_at(views(self.nodes@), i as int);
            }
            if n.status.is_live() && now.saturating_sub(n.updated_unix) >= lease_secs {
                let ghost before = keyed@;
                keyed.push(Keyed { k0: n.updated_unix, k1: n.id.hi, k2: n.id.lo, k3: 0, at: i });
                assert(keyed@[before.len() as int].at == i);
                assert forall|j: int| 0 <= j < i && stale(g0, (#[trigger] self.nodes@[j]).id, lease_secs, now) implies
                    exists|k: int| 0 <= k < keyed@.len() && (#[trigger] keyed@[k]).at == j by {
                    let k = choose|k: int| 0 <= k < before.len() && (#[trigger] before[k]).at == j;
                    assert(keyed@[k] == before[k]);
                }
            }
            i = i + 1;
        }
        assert(keyed@.no_duplicates()) by {
            assert forall|a: int, b: int| 0 <= a < keyed@.len() && 0 <= b < keyed@.len() && a != b implies keyed@[a] != keyed@[b] by {
                if a < b {
                    assert(keyed@[a].at < keyed@[b].at);
                } else {
                    assert(keyed@[b].at < keyed@[a].at);
                }
            }
        }
        let sorted = sort_keyed(keyed);
        proof {
            assert forall|e: Keyed| sorted@.contains(e) implies {
                &&& e.at < self.nodes@.len()
                &&& e.k0 == self.nodes@[e.at as int].updated_unix
                &&& e.k1 == self.nodes@[e.at as int].id.hi
                &&& e.k2 == self.nodes@[e.at as int].id.lo
                &&& e.k3 == 0
                &&& stale(g0, self.nodes@[e.at as int].id, lease_secs, now)
            } by {
                assert(keyed@.contains(e));
                let k = choose|k: int| 0 <= k < keyed@.len() && keyed@[k] == e;
                assert(keyed@[k] == e);
            }
        }
        let ghost n0 = self.nodes@;
        let mut handed: Vec<WorkId> = Vec::new();
        let mut j: usize = 0;
        while j < sorted.len()
            invariant
                self.wf(),
                j <= sorted@.len(),
                keyed_sorted(sorted@),
                n0.len() == self.nodes@.len(),
                ids_distinct(views(n0)),
                g0.nodes == node_map(views(n0)),
                forall|k: int| 0 <= k < n0.len() ==> (#[trigger] self.nodes@[k]).id == n0[k].id,
                forall|e: Keyed| sorted@.contains(e) ==> {
                    &&& e.at < n0.len()
                    &&& e.k0 == n0[e.at as int].updated_unix
                    &&& e.k1 == n0[e.at as int].id.hi
                    &&& e.k2 == n0[e.at as int].id.lo
                    &&& e.k3 == 0
                    &&& stale(g0, n0[e.at as int].id, lease_secs, now)
                },
                handed@.len() == j,
                forall|k: int| 0 <= k < j ==> (#[trigger] handed@[k]) == n0[sorted@[k].at as int].id,
                self@ == reclaimed(g0, handed@, now),
                forall|k: int| 0 <= k < n0.len() && !handed@.contains(n0[k].id) ==> (#[trigger] self.nodes@[k]) == n0[k],
            decreases sorted@.len() - j,
        {
            let e = sorted[j];
            let at = e.at;
            proof {
                assert(sorted@.contains(e));
                assert(views(n0)[at as int] == n0[at as int]@);
                lemma_map_at(views(n0), at as int);
                assert(!handed@.contains(n0[at as int].id)) by {
                    if handed@.contains(n0[at as int].id) {
                        let k = choose|k: int| 0 <= k < handed@.len() && handed@[k] == n0[at as int].id;
                        let f = sorted@[k];
                        assert(sorted@.contains(f));
                        assert(keyed_lt(f, e));
                        assert(f.at != at);
                        assert(views(n0)[f.at as int] == n0[f.at as int]@);
                        if f.at < at {
                            assert(views(n0)[f.at as int].id != views(n0)[at as int].id);
                        } else {
                            assert(views(n0)[at as int].id != views(n0)[f.at as int].id);
                        }
                    }
                }
            }
            let id = self.nodes[at].id;
            let holder = self.nodes[at].assignee;
            let ghost old_nodes = self.nodes@;
            {
                let n = &mut self.nodes[at];
                n.status = WorkStatus::Ready;
                n.assignee = WorkId::zero();
                n.cas_gen = n.cas_gen.saturating_add(1);
                n.updated_unix = now;
            }
            proof {
                Self::lemma_replaced(old_nodes, at as int, self.nodes@);
            }
            self.push_ledger(id, holder, "reclaim", now);
            let ghost hb = handed@;
            handed.push(id);
            proof {
                assert(handed@.drop_last() =~= hb);
                assert forall|k: int| 0 <= k < n0.len() && !handed@.contains(n0[k].id) implies (#[trigger] self.nodes@[k]) == n0[k] by {
                    assert(!hb.contains(n0[k].id)) by {
                        if hb.contains(n0[k].id) {
                            let q = choose|q: int| 0 <= q < hb.len() && hb[q] == n0[k].id;
                            assert(handed@[q] == n0[k].id);
                        }
                    }
                    assert(handed@[hb.len() as int] == id);
                    if k == at {
                        assert(handed@.contains(n0[k].id));
                    }
                }
            }
            j = j + 1;
        }
        proof {
            assert forall|a: int, b: int| 0 <= a < b < handed@.len() implies touched_before(g0, #[trigger] handed@[a], #[trigger] handed@[b]) by {
                let ea = sorted@[a];
                let eb = sorted@[b];
                assert(sorted@.contains(ea));
                assert(sorted@.contains(eb));
                assert(keyed_lt(ea, eb));
                assert(views(n0)[ea.at as int] == n0[ea.at as int]@);
                assert(views(n0)[eb.at as int] == n0[eb.at as int]@);
                lemma_map_at(views(n0), ea.at as int);
                lemma_map_at(views(n0), eb.at as int);
            }
            assert forall|k: WorkId| handed@.contains(k) <==> stale(g0, k, lease_secs, now) by {
                if handed@.contains(k) {
                    let a = choose|a: int| 0 <= a < handed@.len() && handed@[a] == k;
                    assert(sorted@.contains(sorted@[a]));
                }
                if stale(g0, k, lease_secs, now) {
                    let p = lemma_map_key(views(n0), k);
                    assert(views(n0)[p] == n0[p]@);
                    let kk = choose|kk: int| 0 <= kk < keyed@.len() && (#[trigger] keyed@[kk]).at == p;
                    let e = keyed@[kk];
                    assert(keyed@.contains(e));
                    assert(sorted@.contains(e));
                    let a = choose|a: int| 0 <= a < sorted@.len() && sorted@[a] == e;
                    assert(handed@[a] == k);
                }
            }
        }
        handed
    }

    pub fn reclaim(&mut self, lease_secs: u64) -> (r: Vec<WorkId>)
        requires
            old(self).wf(),
        ensures
            final(self).wf(),
            exists|now: u64| reclaim_post(old(self)@, final(self)@, lease_secs, now, r@),
    {
        let now = Self::now();
        self.reclaim_at(lease_secs, now)
    }

    /// Whether walking up from `from` reaches `target`; bounded by a visited set.
    fn parent_reaches(&self, from: WorkId, target: WorkId) -> (r: bool)
        requires
            self.wf(),
        ensures
            r == parent_reaches_spec(self@.nodes, from, target),
    {
        let ghost m = self@.nodes;
        let n = self.nodes.len();
        let mut visited: Vec<bool> = Vec::new();
        let mut z: usize = 0;
        while z < n
            invariant
                z <= n == self.nodes@.len(),
                visited@.len() == z,
                forall|i: int| 0 <= i < z ==> !visited@[i],
            decreases n - z,
        {
            visited.push(false);
            z = z + 1;
        }
        let ghost mut unvisited: Set<int> = vstd::set_lib::set_int_range(0, n as int);
        let ghost mut k: nat = 0;
        proof {
            vstd::set_lib::lemma_int_range(0, n as int);
            self.lemma_keys();
        }
        let mut at = from;
        loop
            invariant
                self.wf(),
                m == self@.nodes,
                n == self.nodes@.len(),
                visited@.len() == n,
                unvisited.finite(),
                forall|i: int| #[trigger] unvisited.contains(i) <==> 0 <= i < n && !visited@[i],
                walk_up(m, from, k) == Some(at),
                forall|q: nat| q < k ==> (#[trigger] walk_up(m, from, q)) != Some(target),
                forall|i: int| 0 <= i < n && #[trigger] visited@[i] ==> exists|q: nat| q < k && #[trigger] walk_up(m, from, q) == Some(self.nodes@[i].id),
                forall|q: nat| q < k ==> exists|i: int| 0 <= i < n && visited@[i] && #[trigger] walk_up(m, from, q) == Some(self.nodes@[i].id),
            decreases unvisited.len(),
        {
            if at.is_zero() {
                proof {
                    assert(up(m, Some(at)) is None);
                    assert(walk_up(m, from, k + 1) is None);
                    if !target.nil() {
                        assert forall|t: nat| #[trigger] walk_up(m, from, t) != Some(target) by {
                            if t > k {
                                lemma_walk_stops(m, from, k + 1, t);
                            }
                        }
                    }
                }
                return false;
            }
            if at == target {
                return true;
            }
            match self.find(at) {
                None => {
                    proof {
                        assert(walk_up(m, from, k + 1) is None);
                        assert forall|t: nat| #[trigger] walk_up(m, from, t) != Some(target) by {
                            if t > k {
                                lemma_walk_stops(m, from, k + 1, t);
                            }
                        }
                    }
                    return false;
                },
                Some(i) => {
                    if visited[i] {
                        proof {
                            let j = choose|q: nat| q < k && #[trigger] walk_up(m, from, q) == Some(self.nodes@[i as int].id);
                            assert forall|t: nat| #[trigger] walk_up(m, from, t) != Some(target) by {
                                if t >= k {
                                    lemma_walk_repeats(m, from, j, k, t);
                                }
                            }
                        }
                        return false;
                    }
                    proof {
                        assert(unvisited.contains(i as int));
                    }
                    let ghost vis0 = visited@;
                    visited.set(i, true);
                    let next = self.nodes[i].parent;
                    proof {
                        unvisited = unvisited.remove(i as int);
                        assert(walk_up(m, from, k + 1) == Some(next));
                        let k0 = k;
                        k = k + 1;
                        assert forall|a: int| 0 <= a < n && #[trigger] visited@[a] implies exists|q: nat| q < k && #[trigger] walk_up(m, from, q) == Some(self.nodes@[a].id) by {
                            if a == i {
                                assert(walk_up(m, from, k0) == Some(self.nodes@[a].id));
                            } else {
                                let q = choose|q: nat| q < k0 && #[trigger] walk_up(m, from, q) == Some(self.nodes@[a].id);
                            }
                        }
                        assert forall|q: nat| q < k implies exists|a: int| 0 <= a < n && visited@[a] && #[trigger] walk_up(m, from, q) == Some(self.nodes@[a].id) by {
                            if q == k0 {
                                assert(visited@[i as int]);
                            } else {
                                let a = choose|a: int| 0 <= a < n && vis0[a] && #[trigger] walk_up(m, from, q) == Some(self.nodes@[a].id);
                                assert(visited@[a]);
                            }
                        }
                    }
                    at = next;
                },
            }
        }
    }

    /// Which nodes an over-full graph drops.
    fn prune_plan(&self) -> (doomed: Vec<bool>)
        requires
            self.wf(),
            self.nodes@.len() > MAX_WORK_NODES,
        ensures
            doomed@.len() == self.nodes@.len(),
            forall|i: int| 0 <= i < doomed@.len() && #[trigger] doomed@[i] ==> self.nodes@[i].status.terminal(),
            forall|i: int, j: int| 0 <= i < doomed@.len() && 0 <= j < doomed@.len() && #[trigger] doomed@[i] && !#[trigger] doomed@[j]
                && self.nodes@[j].status.terminal() ==> prune_before(self.nodes@[i]@, self.nodes@[j]@),
            marked_ids(self.nodes@, doomed@).finite(),
            marked_ids(self.nodes@, doomed@).len() == overflow_drop(self@.nodes.dom().len(), terminal_ids(self@.nodes).len()),
    {
        let n = self.nodes.len();
        let overflow = n - MAX_WORK_NODES;
        let mut keyed: Vec<Keyed> = Vec::new();
        let mut i: usize = 0;
        while i < n
            invariant
                self.wf(),
                n == self.nodes@.len(),
                i <= n,
                forall|a: int, b: int| 0 <= a < b < keyed@.len() ==> (#[trigger] keyed@[a]).at < (#[trigger] keyed@[b]).at,
                forall|k: int| 0 <= k < keyed@.len() ==> {
                    let e = #[trigger] keyed@[k];
                    &&& e.at < i
                    &&& e.k0 == shelf(self.nodes@[e.at as int]@)
                    &&& e.k1 == age(self.nodes@[e.at as int]@)
                    &&& e.k2 == 0 && e.k3 == 0
                    &&& self.nodes@[e.at as int].status.terminal()
                },
                forall|j: int| 0 <= j < i && (#[trigger] self.nodes@[j]).status.terminal() ==>
                    exists|k: int| 0 <= k < keyed@.len() && (#[trigger] keyed@[k]).at == j,
            decreases n - i,
        {
            let node = &self.nodes[i];
            if node.status.is_terminal() {
                let ghost before = keyed@;
                let first = if node.archived { 0 } else { 1 };
                let t = if node.finished_unix >= node.updated_unix { node.finished_unix } else { node.updated_unix };
                keyed.push(Keyed { k0: first, k1: t, k2: 0, k3: 0, at: i });
                assert(keyed@[before.len() as int].at == i);
                assert forall|j: int| 0 <= j < i && (#[trigger] self.nodes@[j]).status.terminal() implies
                    exists|k: int| 0 <= k < keyed@.len() && (#[trigger] keyed@[k]).at == j by {
                    let k = choose|k: int| 0 <= k < before.len() && (#[trigger] before[k]).at == j;
                    assert(keyed@[k] == before[k]);
                }
            }
            i = i + 1;
        }
        assert(keyed@.no_duplicates()) by {
            assert forall|a: int, b: int| 0 <= a < keyed@.len() && 0 <= b < keyed@.len() && a != b implies keyed@[a] != keyed@[b] by {
                if a < b {
                    assert(keyed@[a].at < keyed@[b].at);
                } else {
                    assert(keyed@[b].at < keyed@[a].at);
                }
            }
        }
        let sorted = sort_keyed(keyed);
        let take = if overflow < sorted.len() { overflow } else { sorted.len() };
        let mut doomed: Vec<bool> = Vec::new();
        let mut z: usize = 0;
        while z < n
            invariant
                z <= n,
                doomed@.len() == z,
                forall|a: int| 0 <= a < z ==> !doomed@[a],
            decreases n - z,
        {
            doomed.push(false);
            z = z + 1;
        }
        let ghost entries = sorted@;
        proof {
            assert forall|e: Keyed| #[trigger] entries.contains(e) implies {
                &&& e.at < n
                &&& e.k0 == shelf(self.nodes@[e.at as int]@)
                &&& e.k1 == age(self.nodes@[e.at as int]@)
                &&& e.k2 == 0 && e.k3 == 0
                &&& self.nodes@[e.at as int].status.terminal()
            } by {
                assert(keyed@.contains(e));
                let k = choose|k: int| 0 <= k < keyed@.len() && keyed@[k] == e;
                assert(keyed@[k] == e);
            }
        }
        let mut q: usize = 0;
        while q < take
            invariant
                q <= take <= entries.len(),
                sorted@ == entries,
                doomed@.len() == n,
                forall|e: Keyed| #[trigger] entries.contains(e) ==> e.at < n,
                forall|a: int| 0 <= a < n ==> (#[trigger] doomed@[a] <==> exists|p: int| 0 <= p < q && entries[p].at == a),
            decreases take - q,
        {
            proof {
                assert(entries.contains(entries[q as int]));
            }
            let at = sorted[q].at;
            let ghost d0 = doomed@;
            doomed.set(at, true);
            proof {
                assert forall|a: int| 0 <= a < n implies (#[trigger] doomed@[a] <==> exists|p: int| 0 <= p < q + 1 && entries[p].at == a) by {
                    if a == at {
                    } else {
                        assert(doomed@[a] == d0[a]);
                        if exists|p: int| 0 <= p < q + 1 && entries[p].at == a {
                            let p = choose|p: int| 0 <= p < q + 1 && entries[p].at == a;
                            assert(p < q);
                        }
                    }
                }
            }
            q = q + 1;
        }
        proof {
            self.lemma_prune_plan(entries, keyed@, take as int, overflow as int, doomed@);
        }
        doomed
    }

    proof fn lemma_prune_plan(&self, entries: Seq<Keyed>, keyed: Seq<Keyed>, take: int, overflow: int, doomed: Seq<bool>)
        requires
            self.wf(),
            self.nodes@.len() > MAX_WORK_NODES,
            overflow == self.nodes@.len() - MAX_WORK_NODES,
            take == if overflow < entries.len() { overflow } else { entries.len() as int },
            keyed_sorted(entries),
            entries.len() == keyed.len(),
            forall|e: Keyed| entries.contains(e) <==> keyed.contains(e),
            forall|e: Keyed| #[trigger] entries.contains(e) ==> {
                &&& e.at < self.nodes@.len()
                &&& e.k0 == shelf(self.nodes@[e.at as int]@)
                &&& e.k1 == age(self.nodes@[e.at as int]@)
                &&& e.k2 == 0 && e.k3 == 0
                &&& self.nodes@[e.at as int].status.terminal()
            },
            forall|j: int| 0 <= j < self.nodes@.len() && (#[trigger] self.nodes@[j]).status.terminal() ==>
                exists|k: int| 0 <= k < keyed.len() && (#[trigger] keyed[k]).at == j,
            doomed.len() == self.nodes@.len(),
            forall|a: int| 0 <= a < self.nodes@.len() ==> (#[trigger] doomed[a] <==> exists|p: int| 0 <= p < take && entries[p].at == a),
        ensures
            forall|i: int| 0 <= i < doomed.len() && #[trigger] doomed[i] ==> self.nodes@[i].status.terminal(),
            forall|i: int, j: int| 0 <= i < doomed.len() && 0 <= j < doomed.len() && #[trigger] doomed[i] && !#[trigger] doomed[j]
                && self.nodes@[j].status.terminal() ==> prune_before(self.nodes@[i]@, self.nodes@[j]@),
            marked_ids(self.nodes@, doomed).finite(),
            marked_ids(self.nodes@, doomed).len() == overflow_drop(self@.nodes.dom().len(), terminal_ids(self@.nodes).len()),
    {
        let nodes = self.nodes@;
        let n = nodes.len();
        let vs = views(nodes);
        assert forall|a: int, b: int| 0 <= a < n && 0 <= b < n && a != b implies nodes[a].id != nodes[b].id by {
            assert(vs[a] == nodes[a]@ && vs[b] == nodes[b]@);
            if a < b {
                assert(vs[a].id != vs[b].id);
            } else {
                assert(vs[b].id != vs[a].id);
            }
        }
        // Each entry position names a distinct node.
        assert forall|p: int, p2: int| 0 <= p < entries.len() && 0 <= p2 < entries.len() && p != p2 implies entries[p].at != entries[p2].at by {
            assert(entries.contains(entries[p]));
            assert(entries.contains(entries[p2]));
            if entries[p].at == entries[p2].at {
                assert(entries[p] == entries[p2]);
                if p < p2 {
                    assert(keyed_lt(entries[p], entries[p2]));
                } else {
                    assert(keyed_lt(entries[p2], entries[p]));
                }
            }
        }
        assert forall|i: int| 0 <= i < doomed.len() && #[trigger] doomed[i] implies nodes[i].status.terminal() by {
            let p = choose|p: int| 0 <= p < take && entries[p].at == i;
            assert(entries.contains(entries[p]));
        }
        assert forall|i: int, j: int| 0 <= i < doomed.len() && 0 <= j < doomed.len() && #[trigger] doomed[i] && !#[trigger] doomed[j]
            && nodes[j].status.terminal() implies prune_before(nodes[i]@, nodes[j]@) by {
            let p = choose|p: int| 0 <= p < take && entries[p].at == i;
            let k = choose|k: int| 0 <= k < keyed.len() && (#[trigger] keyed[k]).at == j;
            assert(keyed.contains(keyed[k]));
            assert(entries.contains(keyed[k]));
            let p2 = choose|p2: int| 0 <= p2 < entries.len() && entries[p2] == keyed[k];
            assert(p2 >= take);
            assert(keyed_lt(entries[p], entries[p2]));
            assert(entries.contains(entries[p]));
        }
        // Counting.
        let dseq = Seq::new(take as nat, |p: int| nodes[entries[p].at as int].id);
        let tseq = Seq::new(entries.len(), |p: int| nodes[entries[p].at as int].id);
        assert forall|p: int| 0 <= p < entries.len() implies #[trigger] entries.contains(entries[p]) by {}
        assert forall|a: int, b: int| 0 <= a < tseq.len() && 0 <= b < tseq.len() && a != b implies tseq[a] != tseq[b] by {
            assert(entries.contains(entries[a]));
            assert(entries.contains(entries[b]));
            assert(entries[a].at != entries[b].at);
        }
        assert(tseq.no_duplicates());
        assert forall|a: int, b: int| 0 <= a < dseq.len() && 0 <= b < dseq.len() && a != b implies dseq[a] != dseq[b] by {
            assert(dseq[a] == tseq[a] && dseq[b] == tseq[b]);
        }
        assert(dseq.no_duplicates());
        dseq.unique_seq_to_set();
        tseq.unique_seq_to_set();
        vstd::seq_lib::seq_to_set_is_finite(dseq);
        assert(marked_ids(nodes, doomed) =~= dseq.to_set()) by {
            assert forall|k: WorkId| marked_ids(nodes, doomed).contains(k) <==> dseq.to_set().contains(k) by {
                if marked_ids(nodes, doomed).contains(k) {
                    let i = choose|i: int| 0 <= i < nodes.len() && doomed[i] && (#[trigger] nodes[i]).id == k;
                    let p = choose|p: int| 0 <= p < take && entries[p].at == i;
                    assert(dseq[p] == k);
                }
                if dseq.to_set().contains(k) {
                    let p = choose|p: int| 0 <= p < dseq.len() && dseq[p] == k;
                    assert(entries.contains(entries[p]));
                    assert(doomed[entries[p].at as int]);
                }
            }
        }
        lemma_map_keys_views(nodes);
        lemma_dom_len(vs);
        assert(terminal_ids(self@.nodes) =~= tseq.to_set()) by {
            assert forall|k: WorkId| terminal_ids(self@.nodes).contains(k) <==> tseq.to_set().contains(k) by {
                if terminal_ids(self@.nodes).contains(k) {
                    let j = lemma_map_key(vs, k);
                    assert(vs[j] == nodes[j]@);
                    let kk = choose|kk: int| 0 <= kk < keyed.len() && (#[trigger] keyed[kk]).at == j;
                    assert(keyed.contains(keyed[kk]));
                    let p = choose|p: int| 0 <= p < entries.len() && entries[p] == keyed[kk];
                    assert(tseq[p] == k);
                }
                if tseq.to_set().contains(k) {
                    let p = choose|p: int| 0 <= p < tseq.len() && tseq[p] == k;
                    let at = entries[p].at as int;
                    assert(entries.contains(entries[p]));
                    assert(vs[at] == nodes[at]@);
                    lemma_map_at(vs, at);
                }
            }
        }
    }

    /// Drop the marked nodes.
    fn remove_marked(&mut self, doomed: Vec<bool>)
        requires
            old(self).wf(),
            doomed@.len() == old(self).nodes@.len(),
        ensures
            final(self).wf(),
            final(self)@.ledger == old(self)@.ledger,
            final(self)@.next_seq == old(self)@.next_seq,
            final(self)@.mint_seq == old(self)@.mint_seq,
            final(self)@.nodes == old(self)@.nodes.remove_keys(marked_ids(old(self).nodes@, doomed@)),
    {
        let ghost g0 = self@;
        let ghost n0 = self.nodes@;
        let mut i = self.nodes.len();
        proof {
            lemma_map_keys_views(n0);
            assert(g0.nodes.remove_keys(Set::new(|k: WorkId| exists|q: int| i <= q < n0.len() && doomed@[q] && (#[trigger] n0[q]).id == k)) =~= g0.nodes);
        }
        while i > 0
            invariant
                self.wf(),
                i <= n0.len(),
                doomed@.len() == n0.len(),
                ids_distinct(views(n0)),
                g0.nodes == node_map(views(n0)),
                self.nodes@.len() >= i,
                forall|q: int| 0 <= q < i ==> (#[trigger] self.nodes@[q]) == n0[q],
                self@.ledger == g0.ledger,
                self@.next_seq == g0.next_seq,
                self@.mint_seq == g0.mint_seq,
                self@.nodes == g0.nodes.remove_keys(Set::new(|k: WorkId| exists|q: int| i <= q < n0.len() && doomed@[q] && (#[trigger] n0[q]).id == k)),
            decreases i,
        {
            let ghost before = self@.nodes;
            let ghost cur = self.nodes@;
            i = i - 1;
            if doomed[i] {
                proof {
                    assert(views(cur)[i as int] == cur[i as int]@);
                    lemma_views_remove(cur, i as int);
                    lemma_map_remove(views(cur), i as int);
                }
                self.nodes.remove(i);
                proof {
                    assert forall|q: int| 0 <= q < i implies (#[trigger] self.nodes@[q]) == n0[q] by {
                        assert(self.nodes@[q] == cur[q]);
                    }
                }
            }
            proof {
                let s_new = Set::new(|k: WorkId| exists|q: int| i <= q < n0.len() && doomed@[q] && (#[trigger] n0[q]).id == k);
                let s_old = Set::new(|k: WorkId| exists|q: int| i + 1 <= q < n0.len() && doomed@[q] && (#[trigger] n0[q]).id == k);
                assert(cur[i as int] == n0[i as int]);
                if doomed@[i as int] {
                    assert(s_new =~= s_old.insert(n0[i as int].id));
                    assert(self@.nodes =~= g0.nodes.remove_keys(s_new));
                } else {
                    assert(s_new =~= s_old);
                }
            }
        }
        proof {
            assert(Set::new(|k: WorkId| exists|q: int| 0 <= q < n0.len() && doomed@[q] && (#[trigger] n0[q]).id == k) =~= marked_ids(n0, doomed@));
        }
    }

    /// Drop finished nodes past the cap: archived first, then those finished
    /// longest ago.
    fn prune(&mut self)
        requires
            old(self).wf(),
        ensures
            final(self).wf(),
            pruned_from(old(self)@, final(self)@),
    {
        proof {
            lemma_dom_len(views(self.nodes@));
        }
        if self.nodes.len() <= MAX_WORK_NODES {
            assert(self@.nodes.dom() - self@.nodes.dom() =~= Set::<WorkId>::empty());
            return;
        }
        let ghost g0 = self@;
        let ghost n0 = self.nodes@;
        let doomed = self.prune_plan();
        let ghost d = doomed@;
        self.remove_marked(doomed);
        proof {
            lemma_map_keys_views(n0);
            let dead = marked_ids(n0, d);
            assert(g0.nodes.dom() - self@.nodes.dom() =~= dead) by {
                assert forall|k: WorkId| dead.contains(k) implies g0.nodes.dom().contains(k) by {
                    let i = choose|i: int| 0 <= i < n0.len() && d[i] && (#[trigger] n0[i]).id == k;
                    assert(views(n0)[i] == n0[i]@);
                    lemma_map_at(views(n0), i);
                }
            }
            assert forall|k: WorkId| #[trigger] g0.nodes.contains_key(k) && !self@.nodes.contains_key(k) implies g0.nodes[k].status.terminal() by {
                let i = choose|i: int| 0 <= i < n0.len() && d[i] && (#[trigger] n0[i]).id == k;
                assert(views(n0)[i] == n0[i]@);
                lemma_map_at(views(n0), i);
            }
            assert forall|r: WorkId, k: WorkId|
                #![trigger g0.nodes.contains_key(r), self@.nodes.contains_key(k)]
                g0.nodes.contains_key(r) && !self@.nodes.contains_key(r) && self@.nodes.contains_key(k)
                && g0.nodes[k].status.terminal() implies prune_before(g0.nodes[r], g0.nodes[k]) by {
                let i = choose|i: int| 0 <= i < n0.len() && d[i] && (#[trigger] n0[i]).id == r;
                let j = lemma_map_key(views(n0), k);
                assert(views(n0)[i] == n0[i]@);
                assert(views(n0)[j] == n0[j]@);
                lemma_map_at(views(n0), i);
                if d[j] {
                    assert(dead.contains(k));
                }
            }
        }
    }

    /// Mint a new work id from the next mint sequence number, salted with the time.
    pub fn mint_id_at(&mut self, kind: WorkKind, parent: WorkId, summary: &str, now: u64) -> (id: WorkId)
        requires
            old(self).wf(),
        ensures
            final(self).wf(),
            final(self)@ == (GraphView { mint_seq: bump(old(self)@.mint_seq), ..old(self)@ }),
            id == minted(old(self)@.mint_seq, kind, parent, summary@, now),
    {
        self.mint_seq = self.mint_seq.saturating_add(1);
        let salt = u64_le(now);
        let role = match kind {
            WorkKind::Goal => "work-goal",
            WorkKind::Step => "work-step",
            WorkKind::Task => "work-task",
            WorkKind::Molecule => "work-molecule",
            WorkKind::Unset => "work",
        };
        mint_work_id(parent, WorkId::zero(), role, summary, self.mint_seq, salt.as_slice())
    }

    /// Mint a new work id (xxh3 family), salted with the clock.
    pub fn mint_id(&mut self, kind: WorkKind, parent: WorkId, summary: &str) -> (id: WorkId)
        requires
            old(self).wf(),
        ensures
            final(self).wf(),
            final(self)@ == (GraphView { mint_seq: bump(old(self)@.mint_seq), ..old(self)@ }),
            exists|now: u64| id == minted(old(self)@.mint_seq, kind, parent, summary@, now),
    {
        let now = Self::now();
        self.mint_id_at(kind, parent, summary, now)
    }

    /// Create or update a node. A zero id mints one. Readiness is derived,
    /// never asserted; claim and complete own the live and terminal statuses.
    #[verifier::spinoff_prover]
    #[verifier::rlimit(80)]
    pub fn upsert_at(&mut self, id: WorkId, fields: WorkFields<'_>, now: u64) -> (r: Result<WorkId, String>)
        requires
            old(self).wf(),
        ensures
            final(self).wf(),
            upsert_post(old(self)@, final(self)@, id, fields, now, r),
    {
        let WorkFields { kind, status, role, parent, actor, summary } = fields;
        let mut id = id;
        if id.is_zero() {
            id = self.mint_id_at(kind, parent, summary, now);
        }
        if !parent.is_zero() && (parent == id || self.parent_reaches(parent, id)) {
            return Err(String::from_str("upsert: parent cycle"));
        }
        let ghost g1 = self@;
        let i = match self.find(id) {
            Some(i) => {
                proof {
                    assert(self@.nodes.insert(id, self@.nodes[id]) =~= self@.nodes);
                }
                i
            },
            None => {
                let fresh = WorkNode {
                    id,
                    kind,
                    status: WorkStatus::Todo,
                    role,
                    assignee: WorkId::zero(),
                    parent,
                    deps: Vec::new(),
                    cas_gen: 1,
                    created_unix: now,
                    updated_unix: now,
                    finished_unix: 0,
                    summary: String::new(),
                    archived: false,
                };
                let ghost old_nodes = self.nodes@;
                proof {
                    lemma_views_push(old_nodes, fresh);
                    lemma_map_push(views(old_nodes), fresh@);
                }
                self.nodes.push(fresh);
                proof {
                    assert(self.nodes@[old_nodes.len() as int] == fresh);
                    assert(fresh@.deps =~= Seq::<WorkId>::empty());
                    assert(fresh@.summary =~= Seq::<char>::empty());
                }
                self.nodes.len() - 1
            },
        };
        proof {
            assert(views(self.nodes@)[i as int] == self.nodes@[i as int]@);
            lemma_map_at(views(self.nodes@), i as int);
        }
        let ghost n0 = self.nodes@[i as int]@;
        assert(self@ == put(g1, n0));
        let status0 = self.nodes[i].status;
        if status0.is_terminal() {
            return Err(String::from_str("upsert: node is terminal"));
        }
        let live = status0.is_live();
        if live && status != status0 {
            return Err(String::from_str("upsert: node is claimed; use completeWork"));
        }
        match status {
            WorkStatus::Todo | WorkStatus::Ready | WorkStatus::Blocked => {},
            _ => {
                return Err(String::from_str("upsert: status claim/run/terminal requires claimWork or completeWork"));
            },
        }
        let ghost old_nodes = self.nodes@;
        {
            let n = &mut self.nodes[i];
            n.status = status;
            if kind != WorkKind::Unset {
                n.kind = kind;
            }
            if role != WorkRole::Unset {
                n.role = role;
            }
            if !parent.is_zero() {
                n.parent = parent;
            }
            if !summary.is_empty() {
                n.summary = String::from_str(summary);
            }
            n.updated_unix = now;
        }
        proof {
            Self::lemma_replaced(old_nodes, i as int, self.nodes@);
            assert(self.nodes@[i as int]@ == upserted(n0, fields, now));
            assert(self@.nodes =~= put(g1, upserted(n0, fields, now)).nodes);
        }
        self.recompute_ready(id, now);
        self.push_ledger(id, actor, "upsert", now);
        self.prune();
        Ok(id)
    }

    /// Create or update a node, at the clock's time.
    pub fn upsert(&mut self, id: WorkId, fields: WorkFields<'_>) -> (r: Result<WorkId, String>)
        requires
            old(self).wf(),
        ensures
            final(self).wf(),
            exists|now: u64| upsert_post(old(self)@, final(self)@, id, fields, now, r),
    {
        let now = Self::now();
        self.upsert_at(id, fields, now)
    }

    /// Every node, newest first.
    pub fn list(&self) -> (r: Vec<&WorkNode>)
        requires
            self.wf(),
        ensures
            lists(self@.nodes, r@, |n: NodeView| listed(n, true, true), |a: NodeView, b: NodeView| newer(a, b)),
    {
        self.list_view(true, true)
    }

    /// The nodes a list shows, newest first. The default live view hides
    /// terminal and archived nodes.
    pub fn list_view(&self, show_terminal: bool, show_archived: bool) -> (r: Vec<&WorkNode>)
        requires
            self.wf(),
        ensures
            lists(self@.nodes, r@, |n: NodeView| listed(n, show_terminal, show_archived), |a: NodeView, b: NodeView| newer(a, b)),
    {
        let ghost keep = |n: NodeView| listed(n, show_terminal, show_archived);
        let mut keyed: Vec<Keyed> = Vec::new();
        let mut i: usize = 0;
        while i < self.nodes.len()
            invariant
                self.wf(),
                i <= self.nodes@.len(),
                forall|a: int, b: int| 0 <= a < b < keyed@.len() ==> (#[trigger] keyed@[a]).at < (#[trigger] keyed@[b]).at,
                forall|k: int| 0 <= k < keyed@.len() ==> {
                    let e = #[trigger] keyed@[k];
                    &&& e.at < i
                    &&& e.k0 == u64::MAX - self.nodes@[e.at as int].updated_unix
                    &&& e.k1 == self.nodes@[e.at as int].id.hi
                    &&& e.k2 == self.nodes@[e.at as int].id.lo
                    &&& e.k3 == 0
                    &&& listed(self.nodes@[e.at as int]@, show_terminal, show_archived)
                },
                forall|j: int| 0 <= j < i && listed((#[trigger] self.nodes@[j])@, show_terminal, show_archived) ==>
                    exists|k: int| 0 <= k < keyed@.len() && (#[trigger] keyed@[k]).at == j,
            decreases self.nodes@.len() - i,
        {
            let n = &self.nodes[i];
            let shown = if n.archived {
                show_archived
            } else if n.status.is_terminal() {
                show_terminal
            } else {
                true
            };
            if shown {
                let ghost before = keyed@;
                keyed.push(Keyed { k0: u64::MAX - n.updated_unix, k1: n.id.hi, k2: n.id.lo, k3: 0, at: i });
                assert(keyed@[before.len() as int].at == i);
                assert forall|j: int| 0 <= j < i && listed((#[trigger] self.nodes@[j])@, show_terminal, show_archived) implies
                    exists|k: int| 0 <= k < keyed@.len() && (#[trigger] keyed@[k]).at == j by {
                    let k = choose|k: int| 0 <= k < before.len() && (#[trigger] before[k]).at == j;
                    assert(keyed@[k] == before[k]);
                }
            }
            i = i + 1;
        }
        assert(keyed@.no_duplicates()) by {
            assert forall|a: int, b: int| 0 <= a < keyed@.len() && 0 <= b < keyed@.len() && a != b implies keyed@[a] != keyed@[b] by {
                if a < b {
                    assert(keyed@[a].at < keyed@[b].at);
                } else {
                    assert(keyed@[b].at < keyed@[a].at);
                }
            }
        }
        let sorted = sort_keyed(keyed);
        let mut out: Vec<&WorkNode> = Vec::new();
        let mut j: usize = 0;
        while j < sorted.len()
            invariant
                self.wf(),
                j <= sorted@.len(),
                forall|e: Keyed| sorted@.contains(e) <==> keyed@.contains(e),
                forall|k: int| 0 <= k < keyed@.len() ==> (#[trigger] keyed@[k]).at < self.nodes@.len(),
                out@.len() == j,
                forall|k: int| 0 <= k < j ==> *(#[trigger] out@[k]) == self.nodes@[sorted@[k].at as int],
            decreases sorted@.len() - j,
        {
            proof {
                assert(sorted@.contains(sorted@[j as int]));
                let kk = choose|kk: int| 0 <= kk < keyed@.len() && keyed@[kk] == sorted@[j as int];
            }
            out.push(&self.nodes[sorted[j].at]);
            j = j + 1;
        }
        proof {
            self.lemma_sorted_listing(keyed@, sorted@, out@, |n: NodeView| listed(n, show_terminal, show_archived), 0);
        }
        out
    }

    /// A sorted run of entries, each naming a node that passes `keep`, with
    /// every passing node named, lists those nodes in key order.
    proof fn lemma_sorted_listing<'a>(&self, keyed: Seq<Keyed>, sorted: Seq<Keyed>, out: Seq<&'a WorkNode>, keep: spec_fn(NodeView) -> bool, mode: int)
        requires
            self.wf(),
            keyed_sorted(sorted),
            sorted.len() == keyed.len(),
            forall|e: Keyed| sorted.contains(e) <==> keyed.contains(e),
            out.len() == sorted.len(),
            forall|k: int| 0 <= k < out.len() ==> *(#[trigger] out[k]) == self.nodes@[sorted[k].at as int],
            mode == 0,
            forall|k: int| 0 <= k < keyed.len() ==> {
                let e = #[trigger] keyed[k];
                &&& e.at < self.nodes@.len()
                &&& e.k0 == u64::MAX - self.nodes@[e.at as int].updated_unix
                &&& e.k1 == self.nodes@[e.at as int].id.hi
                &&& e.k2 == self.nodes@[e.at as int].id.lo
                &&& e.k3 == 0
                &&& keep(self.nodes@[e.at as int]@)
            },
            forall|j: int| 0 <= j < self.nodes@.len() && keep((#[trigger] self.nodes@[j])@) ==>
                exists|k: int| 0 <= k < keyed.len() && (#[trigger] keyed[k]).at == j,
        ensures
            lists(self@.nodes, out, keep, |a: NodeView, b: NodeView| newer(a, b)),
    {
        let nodes = self.nodes@;
        lemma_map_keys_views(nodes);
        assert forall|e: Keyed| #[trigger] sorted.contains(e) implies {
            &&& e.at < nodes.len()
            &&& e.k0 == u64::MAX - nodes[e.at as int].updated_unix
            &&& e.k1 == nodes[e.at as int].id.hi
            &&& e.k2 == nodes[e.at as int].id.lo
            &&& keep(nodes[e.at as int]@)
        } by {
            assert(keyed.contains(e));
            let k = choose|k: int| 0 <= k < keyed.len() && keyed[k] == e;
            assert(keyed[k] == e);
        }
        assert forall|i: int| 0 <= i < out.len() implies self@.nodes.contains_key((#[trigger] out[i]).id) && out[i]@ == self@.nodes[out[i].id] && keep(out[i]@) by {
            assert(sorted.contains(sorted[i]));
            lemma_map_at(views(nodes), sorted[i].at as int);
        }
        assert forall|k: WorkId| self@.nodes.contains_key(k) && keep(self@.nodes[k]) implies exists|i: int| 0 <= i < out.len() && (#[trigger] out[i]).id == k by {
            let j = lemma_map_key(views(nodes), k);
            let kk = choose|kk: int| 0 <= kk < keyed.len() && (#[trigger] keyed[kk]).at == j;
            assert(keyed.contains(keyed[kk]));
            let i = choose|i: int| 0 <= i < sorted.len() && sorted[i] == keyed[kk];
            assert(out[i].id == k);
        }
        assert forall|i: int, j: int| 0 <= i < j < out.len() implies newer((#[trigger] out[i])@, (#[trigger] out[j])@) by {
            assert(sorted.contains(sorted[i]));
            assert(sorted.contains(sorted[j]));
            assert(keyed_lt(sorted[i], sorted[j]));
            if sorted[i].at != sorted[j].at {
                if sorted[i].at < sorted[j].at {
                    assert(views(nodes)[sorted[i].at as int].id != views(nodes)[sorted[j].at as int].id);
                } else {
                    assert(views(nodes)[sorted[j].at as int].id != views(nodes)[sorted[i].at as int].id);
                }
            }
        }
    }

    /// The graph a decoded snapshot holds: its counters, and its nodes by
    /// id, a later node replacing an earlier one with the same id.
    pub fn from_snapshot(s: Snapshot) -> (g: WorkGraph)
        ensures
            g.wf(),
            g@ == loaded(s.next_seq, s.mint_seq, views(s.nodes@)),
    {
        let mut g = WorkGraph { nodes: Vec::new(), ledger: VecDeque::new(), next_seq: s.next_seq, mint_seq: s.mint_seq };
        let ghost src = views(s.nodes@);
        let mut i: usize = 0;
        proof {
            assert(src.take(0) =~= Seq::<NodeView>::empty());
            assert(g@.nodes =~= last_wins(src.take(0)));
        }
        while i < s.nodes.len()
            invariant
                src == views(s.nodes@),
                i <= s.nodes@.len(),
                g.wf(),
                g.ledger@ == Seq::<WorkLedgerEntry>::empty(),
                g.next_seq == s.next_seq,
                g.mint_seq == s.mint_seq,
                g@.nodes == last_wins(src.take(i as int)),
            decreases s.nodes@.len() - i,
        {
            let n = s.nodes[i].duplicate();
            let ghost before = g.nodes@;
            proof {
                assert(src[i as int] == n@);
                assert(src.take(i + 1).drop_last() =~= src.take(i as int));
                assert(src.take(i + 1).last() == n@);
            }
            match g.find(n.id) {
                Some(j) => {
                    g.nodes.set(j, n);
                    proof {
                        Self::lemma_replaced(before, j as int, g.nodes@);
                    }
                },
                None => {
                    g.nodes.push(n);
                    proof {
                        lemma_views_push(before, g.nodes@[before.len() as int]);
                        assert(g.nodes@ =~= before.push(g.nodes@[before.len() as int]));
                        lemma_map_push(views(before), g.nodes@[before.len() as int]@);
                    }
                },
            }
            i = i + 1;
        }
        proof {
            assert(src.take(s.nodes@.len() as int) =~= src);
            assert(g@ =~= loaded(s.next_seq, s.mint_seq, src));
        }
        g
    }

    /// The graph in snapshot bytes, empty when there are none or they are no
    /// snapshot: a writer's view. Readers want [`WorkGraph::open_dir`].
    pub fn load_dir(snapshot: Option<&[u8]>) -> (g: WorkGraph)
        ensures
            g.wf(),
            match snapshot {
                Some(b) => loads_from(b@, g@) || (no_snapshot(b@) && g@ == empty_graph()),
                None => g@ == empty_graph(),
            },
    {
        match snapshot {
            Some(b) => match decode_snapshot(b) {
                Ok(s) => {
                    let ghost f = s.format@;
                    let ghost ns = views(s.nodes@);
                    let g = Self::from_snapshot(s);
                    proof {
                        assert(snapshot_fits(f, ns) && b@ == snapshot_bytes(f, g@.next_seq, g@.mint_seq, ns) && g@ == loaded(g@.next_seq, g@.mint_seq, ns));
                    }
                    g
                },
                Err(_) => {
                    let g = WorkGraph::default();
                    assert(g@ =~= empty_graph());
                    g
                },
            },
            None => {
                let g = WorkGraph::default();
                assert(g@ =~= empty_graph());
                g
            },
        }
    }

    /// The graph in a directory, or why there is none: no directory, no
    /// snapshot, or one that cannot be read. Readers need the difference.
    /// `is_dir` says whether the directory exists; `snapshot` holds the
    /// snapshot file's bytes, or why they could not be read, or nothing when
    /// there is no such file.
    pub fn open_dir(dir: &str, is_dir: bool, snapshot: Option<Result<&[u8], String>>) -> (r: Result<WorkGraph, Absent>)
        ensures
            !is_dir ==> (r matches Err(Absent::NoDirectory(d)) && d@ == dir@),
            is_dir && snapshot is None ==> (r matches Err(Absent::NoSnapshot(d)) && d@ == dir@),
            is_dir ==> (snapshot matches Some(Err(why)) ==> (r matches Err(Absent::Unreadable(d, w)) && d@ == dir@ && w@ == why@)),
            is_dir ==> (snapshot matches Some(Ok(b)) ==> match r {
                Ok(g) => g.wf() && loads_from(b@, g@),
                Err(a) => no_snapshot(b@) && (a matches Absent::Unreadable(d, w) && d@ == dir@ && w@ == not_a_snapshot()),
            }),
    {
        if !is_dir {
            return Err(Absent::NoDirectory(dir.to_string()));
        }
        match snapshot {
            None => Err(Absent::NoSnapshot(dir.to_string())),
            Some(Err(why)) => Err(Absent::Unreadable(dir.to_string(), why)),
            Some(Ok(b)) => match decode_snapshot(b) {
                Ok(s) => {
                    let ghost f = s.format@;
                    let ghost ns = views(s.nodes@);
                    let g = Self::from_snapshot(s);
                    proof {
                        assert(snapshot_fits(f, ns) && b@ == snapshot_bytes(f, g@.next_seq, g@.mint_seq, ns) && g@ == loaded(g@.next_seq, g@.mint_seq, ns));
                    }
                    Ok(g)
                },
                Err(why) => Err(Absent::Unreadable(dir.to_string(), why)),
            },
        }
    }

    /// The snapshot bytes of the graph, newest node first, to be written in
    /// place of the directory's snapshot. Refused when a node's dependencies
    /// or summary, or the node count, outgrow a `u32` length.
    pub fn save_dir(&self) -> (r: Result<Vec<u8>, String>)
        requires
            self.wf(),
        ensures
            r matches Ok(b) ==> exists|ns: Seq<NodeView>|
                #[trigger] in_list_order(self@.nodes, ns) && b@ == snapshot_bytes(FORMAT_V1@, self@.next_seq, self@.mint_seq, ns),
            r matches Err(e) ==> e@ == "snapshot: graph too large"@,
            r is Err <==> self@.nodes.len() > u32::MAX || exists|k: WorkId| #[trigger] self@.nodes.contains_key(k) && !node_fits(self@.nodes[k]),
    {
        let listed = self.list();
        let ghost m = self@.nodes;
        let ghost rv = ref_views(listed@);
        proof {
            self.lemma_listing_all(listed@);
            reveal_strlit("claimdag/v1");
            vstd::utf8::is_ascii_chars_encode_utf8(FORMAT_V1@);
            assert(text_fits(FORMAT_V1@));
        }
        if listed.len() > 4294967295usize {
            return Err("snapshot: graph too large".to_string());
        }
        let mut i: usize = 0;
        while i < listed.len()
            invariant
                i <= listed@.len(),
                rv == ref_views(listed@),
                m == self@.nodes,
                in_list_order(m, rv),
                forall|k: int| 0 <= k < i ==> node_fits((#[trigger] listed@[k])@),
            decreases listed@.len() - i,
        {
            let n = listed[i];
            if n.deps.len() > 4294967295usize || n.summary.as_str().as_bytes().len() > 4294967295usize {
                proof {
                    assert(rv[i as int] == listed@[i as int]@);
                    assert(m.contains_key(rv[i as int].id) && !node_fits(m[rv[i as int].id]));
                }
                return Err("snapshot: graph too large".to_string());
            }
            i = i + 1;
        }
        proof {
            assert(snapshot_fits(FORMAT_V1@, rv)) by {
                assert forall|k: int| 0 <= k < rv.len() implies node_fits(#[trigger] rv[k]) by {
                    assert(rv[k] == listed@[k]@);
                }
            }
            assert forall|k: WorkId| #[trigger] m.contains_key(k) implies node_fits(m[k]) by {
                let j = choose|j: int| 0 <= j < rv.len() && (#[trigger] rv[j]).id == k;
                assert(rv[j] == listed@[j]@);
            }
        }
        let b = encode_snapshot(FORMAT_V1, self.next_seq, self.mint_seq, &listed);
        Ok(b)
    }

    /// A full listing holds every node once, newest first, and no more
    /// nodes than the graph.
    proof fn lemma_listing_all<'a>(&self, r: Seq<&'a WorkNode>)
        requires
            self.wf(),
            lists(self@.nodes, r, |n: NodeView| listed(n, true, true), |a: NodeView, b: NodeView| newer(a, b)),
        ensures
            in_list_order(self@.nodes, ref_views(r)),
            r.len() == self@.nodes.len(),
    {
        let m = self@.nodes;
        let rv = ref_views(r);
        assert forall|i: int| 0 <= i < rv.len() implies m.contains_key((#[trigger] rv[i]).id) && m[rv[i].id] == rv[i] by {
            assert(rv[i] == r[i]@);
            assert(listed(r[i]@, true, true));
        }
        assert forall|k: WorkId| m.contains_key(k) implies exists|i: int| 0 <= i < rv.len() && (#[trigger] rv[i]).id == k by {
            assert(listed(m[k], true, true));
            let i = choose|i: int| 0 <= i < r.len() && (#[trigger] r[i]).id == k;
            assert(rv[i] == r[i]@);
        }
        assert forall|i: int, j: int| 0 <= i < j < rv.len() implies newer(#[trigger] rv[i], #[trigger] rv[j]) by {
            assert(rv[i] == r[i]@ && rv[j] == r[j]@);
        }
        // distinct ids: newer is a strict order on ids
        let ids = rv.map_values(|n: NodeView| n.id);
        assert(ids.no_duplicates()) by {
            assert forall|i: int, j: int| 0 <= i < ids.len() && 0 <= j < ids.len() && i != j implies ids[i] != ids[j] by {
                if i < j {
                    assert(newer(rv[i], rv[j]));
                } else {
                    assert(newer(rv[j], rv[i]));
                }
            }
        }
        ids.unique_seq_to_set();
        lemma_dom_len(views(self.nodes@));
        assert(ids.to_set() =~= m.dom()) by {
            assert forall|k: WorkId| ids.to_set().contains(k) <==> m.dom().contains(k) by {
                if ids.to_set().contains(k) {
                    let i = choose|i: int| 0 <= i < ids.len() && ids[i] == k;
                    assert(rv[i].id == k);
                }
                if m.dom().contains(k) {
                    let i = choose|i: int| 0 <= i < rv.len() && (#[trigger] rv[i]).id == k;
                    assert(ids[i] == k);
                }
            }
        }
    }

    /// The longest chain of unfinished work waiting on each node; finished
    /// and archived nodes count for nothing.
    pub fn critical_depth(&self) -> (r: DepthMap)
        requires
            self.wf(),
        ensures
            r@.dom() == self@.nodes.dom(),
            acyclic(self@.nodes) ==> r@ == depth_of(self@.nodes),
    {
        depths_of(&self.nodes)
    }

    /// The nodes a seat may take right now: unblocked and unfinished, the
    /// test `claim` makes. Deepest chain first by the critical depths this
    /// graph gives, then most recently touched, then id.
    pub fn ready_view(&self) -> (r: Vec<&WorkNode>)
        requires
            self.wf(),
        ensures
            exists|d: Map<WorkId, u32>|
                #[trigger] ready_listing(self@.nodes, d, r@) && d.dom() == self@.nodes.dom()
                    && (acyclic(self@.nodes) ==> d == depth_of(self@.nodes)),
    {
        let depth = self.critical_depth();
        self.ready_view_by(&depth)
    }

    /// The nodes a seat may take right now, ordered by these depths: deepest
    /// first, then most recently touched, then id. With the map
    /// `critical_depth` gave, this is the ready view.
    pub fn ready_view_by(&self, depth: &DepthMap) -> (r: Vec<&WorkNode>)
        requires
            self.wf(),
            depth@.dom() == self@.nodes.dom(),
        ensures
            ready_listing(self@.nodes, depth@, r@),
    {
        let ghost d = depth@;
        let ghost m = self@.nodes;
        proof {
            self.lemma_keys();
        }
        let mut keyed: Vec<Keyed> = Vec::new();
        let mut i: usize = 0;
        while i < self.nodes.len()
            invariant
                self.wf(),
                m == self@.nodes,
                d == depth@,
                d.dom() == m.dom(),
                i <= self.nodes@.len(),
                forall|a: int, b: int| 0 <= a < b < keyed@.len() ==> (#[trigger] keyed@[a]).at < (#[trigger] keyed@[b]).at,
                forall|k: int| 0 <= k < keyed@.len() ==> {
                    let e = #[trigger] keyed@[k];
                    &&& e.at < i
                    &&& e.k0 == u32::MAX - d[self.nodes@[e.at as int].id]
                    &&& e.k1 == u64::MAX - self.nodes@[e.at as int].updated_unix
                    &&& e.k2 == self.nodes@[e.at as int].id.hi
                    &&& e.k3 == self.nodes@[e.at as int].id.lo
                    &&& claimable(m, self.nodes@[e.at as int]@)
                },
                forall|j: int| 0 <= j < i && claimable(m, (#[trigger] self.nodes@[j])@) ==>
                    exists|k: int| 0 <= k < keyed@.len() && (#[trigger] keyed@[k]).at == j,
            decreases self.nodes@.len() - i,
        {
            let n = &self.nodes[i];
            if !n.archived && n.status.is_open() && self.deps_satisfied(i) {
                proof {
                    assert(views(self.nodes@)[i as int] == self.nodes@[i as int]@);
                    lemma_map_at(views(self.nodes@), i as int);
                }
                let here: u32 = match depth.get(&n.id) {
                    Some(v) => *v,
                    None => 0,
                };
                let ghost before = keyed@;
                keyed.push(Keyed { k0: (u32::MAX - here) as u64, k1: u64::MAX - n.updated_unix, k2: n.id.hi, k3: n.id.lo, at: i });
                assert(keyed@[before.len() as int].at == i);
                assert forall|j: int| 0 <= j < i && claimable(m, (#[trigger] self.nodes@[j])@) implies
                    exists|k: int| 0 <= k < keyed@.len() && (#[trigger] keyed@[k]).at == j by {
                    let k = choose|k: int| 0 <= k < before.len() && (#[trigger] before[k]).at == j;
                    assert(keyed@[k] == before[k]);
                }
            }
            i = i + 1;
        }
        assert(keyed@.no_duplicates()) by {
            assert forall|a: int, b: int| 0 <= a < keyed@.len() && 0 <= b < keyed@.len() && a != b implies keyed@[a] != keyed@[b] by {
                if a < b {
                    assert(keyed@[a].at < keyed@[b].at);
                } else {
                    assert(keyed@[b].at < keyed@[a].at);
                }
            }
        }
        let sorted = sort_keyed(keyed);
        let mut out: Vec<&WorkNode> = Vec::new();
        let mut j: usize = 0;
        while j < sorted.len()
            invariant
                self.wf(),
                j <= sorted@.len(),
                forall|e: Keyed| sorted@.contains(e) <==> keyed@.contains(e),
                forall|k: int| 0 <= k < keyed@.len() ==> (#[trigger] keyed@[k]).at < self.nodes@.len(),
                out@.len() == j,
                forall|k: int| 0 <= k < j ==> *(#[trigger] out@[k]) == self.nodes@[sorted@[k].at as int],
            decreases sorted@.len() - j,
        {
            proof {
                assert(sorted@.contains(sorted@[j as int]));
                let kk = choose|kk: int| 0 <= kk < keyed@.len() && keyed@[kk] == sorted@[j as int];
            }
            out.push(&self.nodes[sorted[j].at]);
            j = j + 1;
        }
        proof {
            self.lemma_ready_listing(d, keyed@, sorted@, out@);
        }
        out
    }

    /// A sorted run of ready-order entries, each naming a claimable node,
    /// with every claimable node named, lists those nodes in ready order.
    proof fn lemma_ready_listing<'a>(&self, d: Map<WorkId, u32>, keyed: Seq<Keyed>, sorted: Seq<Keyed>, out: Seq<&'a WorkNode>)
        requires
            self.wf(),
            keyed_sorted(sorted),
            sorted.len() == keyed.len(),
            forall|e: Keyed| sorted.contains(e) <==> keyed.contains(e),
            out.len() == sorted.len(),
            forall|k: int| 0 <= k < out.len() ==> *(#[trigger] out[k]) == self.nodes@[sorted[k].at as int],
            forall|k: int| 0 <= k < keyed.len() ==> {
                let e = #[trigger] keyed[k];
                &&& e.at < self.nodes@.len()
                &&& e.k0 == u32::MAX - d[self.nodes@[e.at as int].id]
                &&& e.k1 == u64::MAX - self.nodes@[e.at as int].updated_unix
                &&& e.k2 == self.nodes@[e.at as int].id.hi
                &&& e.k3 == self.nodes@[e.at as int].id.lo
                &&& claimable(self@.nodes, self.nodes@[e.at as int]@)
            },
            forall|j: int| 0 <= j < self.nodes@.len() && claimable(self@.nodes, (#[trigger] self.nodes@[j])@) ==>
                exists|k: int| 0 <= k < keyed.len() && (#[trigger] keyed[k]).at == j,
        ensures
            ready_listing(self@.nodes, d, out),
    {
        let nodes = self.nodes@;
        let m = self@.nodes;
        lemma_map_keys_views(nodes);
        assert forall|e: Keyed| #[trigger] sorted.contains(e) implies {
            &&& e.at < nodes.len()
            &&& e.k0 == u32::MAX - d[nodes[e.at as int].id]
            &&& e.k1 == u64::MAX - nodes[e.at as int].updated_unix
            &&& e.k2 == nodes[e.at as int].id.hi
            &&& e.k3 == nodes[e.at as int].id.lo
            &&& claimable(m, nodes[e.at as int]@)
        } by {
            assert(keyed.contains(e));
            let k = choose|k: int| 0 <= k < keyed.len() && keyed[k] == e;
            assert(keyed[k] == e);
        }
        assert forall|i: int| 0 <= i < out.len() implies m.contains_key((#[trigger] out[i]).id) && out[i]@ == m[out[i].id] && claimable(m, out[i]@) by {
            assert(sorted.contains(sorted[i]));
            lemma_map_at(views(nodes), sorted[i].at as int);
        }
        assert forall|k: WorkId| m.contains_key(k) && claimable(m, m[k]) implies exists|i: int| 0 <= i < out.len() && (#[trigger] out[i]).id == k by {
            let j = lemma_map_key(views(nodes), k);
            let kk = choose|kk: int| 0 <= kk < keyed.len() && (#[trigger] keyed[kk]).at == j;
            assert(keyed.contains(keyed[kk]));
            let i = choose|i: int| 0 <= i < sorted.len() && sorted[i] == keyed[kk];
            assert(out[i].id == k);
        }
        assert forall|i: int, j: int| 0 <= i < j < out.len() implies ready_before(d, (#[trigger] out[i])@, (#[trigger] out[j])@) by {
            assert(sorted.contains(sorted[i]));
            assert(sorted.contains(sorted[j]));
            assert(keyed_lt(sorted[i], sorted[j]));
            if sorted[i].at != sorted[j].at {
                if sorted[i].at < sorted[j].at {
                    assert(views(nodes)[sorted[i].at as int].id != views(nodes)[sorted[j].at as int].id);
                } else {
                    assert(views(nodes)[sorted[j].at as int].id != views(nodes)[sorted[i].at as int].id);
                }
            }
        }
    }

    /// Check the graph: every dependency present, no dependency loop, no
    /// parent loop.
    pub fn verify(&self) -> (r: Result<(), String>)
        requires
            self.wf(),
        ensures
            r is Ok <==> forall|k: WorkId| #[trigger] self@.nodes.contains_key(k) ==> node_sound(self@.nodes, k),
            r matches Err(e) ==> exists|k: WorkId| #[trigger] self@.nodes.contains_key(k) && verify_fault(self@.nodes, k, e@),
    {
        let ghost m = self@.nodes;
        proof {
            self.lemma_keys();
            lemma_map_keys_views(self.nodes@);
        }
        let mut i: usize = 0;
        while i < self.nodes.len()
            invariant
                self.wf(),
                m == self@.nodes,
                i <= self.nodes@.len(),
                forall|k: WorkId| #[trigger] m.contains_key(k) ==> m[k].id == k,
                forall|j: int| 0 <= j < i ==> node_sound(m, (#[trigger] self.nodes@[j]).id),
            decreases self.nodes@.len() - i,
        {
            let n = &self.nodes[i];
            proof {
                lemma_map_at(views(self.nodes@), i as int);
            }
            let mut j: usize = 0;
            while j < n.deps.len()
                invariant
                    self.wf(),
                    m == self@.nodes,
                    i < self.nodes@.len(),
                    n == self.nodes@[i as int],
                    m.contains_key(n.id),
                    m[n.id] == n@,
                    j <= n.deps@.len(),
                    forall|q: int| 0 <= q < j ==> m.contains_key(#[trigger] n.deps@[q]),
                decreases n.deps@.len() - j,
            {
                if self.find(n.deps[j]).is_none() {
                    let mut msg = String::from_str("verify: ");
                    let h = n.id.to_hex();
                    msg.append(h.as_str());
                    msg.append(" deps missing ");
                    let h2 = n.deps[j].to_hex();
                    msg.append(h2.as_str());
                    proof {
                        assert(n.deps@.contains(n.deps@[j as int]));
                        assert(!m.contains_key(n.deps@[j as int]));
                        assert(verify_fault(m, n.id, msg@));
                    }
                    return Err(msg);
                }
                j = j + 1;
            }
            let deps = crate::work::copy_ids(&n.deps);
            if self.reaches_from(deps, n.id) {
                let mut msg = String::from_str("verify: cycle involving ");
                let h = n.id.to_hex();
                msg.append(h.as_str());
                proof {
                    assert(m.contains_key(n.id));
                }
                return Err(msg);
            }
            if !n.parent.is_zero() && self.parent_reaches(n.parent, n.id) {
                let mut msg = String::from_str("verify: parent cycle involving ");
                let h = n.id.to_hex();
                msg.append(h.as_str());
                proof {
                    assert(m.contains_key(n.id));
                }
                return Err(msg);
            }
            i = i + 1;
        }
        proof {
            assert forall|k: WorkId| #[trigger] m.contains_key(k) implies node_sound(m, k) by {
                let j = lemma_map_key(views(self.nodes@), k);
                assert(self.nodes@[j].id == k);
            }
        }
        Ok(())
    }
}

/// Each position's id is the id of its node.
proof fn lemma_map_keys_views(s: Seq<WorkNode>)
    ensures
        forall|i: int| 0 <= i < s.len() ==> (#[trigger] views(s)[i]) == s[i]@,
{
}

/// The ids with every copy of `x` removed.
pub fn ids_without(v: &Vec<WorkId>, x: WorkId) -> (r: Vec<WorkId>)
    ensures
        r@ == without(v@, x),
{
    let mut r: Vec<WorkId> = Vec::new();
    let mut i: usize = 0;
    while i < v.len()
        invariant
            i <= v@.len(),
            r@ == without(v@.take(i as int), x),
        decreases v@.len() - i,
    {
        assert(v@.take(i + 1).drop_last() =~= v@.take(i as int));
        if v[i] != x {
            r.push(v[i]);
        }
        i = i + 1;
    }
    assert(v@.take(v@.len() as int) =~= v@);
    r
}

/// Whether a list of ids holds one.
pub fn contains_id(v: &Vec<WorkId>, x: WorkId) -> (r: bool)
    ensures
        r == v@.contains(x),
{
    let mut i: usize = 0;
    while i < v.len()
        invariant
            i <= v@.len(),
            forall|k: int| 0 <= k < i ==> v@[k] != x,
        decreases v@.len() - i,
    {
        if v[i] == x {
            assert(v@[i as int] == x);
            return true;
        }
        i = i + 1;
    }
    false
}

/// The busy refusal for a sorted, non-empty list of held ids.
fn busy_text(ids: &Vec<WorkId>) -> (m: String)
    requires
        ids@.len() > 0,
    ensures
        m@ == "claim: assignee busy "@ + join_hex(ids@),
{
    let mut m = String::from_str("claim: assignee busy ");
    let ghost start = m@;
    let mut i: usize = 0;
    while i < ids.len()
        invariant
            i <= ids@.len(),
            m@ == start + join_hex(ids@.take(i as int)),
            start == "claim: assignee busy "@,
        decreases ids@.len() - i,
    {
        if i > 0 {
            m.append(" ");
        }
        let h = ids[i].to_hex();
        m.append(h.as_str());
        proof {
            let t = ids@.take(i + 1);
            assert(t.drop_last() =~= ids@.take(i as int));
            assert(t.last() == ids@[i as int]);
            if i == 0 {
                assert(ids@.take(0) =~= Seq::<WorkId>::empty());
            }
        }
        i = i + 1;
    }
    assert(ids@.take(ids@.len() as int) =~= ids@);
    m
}

} // verus!
