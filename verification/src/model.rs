//! The abstract graph the contracts speak of: a map from id to node value,
//! the ledger, and the two counters; and the facts that tie a list of
//! nodes with distinct ids to that map.

use vstd::prelude::*;
use crate::id::WorkId;
use crate::work::{NodeView, WorkLedgerEntry, WorkNode, WorkStatus};

verus! {

/// How many ledger entries are kept.
pub const MAX_LEDGER: usize = 8192;

/// How many nodes a graph keeps before it drops finished work.
pub const MAX_WORK_NODES: usize = 4096;

/// The value of a work graph.
pub struct GraphView {
    pub nodes: Map<WorkId, NodeView>,
    pub ledger: Seq<WorkLedgerEntry>,
    pub next_seq: u64,
    pub mint_seq: u64,
}

/// `u64::saturating_add(x, 1)`.
pub open spec fn bump(x: u64) -> u64 {
    if x == u64::MAX {
        x
    } else {
        (x + 1) as u64
    }
}

/// The node values of a list of nodes.
pub open spec fn views(s: Seq<WorkNode>) -> Seq<NodeView> {
    s.map_values(|n: WorkNode| n@)
}

/// No id occurs twice.
pub open spec fn ids_distinct(s: Seq<NodeView>) -> bool {
    forall|i: int, j: int| 0 <= i < j < s.len() ==> (#[trigger] s[i]).id != (#[trigger] s[j]).id
}

/// Some position holds a node with this id.
pub open spec fn holds_id(s: Seq<NodeView>, k: WorkId) -> bool {
    exists|i: int| 0 <= i < s.len() && (#[trigger] s[i]).id == k
}

/// The map from id to node value of a list of nodes.
pub open spec fn node_map(s: Seq<NodeView>) -> Map<WorkId, NodeView> {
    Map::new(
        |k: WorkId| holds_id(s, k),
        |k: WorkId| s[choose|i: int| 0 <= i < s.len() && (#[trigger] s[i]).id == k],
    )
}

pub proof fn lemma_map_at(s: Seq<NodeView>, i: int)
    requires
        ids_distinct(s),
        0 <= i < s.len(),
    ensures
        node_map(s).contains_key(s[i].id),
        node_map(s)[s[i].id] == s[i],
{
    assert(holds_id(s, s[i].id));
    let j = choose|j: int| 0 <= j < s.len() && (#[trigger] s[j]).id == s[i].id;
    if j != i {
        if j < i {
            assert(s[j].id != s[i].id);
        } else {
            assert(s[i].id != s[j].id);
        }
    }
}

pub proof fn lemma_map_absent(s: Seq<NodeView>, k: WorkId)
    requires
        forall|i: int| 0 <= i < s.len() ==> (#[trigger] s[i]).id != k,
    ensures
        !node_map(s).contains_key(k),
{
}

/// Every key of the map is held at some position.
pub proof fn lemma_map_key(s: Seq<NodeView>, k: WorkId) -> (i: int)
    requires
        ids_distinct(s),
        node_map(s).contains_key(k),
    ensures
        0 <= i < s.len(),
        s[i].id == k,
        node_map(s)[k] == s[i],
{
    let i = choose|i: int| 0 <= i < s.len() && (#[trigger] s[i]).id == k;
    lemma_map_at(s, i);
    i
}

pub proof fn lemma_map_update(s: Seq<NodeView>, i: int, n: NodeView)
    requires
        ids_distinct(s),
        0 <= i < s.len(),
        n.id == s[i].id,
    ensures
        ids_distinct(s.update(i, n)),
        node_map(s.update(i, n)) == node_map(s).insert(n.id, n),
{
    let t = s.update(i, n);
    assert(ids_distinct(t)) by {
        assert forall|a: int, b: int| 0 <= a < b < t.len() implies (#[trigger] t[a]).id != (#[trigger] t[b]).id by {
            assert(s[a].id != s[b].id);
        }
    }
    assert forall|k: WorkId| #[trigger] node_map(t).contains_key(k) <==> node_map(s).insert(n.id, n).contains_key(k) by {
        if holds_id(t, k) {
            let j = choose|j: int| 0 <= j < t.len() && (#[trigger] t[j]).id == k;
            if j != i {
                assert(s[j].id == k);
                assert(holds_id(s, k));
            }
        }
        if holds_id(s, k) {
            let j = choose|j: int| 0 <= j < s.len() && (#[trigger] s[j]).id == k;
            assert(t[j].id == k);
        }
        if k == n.id {
            assert(t[i].id == k);
        }
    }
    assert forall|k: WorkId| #[trigger] node_map(t).contains_key(k) implies node_map(t)[k] == node_map(s).insert(n.id, n)[k] by {
        let j = lemma_map_key(t, k);
        if j == i {
        } else {
            lemma_map_at(s, j);
        }
    }
    assert(node_map(t) =~= node_map(s).insert(n.id, n));
}

pub proof fn lemma_map_push(s: Seq<NodeView>, n: NodeView)
    requires
        ids_distinct(s),
        !node_map(s).contains_key(n.id),
    ensures
        ids_distinct(s.push(n)),
        node_map(s.push(n)) == node_map(s).insert(n.id, n),
{
    let t = s.push(n);
    assert forall|i: int| 0 <= i < s.len() implies (#[trigger] s[i]).id != n.id by {
        lemma_map_at(s, i);
    }
    assert(ids_distinct(t)) by {
        assert forall|a: int, b: int| 0 <= a < b < t.len() implies (#[trigger] t[a]).id != (#[trigger] t[b]).id by {
            if b < s.len() {
                assert(s[a].id != s[b].id);
            } else {
                assert(t[a] == s[a]);
            }
        }
    }
    assert forall|k: WorkId| #[trigger] node_map(t).contains_key(k) <==> node_map(s).insert(n.id, n).contains_key(k) by {
        if holds_id(t, k) {
            let j = choose|j: int| 0 <= j < t.len() && (#[trigger] t[j]).id == k;
            if j < s.len() {
                assert(s[j].id == k);
                assert(holds_id(s, k));
            }
        }
        if holds_id(s, k) {
            let j = choose|j: int| 0 <= j < s.len() && (#[trigger] s[j]).id == k;
            assert(t[j].id == k);
        }
        if k == n.id {
            assert(t[s.len() as int].id == k);
        }
    }
    assert forall|k: WorkId| #[trigger] node_map(t).contains_key(k) implies node_map(t)[k] == node_map(s).insert(n.id, n)[k] by {
        let j = lemma_map_key(t, k);
        if j < s.len() {
            lemma_map_at(s, j);
        }
    }
    assert(node_map(t) =~= node_map(s).insert(n.id, n));
}

pub proof fn lemma_map_remove(s: Seq<NodeView>, i: int)
    requires
        ids_distinct(s),
        0 <= i < s.len(),
    ensures
        ids_distinct(s.remove(i)),
        node_map(s.remove(i)) == node_map(s).remove(s[i].id),
{
    let t = s.remove(i);
    assert(ids_distinct(t)) by {
        assert forall|a: int, b: int| 0 <= a < b < t.len() implies (#[trigger] t[a]).id != (#[trigger] t[b]).id by {
            let a2 = if a < i { a } else { a + 1 };
            let b2 = if b < i { b } else { b + 1 };
            assert(t[a] == s[a2]);
            assert(t[b] == s[b2]);
            assert(s[a2].id != s[b2].id);
        }
    }
    assert forall|k: WorkId| #[trigger] node_map(t).contains_key(k) <==> node_map(s).remove(s[i].id).contains_key(k) by {
        if holds_id(t, k) {
            let j = choose|j: int| 0 <= j < t.len() && (#[trigger] t[j]).id == k;
            let j2 = if j < i { j } else { j + 1 };
            assert(t[j] == s[j2]);
            assert(holds_id(s, k));
            assert(s[j2].id != s[i].id) by {
                if j2 < i {
                } else {
                }
            }
        }
        if holds_id(s, k) && k != s[i].id {
            let j = choose|j: int| 0 <= j < s.len() && (#[trigger] s[j]).id == k;
            if j < i {
                assert(t[j].id == k);
            } else {
                assert(j != i);
                assert(t[j - 1].id == k);
            }
        }
    }
    assert forall|k: WorkId| #[trigger] node_map(t).contains_key(k) implies node_map(t)[k] == node_map(s).remove(s[i].id)[k] by {
        let j = lemma_map_key(t, k);
        let j2 = if j < i { j } else { j + 1 };
        assert(t[j] == s[j2]);
        lemma_map_at(s, j2);
    }
    assert(node_map(t) =~= node_map(s).remove(s[i].id));
}

pub proof fn lemma_views_update(s: Seq<WorkNode>, i: int, n: WorkNode)
    requires
        0 <= i < s.len(),
    ensures
        views(s.update(i, n)) == views(s).update(i, n@),
{
    assert(views(s.update(i, n)) =~= views(s).update(i, n@));
}

pub proof fn lemma_views_push(s: Seq<WorkNode>, n: WorkNode)
    ensures
        views(s.push(n)) == views(s).push(n@),
{
    assert(views(s.push(n)) =~= views(s).push(n@));
}

pub proof fn lemma_views_remove(s: Seq<WorkNode>, i: int)
    requires
        0 <= i < s.len(),
    ensures
        views(s.remove(i)) == views(s).remove(i),
{
    assert(views(s.remove(i)) =~= views(s).remove(i));
}

/// The ledger after one entry: the oldest falls off past the cap.
pub open spec fn ledger_pushed(l: Seq<WorkLedgerEntry>, e: WorkLedgerEntry) -> Seq<WorkLedgerEntry> {
    if l.len() + 1 > MAX_LEDGER {
        l.push(e).drop_first()
    } else {
        l.push(e)
    }
}

/// The graph after a ledger entry for `op` on `work_id` by `actor` at `now`.
pub open spec fn logged(
    g: GraphView,
    work_id: WorkId,
    actor: WorkId,
    op: &'static str,
    now: u64,
) -> GraphView {
    let seq = bump(g.next_seq);
    GraphView {
        nodes: g.nodes,
        ledger: ledger_pushed(
            g.ledger,
            WorkLedgerEntry { seq, ts_unix: now, work_id, actor, op },
        ),
        next_seq: seq,
        mint_seq: g.mint_seq,
    }
}

/// Every dependency of `n` is present and done.
pub open spec fn deps_done(m: Map<WorkId, NodeView>, n: NodeView) -> bool {
    forall|i: int|
        0 <= i < n.deps.len() ==> m.contains_key(#[trigger] n.deps[i]) && m[n.deps[i]].status
            == WorkStatus::Done
}

/// Readiness derived from the dependencies: Todo or Blocked whose
/// dependencies are done becomes Ready; Ready whose dependencies are not
/// done falls back to Todo; anything else is left alone.
pub open spec fn recomputed(m: Map<WorkId, NodeView>, n: NodeView, now: u64) -> NodeView {
    let waiting = n.status == WorkStatus::Todo || n.status == WorkStatus::Blocked || n.status
        == WorkStatus::Ready;
    let ready = waiting && deps_done(m, n);
    if ready && (n.status == WorkStatus::Todo || n.status == WorkStatus::Blocked) {
        NodeView { status: WorkStatus::Ready, updated_unix: now, ..n }
    } else if !ready && n.status == WorkStatus::Ready {
        NodeView { status: WorkStatus::Todo, updated_unix: now, ..n }
    } else {
        n
    }
}

/// The graph with one node's readiness recomputed, if it is there.
pub open spec fn with_recomputed(g: GraphView, id: WorkId, now: u64) -> GraphView {
    if g.nodes.contains_key(id) {
        GraphView { nodes: g.nodes.insert(id, recomputed(g.nodes, g.nodes[id], now)), ..g }
    } else {
        g
    }
}

/// Every node that waits on `done_id` has its readiness recomputed.
pub open spec fn promoted(m: Map<WorkId, NodeView>, done_id: WorkId, now: u64) -> Map<WorkId, NodeView> {
    Map::new(
        |k: WorkId| m.contains_key(k),
        |k: WorkId|
            if m[k].deps.contains(done_id) {
                recomputed(m, m[k], now)
            } else {
                m[k]
            },
    )
}

/// Two maps agree on which ids are present and which are done.
pub open spec fn same_done(a: Map<WorkId, NodeView>, b: Map<WorkId, NodeView>) -> bool {
    &&& forall|k: WorkId| a.contains_key(k) <==> b.contains_key(k)
    &&& forall|k: WorkId| #[trigger] a.contains_key(k) ==> (a[k].status == WorkStatus::Done <==> b[k].status == WorkStatus::Done)
}

pub proof fn lemma_same_done_deps(a: Map<WorkId, NodeView>, b: Map<WorkId, NodeView>, n: NodeView)
    requires
        same_done(a, b),
    ensures
        deps_done(a, n) == deps_done(b, n),
{
    if deps_done(a, n) {
        assert forall|i: int| 0 <= i < n.deps.len() implies b.contains_key(#[trigger] n.deps[i]) && b[n.deps[i]].status == WorkStatus::Done by {
            assert(a.contains_key(n.deps[i]));
        }
    }
    if deps_done(b, n) {
        assert forall|i: int| 0 <= i < n.deps.len() implies a.contains_key(#[trigger] n.deps[i]) && a[n.deps[i]].status == WorkStatus::Done by {
            assert(b.contains_key(n.deps[i]));
        }
    }
}

/// Recomputing readiness never makes or unmakes a done node.
pub proof fn lemma_recomputed_done(m: Map<WorkId, NodeView>, n: NodeView, now: u64)
    ensures
        (recomputed(m, n, now).status == WorkStatus::Done) == (n.status == WorkStatus::Done),
        recomputed(m, n, now).id == n.id,
{
}

/// `b` is a dependency of node `a`.
pub open spec fn step(m: Map<WorkId, NodeView>, a: WorkId, b: WorkId) -> bool {
    m.contains_key(a) && m[a].deps.contains(b)
}

/// A walk along dependency edges.
pub open spec fn is_path(m: Map<WorkId, NodeView>, p: Seq<WorkId>) -> bool {
    &&& p.len() >= 1
    &&& forall|i: int| 0 <= i < p.len() - 1 ==> step(m, #[trigger] p[i], p[i + 1])
}

/// Walking dependency edges from `a` arrives at `b` (in zero or more steps).
pub open spec fn reaches(m: Map<WorkId, NodeView>, a: WorkId, b: WorkId) -> bool {
    exists|p: Seq<WorkId>| #[trigger] is_path(m, p) && p[0] == a && p.last() == b
}

/// No dependency edge closes a loop.
pub open spec fn acyclic(m: Map<WorkId, NodeView>) -> bool {
    forall|a: WorkId, b: WorkId| #[trigger] step(m, a, b) ==> !reaches(m, b, a)
}

pub proof fn lemma_reaches_refl(m: Map<WorkId, NodeView>, a: WorkId)
    ensures
        reaches(m, a, a),
{
    let p = seq![a];
    assert(is_path(m, p));
}

pub proof fn lemma_reaches_step(m: Map<WorkId, NodeView>, a: WorkId, b: WorkId, c: WorkId)
    requires
        reaches(m, a, b),
        step(m, b, c),
    ensures
        reaches(m, a, c),
{
    let p = choose|p: Seq<WorkId>| #[trigger] is_path(m, p) && p[0] == a && p.last() == b;
    let q = p.push(c);
    assert forall|i: int| 0 <= i < q.len() - 1 implies step(m, #[trigger] q[i], q[i + 1]) by {
        if i < p.len() - 1 {
            assert(q[i] == p[i] && q[i + 1] == p[i + 1]);
        }
    }
    assert(is_path(m, q));
}

pub proof fn lemma_reaches_trans(m: Map<WorkId, NodeView>, a: WorkId, b: WorkId, c: WorkId)
    requires
        reaches(m, a, b),
        reaches(m, b, c),
    ensures
        reaches(m, a, c),
{
    let p = choose|p: Seq<WorkId>| #[trigger] is_path(m, p) && p[0] == a && p.last() == b;
    let q = choose|q: Seq<WorkId>| #[trigger] is_path(m, q) && q[0] == b && q.last() == c;
    let r = p + q.drop_first();
    assert forall|i: int| 0 <= i < r.len() - 1 implies step(m, #[trigger] r[i], r[i + 1]) by {
        if i < p.len() - 1 {
            assert(r[i] == p[i] && r[i + 1] == p[i + 1]);
        } else if i == p.len() - 1 {
            assert(r[i] == p.last());
            assert(r[i + 1] == q[1]);
            assert(step(m, q[0], q[1]));
        } else {
            let j = i - p.len() + 1;
            assert(r[i] == q[j] && r[i + 1] == q[j + 1]);
        }
    }
    if q.len() == 1 {
        assert(r =~= p);
    }
    assert(is_path(m, r));
}

/// The ids of a list of nodes, in order.
pub open spec fn id_seq(s: Seq<NodeView>) -> Seq<WorkId> {
    s.map_values(|n: NodeView| n.id)
}

/// The map has one key per node, and finitely many.
pub proof fn lemma_dom_len(s: Seq<NodeView>)
    requires
        ids_distinct(s),
    ensures
        node_map(s).dom() == id_seq(s).to_set(),
        node_map(s).dom().finite(),
        node_map(s).dom().len() == s.len(),
{
    let ids = id_seq(s);
    assert forall|k: WorkId| node_map(s).dom().contains(k) <==> ids.to_set().contains(k) by {
        if holds_id(s, k) {
            let i = choose|i: int| 0 <= i < s.len() && (#[trigger] s[i]).id == k;
            assert(ids[i] == k);
        }
        if ids.to_set().contains(k) {
            let i = choose|i: int| 0 <= i < ids.len() && ids[i] == k;
            assert(s[i].id == k);
        }
    }
    assert(node_map(s).dom() =~= ids.to_set());
    assert(ids.no_duplicates()) by {
        assert forall|a: int, b: int| 0 <= a < ids.len() && 0 <= b < ids.len() && a != b implies ids[a] != ids[b] by {
            if a < b {
                assert(s[a].id != s[b].id);
            } else {
                assert(s[b].id != s[a].id);
            }
        }
    }
    ids.unique_seq_to_set();
    vstd::seq_lib::seq_to_set_is_finite(ids);
}

/// A failed call's message.
pub open spec fn fails_with<T>(r: Result<T, String>, m: Seq<char>) -> bool {
    r matches Err(e) && e@ == m
}

} // verus!
