use claimdag::{Absent, WorkFields, WorkGraph, WorkId, WorkKind, WorkRole, WorkStatus, SNAP_FILE};

fn id(n: u64) -> WorkId {
    WorkId { hi: n, lo: n.wrapping_mul(3) }
}

fn fields(kind: WorkKind, status: WorkStatus, role: WorkRole, actor: WorkId, summary: &str) -> WorkFields<'_> {
    WorkFields { kind, status, role, parent: WorkId::zero(), actor, summary }
}

fn upsert_ready(g: &mut WorkGraph, node: WorkId, summary: &str) {
    g.upsert(node, fields(WorkKind::Task, WorkStatus::Ready, WorkRole::Unset, id(9), summary)).unwrap();
}

#[test]
fn claim_cas_and_deps() {
    let mut g = WorkGraph::default();
    let a = id(1);
    let b = id(2);
    g.upsert(a, fields(WorkKind::Step, WorkStatus::Ready, WorkRole::Explore, id(9), "A")).unwrap();
    g.upsert(b, fields(WorkKind::Step, WorkStatus::Todo, WorkRole::Implementor, id(9), "B")).unwrap();
    g.link_dep(a, b, id(9)).unwrap();
    assert!(g.claim(b, id(10), None).is_err());
    g.complete(a, WorkStatus::Done, "ok", id(10), None).unwrap();
    assert_eq!(g.get(b).unwrap().status, WorkStatus::Ready);
    assert_eq!(g.get(b).unwrap().cas_gen, 1);
    assert_eq!(g.claim(b, id(10), Some(99)).unwrap_err(), "claim: gen mismatch");
    let cas_gen = g.claim(b, id(10), None).unwrap();
    assert_eq!(g.claim(b, id(11), Some(1)).unwrap_err(), "claim: gen mismatch");
    assert!(g.claim(b, id(11), Some(cas_gen)).is_err());
    g.set_running(b, id(10)).unwrap();
    g.complete(b, WorkStatus::Done, "done", id(10), None).unwrap();
    assert!(g.verify().is_ok());
}

#[test]
fn complete_preserves_summary_cite_when_empty() {
    let mut g = WorkGraph::default();
    let a = id(1);
    upsert_ready(&mut g, a, "cite:TICKET-compwrite do the work");
    g.complete(a, WorkStatus::Done, "", id(9), None).unwrap();
    let n = g.get(a).unwrap();
    assert_eq!(n.status, WorkStatus::Done);
    assert_eq!(n.summary, "cite:TICKET-compwrite do the work");
}

#[test]
fn claim_rejects_assignee_already_holding_live_node() {
    let mut g = WorkGraph::default();
    let a = id(1);
    let b = id(2);
    let x = id(20);
    let y = id(21);
    upsert_ready(&mut g, a, "A");
    upsert_ready(&mut g, b, "B");
    assert_eq!(g.get(a).unwrap().cas_gen, 1);
    assert_eq!(g.get(b).unwrap().cas_gen, 1);
    g.claim(a, x, None).unwrap();
    assert_eq!(g.get(a).unwrap().status, WorkStatus::Claimed);
    let err = g.claim(b, x, None).unwrap_err();
    assert!(err.starts_with("claim: assignee busy"), "expected busy, got {err}");
    assert!(err.contains(&a.to_hex()), "busy error must list held id {}; got {err}", a.to_hex());
    let b_after = g.get(b).unwrap();
    assert_eq!(b_after.status, WorkStatus::Ready);
    assert_eq!(b_after.cas_gen, 1);
    assert!(b_after.assignee.is_zero());
    g.claim(b, y, None).unwrap();
    assert_eq!(g.get(b).unwrap().status, WorkStatus::Claimed);
    assert_eq!(g.get(b).unwrap().assignee, y);
    g.set_running(a, x).unwrap();
    let c = id(3);
    upsert_ready(&mut g, c, "C");
    let running_err = g.claim(c, x, None).unwrap_err();
    assert!(running_err.starts_with("claim: assignee busy"), "Running still occupies; got {running_err}");
    assert!(running_err.contains(&a.to_hex()), "{running_err}");
    g.complete(a, WorkStatus::Done, "ok", x, None).unwrap();
    g.claim(c, x, None).unwrap();
    assert_eq!(g.get(c).unwrap().status, WorkStatus::Claimed);
    assert_eq!(g.get(c).unwrap().assignee, x);
}

#[test]
fn release_hands_a_claim_back_and_frees_the_holder() {
    let mut g = WorkGraph::default();
    let a = id(1);
    let b = id(2);
    let x = id(20);
    let y = id(21);
    upsert_ready(&mut g, a, "A");
    upsert_ready(&mut g, b, "B");
    g.claim(a, x, None).unwrap();
    assert!(g.claim(b, x, None).unwrap_err().starts_with("claim: assignee busy"));
    assert_eq!(g.release(a, y).unwrap_err(), "release: not assignee");
    let generation = g.release(a, x).unwrap();
    let after = g.get(a).unwrap();
    assert_eq!(after.status, WorkStatus::Ready);
    assert!(after.assignee.is_zero());
    assert_eq!(after.cas_gen, generation);
    assert_eq!(generation, 3, "claim moved it to 2, release to 3");
    g.claim(b, x, None).unwrap();
    g.claim(a, y, None).unwrap();
    assert!(g.release(b, x).is_ok());
    assert!(g.release(b, x).unwrap_err().starts_with("release: status ready"));
    assert_eq!(g.ledger().back().unwrap().op, "release");
}

#[test]
fn reopen_brings_a_terminal_node_back_to_ready() {
    let mut g = WorkGraph::default();
    let a = id(1);
    let x = id(20);
    upsert_ready(&mut g, a, "A");
    assert!(g.reopen(a, x).unwrap_err().contains("not terminal"));
    g.claim(a, x, None).unwrap();
    g.complete(a, WorkStatus::Cancelled, "paused", x, None).unwrap();
    assert!(g.claim(a, x, None).is_err(), "a terminal node is not claimable");
    let generation = g.reopen(a, x).unwrap();
    let node = g.get(a).unwrap();
    assert_eq!(node.status, WorkStatus::Ready);
    assert!(node.assignee.is_zero());
    assert_eq!(node.cas_gen, generation);
    g.claim(a, x, None).unwrap();
    assert_eq!(g.get(a).unwrap().status, WorkStatus::Claimed);
    assert_eq!(g.ledger().iter().filter(|e| e.op == "reopen").count(), 1);
}

#[test]
fn reject_cycle() {
    let mut g = WorkGraph::default();
    let a = id(1);
    let b = id(2);
    g.upsert(a, fields(WorkKind::Task, WorkStatus::Todo, WorkRole::Unset, id(9), "")).unwrap();
    g.upsert(b, fields(WorkKind::Task, WorkStatus::Todo, WorkRole::Unset, id(9), "")).unwrap();
    g.link_dep(a, b, id(9)).unwrap();
    assert!(g.link_dep(b, a, id(9)).is_err());
}

#[test]
fn mint_nonzero() {
    let mut g = WorkGraph::default();
    let minted = g
        .upsert(WorkId::zero(), fields(WorkKind::Goal, WorkStatus::Ready, WorkRole::Orchestrator, WorkId::zero(), "mint me"))
        .unwrap();
    assert!(!minted.is_zero());
}

/// The head of a chain outranks a leaf touched later. The leaf is written
/// last of all, at the latest time there is.
#[test]
fn a_deep_chain_outranks_a_leaf_touched_later() {
    let mut g = WorkGraph::default();
    let now = 1_000;
    let make = |g: &mut WorkGraph, at: u64, when: u64| {
        let node = id(at);
        g.upsert_at(node, fields(WorkKind::Task, WorkStatus::Ready, WorkRole::Unset, id(99), "x"), when).unwrap();
        node
    };
    let chain: Vec<WorkId> = (1..=4).map(|at| make(&mut g, at, now)).collect();
    for pair in chain.windows(2) {
        g.link_dep_at(pair[0], pair[1], id(99), now).unwrap();
    }
    let leaf = make(&mut g, 9, u64::MAX);
    assert_eq!(g.get(leaf).unwrap().updated_unix, u64::MAX);

    let depth = g.critical_depth();
    assert_eq!(depth.get(&chain[0]).copied(), Some(3));
    assert_eq!(depth.get(&chain[3]).copied(), Some(0));
    assert_eq!(depth.get(&leaf).copied(), Some(0));

    let ready: Vec<WorkId> = g.ready_view().into_iter().map(|n| n.id).collect();
    assert_eq!(ready, vec![chain[0], leaf], "recency won over the chain");

    g.claim(chain[0], id(99), None).unwrap();
    g.complete(chain[0], WorkStatus::Done, "", id(99), None).unwrap();
    let depth = g.critical_depth();
    assert_eq!(depth.get(&chain[1]).copied(), Some(2));
    let ready: Vec<WorkId> = g.ready_view().into_iter().map(|n| n.id).collect();
    assert_eq!(ready, vec![chain[1], leaf]);
}

#[test]
fn everything_ready_can_actually_be_claimed() {
    let mut g = WorkGraph::default();
    let mut made = Vec::new();
    for at in 1..=5u64 {
        let node = id(at);
        g.upsert(node, fields(WorkKind::Task, WorkStatus::Ready, WorkRole::Unset, id(50), "x")).unwrap();
        made.push(node);
    }
    g.link_dep(made[0], made[1], id(50)).unwrap();
    g.link_dep(made[2], made[3], id(50)).unwrap();

    let ready: Vec<WorkId> = g.ready_view().into_iter().map(|n| n.id).collect();
    assert!(!ready.contains(&made[1]), "an unblocked node was offered");
    assert!(!ready.contains(&made[3]), "an unblocked node was offered");
    for (nth, node) in ready.iter().enumerate() {
        let taker = id(100 + nth as u64);
        g.claim(*node, taker, None).unwrap_or_else(|e| panic!("ready offered {node:?} and claim refused it: {e}"));
    }
}

#[test]
fn upsert_rejects_claim_status() {
    let mut g = WorkGraph::default();
    let a = id(7);
    g.upsert(a, fields(WorkKind::Task, WorkStatus::Ready, WorkRole::Unset, id(9), "x")).unwrap();
    assert!(g.upsert(a, fields(WorkKind::Task, WorkStatus::Claimed, WorkRole::Unset, id(9), "")).is_err());
    assert_eq!(g.get(a).unwrap().cas_gen, 1);
}

#[test]
fn snap_roundtrip_keeps_done_node() {
    let mut g = WorkGraph::default();
    let a = id(42);
    g.upsert(a, fields(WorkKind::Task, WorkStatus::Ready, WorkRole::Implementor, id(9), "persist me")).unwrap();
    g.complete(a, WorkStatus::Done, "done on disk", id(9), None).unwrap();
    let bytes = g.save_dir().unwrap();
    let loaded = WorkGraph::load_dir(Some(bytes.as_slice()));
    let n = loaded.get(a).expect("done node reloads");
    assert_eq!(n.status, WorkStatus::Done);
    assert_eq!(n.kind, WorkKind::Task);
    assert_eq!(n.summary, "done on disk");
    assert!(n.finished_unix > 0);
}

#[test]
fn archive_requires_terminal_and_hides_from_live_view() {
    let mut g = WorkGraph::default();
    let a = id(7);
    g.upsert(a, fields(WorkKind::Task, WorkStatus::Ready, WorkRole::Unset, id(9), "live")).unwrap();
    assert_eq!(g.archive(a, id(9)).unwrap_err(), "archive: not terminal");
    g.complete(a, WorkStatus::Done, "done", id(9), None).unwrap();
    assert_eq!(g.list_view(false, false).len(), 0);
    assert_eq!(g.list_view(true, false).len(), 1);
    g.archive(a, id(9)).unwrap();
    assert!(g.get(a).unwrap().archived);
    assert!(g.list_view(true, false).is_empty());
    assert_eq!(g.list_view(true, true).len(), 1);
    g.unarchive(a, id(9)).unwrap();
    assert!(!g.get(a).unwrap().archived);
    assert_eq!(g.get(a).unwrap().status, WorkStatus::Done);

    g.archive(a, id(9)).unwrap();
    let bytes = g.save_dir().unwrap();
    let loaded = WorkGraph::load_dir(Some(bytes.as_slice()));
    assert!(loaded.get(a).unwrap().archived);
}

/// The three ways there is no graph, which a caller cannot tell apart from an
/// empty one and which mean different things.
#[test]
fn an_absent_graph_says_which_kind_of_absent() {
    let missing = "/base/never-existed";
    match WorkGraph::open_dir(missing, false, None) {
        Err(Absent::NoDirectory(at)) => assert_eq!(at, missing),
        _ => panic!("a missing directory is no directory"),
    }
    match WorkGraph::open_dir(missing, false, None) {
        Err(why) => assert!(why.message().contains("nothing has been claimed"), "the message has to say what to do about it"),
        Ok(_) => panic!("a missing directory is no graph"),
    }
    assert!(WorkGraph::load_dir(None).list().is_empty());

    let empty = "/base/no-snapshot";
    match WorkGraph::open_dir(empty, true, None) {
        Err(Absent::NoSnapshot(at)) => assert_eq!(at, empty),
        _ => panic!("an empty directory has no snapshot"),
    }

    let broken = "/base/corrupt";
    match WorkGraph::open_dir(broken, true, Some(Ok(b"not a snapshot".as_slice()))) {
        Err(Absent::Unreadable(at, _)) => assert_eq!(at, broken),
        _ => panic!("garbage is unreadable"),
    }

    let good = "/base/real";
    let bytes = WorkGraph::default().save_dir().unwrap();
    match WorkGraph::open_dir(good, true, Some(Ok(bytes.as_slice()))) {
        Ok(g) => assert!(g.list().is_empty()),
        Err(why) => panic!("{}", why.message()),
    }
}

#[test]
fn load_dir_missing_is_empty() {
    let g = WorkGraph::load_dir(None);
    assert!(g.list().is_empty());
}

#[test]
fn snap_roundtrip_work_bin() {
    let mut g = WorkGraph::default();
    let a = id(7);
    upsert_ready(&mut g, a, "bin");
    let bytes = g.save_dir().unwrap();
    assert_eq!(SNAP_FILE, "work.bin");
    let loaded = WorkGraph::load_dir(Some(bytes.as_slice()));
    assert_eq!(loaded.get(a).unwrap().summary, "bin");
}

#[test]
fn unlink_drops_edge_and_readies() {
    let mut g = WorkGraph::default();
    let a = id(1);
    let b = id(2);
    upsert_ready(&mut g, a, "A");
    g.upsert(b, fields(WorkKind::Task, WorkStatus::Todo, WorkRole::Unset, id(9), "B")).unwrap();
    g.link_dep(a, b, id(9)).unwrap();
    assert_eq!(g.get(b).unwrap().status, WorkStatus::Todo);
    g.unlink_dep(a, b, id(9)).unwrap();
    assert!(g.get(b).unwrap().deps.is_empty());
    assert_eq!(g.get(b).unwrap().status, WorkStatus::Ready);
    g.unlink_dep(a, b, id(9)).unwrap();
    assert!(g.get(b).unwrap().deps.is_empty());
    assert_eq!(g.get(b).unwrap().status, WorkStatus::Ready);
}

#[test]
fn unlink_missing_edge_is_ok() {
    let mut g = WorkGraph::default();
    let a = id(1);
    let b = id(2);
    upsert_ready(&mut g, a, "A");
    g.upsert(b, fields(WorkKind::Task, WorkStatus::Todo, WorkRole::Unset, id(9), "B")).unwrap();
    g.unlink_dep(a, b, id(9)).unwrap();
    assert!(g.get(b).unwrap().deps.is_empty());
    assert_eq!(g.get(b).unwrap().status, WorkStatus::Ready);
}

#[test]
fn sticky_terminal_rejects_reopen() {
    let mut g = WorkGraph::default();
    let a = id(1);
    upsert_ready(&mut g, a, "A");
    g.complete(a, WorkStatus::Done, "done", id(9), None).unwrap();
    assert_eq!(g.get(a).unwrap().status, WorkStatus::Done);
    let err = g.upsert(a, fields(WorkKind::Task, WorkStatus::Ready, WorkRole::Unset, id(9), "reopen")).unwrap_err();
    assert_eq!(err, "upsert: node is terminal");
    let after_upsert = g.get(a).unwrap();
    assert_eq!(after_upsert.status, WorkStatus::Done);
    assert_eq!(after_upsert.summary, "done");
    assert_eq!(g.claim(a, id(10), None).unwrap_err(), "claim: status done");
    g.complete(a, WorkStatus::Failed, "still done", id(9), None).unwrap();
    let after_complete = g.get(a).unwrap();
    assert_eq!(after_complete.status, WorkStatus::Done);
    assert_eq!(after_complete.summary, "still done");

    let b = id(2);
    upsert_ready(&mut g, b, "B");
    g.complete(b, WorkStatus::Cancelled, "nope", id(9), None).unwrap();
    assert_eq!(
        g.upsert(b, fields(WorkKind::Task, WorkStatus::Todo, WorkRole::Unset, id(9), "")).unwrap_err(),
        "upsert: node is terminal"
    );
    assert_eq!(g.get(b).unwrap().status, WorkStatus::Cancelled);
    assert_eq!(g.claim(b, id(10), None).unwrap_err(), "claim: status cancelled");
}

/// Two claims by one assignee on two ready nodes, one after the other as
/// the sole mutator takes them: exactly one goes through.
#[test]
fn claim_concurrent_same_assignee_one_live() {
    let mut g = WorkGraph::default();
    let a = id(1);
    let b = id(2);
    let x = id(20);
    upsert_ready(&mut g, a, "A");
    upsert_ready(&mut g, b, "B");
    let r_a = g.claim(a, x, None);
    let r_b = g.claim(b, x, None);
    assert_eq!(u8::from(r_a.is_ok()) + u8::from(r_b.is_ok()), 1, "A={r_a:?} B={r_b:?}");
    let busy = match (r_a, r_b) {
        (Err(losing), _) | (_, Err(losing)) => losing,
        (Ok(_), Ok(_)) => unreachable!("the assertion above ruled this out"),
    };
    assert!(busy.starts_with("claim: assignee busy"), "loser must be occupancy; got {busy}");
    let live: Vec<_> = g
        .list()
        .into_iter()
        .filter(|n| n.assignee == x && matches!(n.status, WorkStatus::Claimed | WorkStatus::Running))
        .collect();
    assert_eq!(live.len(), 1, "exactly one Claimed|Running for X");
}

/// Each refusal says what was wrong, in the graph's own words.
#[test]
fn every_refusal_names_its_reason() {
    let mut g = WorkGraph::default();
    let a = id(1);
    let b = id(2);
    let nobody = id(77);
    upsert_ready(&mut g, a, "A");
    g.upsert(b, fields(WorkKind::Task, WorkStatus::Todo, WorkRole::Unset, id(9), "B")).unwrap();
    assert_eq!(g.claim(WorkId::zero(), id(5), None).unwrap_err(), "claim: zero id");
    assert_eq!(g.claim(a, WorkId::zero(), None).unwrap_err(), "claim: zero assignee");
    assert_eq!(g.claim(nobody, id(5), None).unwrap_err(), "claim: not found");
    g.link_dep(a, b, id(9)).unwrap();
    g.upsert(b, fields(WorkKind::Task, WorkStatus::Ready, WorkRole::Unset, id(9), "")).unwrap();
    assert_eq!(g.get(b).unwrap().status, WorkStatus::Todo, "readiness is derived");
    assert_eq!(g.claim(b, id(5), None).unwrap_err(), "claim: deps unsatisfied");
    assert_eq!(g.complete(a, WorkStatus::Ready, "", id(9), None).unwrap_err(), "complete: status not terminal");
    assert_eq!(g.complete(WorkId::zero(), WorkStatus::Done, "", id(9), None).unwrap_err(), "complete: zero id");
    assert_eq!(g.complete(nobody, WorkStatus::Done, "", id(9), None).unwrap_err(), "complete: not found");
    assert_eq!(g.complete(a, WorkStatus::Done, "", id(9), Some(42)).unwrap_err(), "complete: gen mismatch");
    assert_eq!(g.link_dep(a, a, id(9)).unwrap_err(), "link: self-dep");
    assert_eq!(g.link_dep(WorkId::zero(), a, id(9)).unwrap_err(), "link: zero id");
    assert_eq!(g.link_dep(nobody, a, id(9)).unwrap_err(), "link: parent missing");
    assert_eq!(g.link_dep(a, nobody, id(9)).unwrap_err(), "link: child missing");
    assert_eq!(g.link_dep(b, a, id(9)).unwrap_err(), "link: would create cycle");
    assert_eq!(g.unlink_dep(a, nobody, id(9)).unwrap_err(), "unlink: child missing");
    assert_eq!(g.unlink_dep(WorkId::zero(), b, id(9)).unwrap_err(), "unlink: zero id");
    assert_eq!(g.renew(a, id(9)).unwrap_err(), "renew: status ready");
    assert_eq!(g.set_running(a, id(9)).unwrap_err(), "running: status ready");
    assert_eq!(g.release(nobody, id(9)).unwrap_err(), "release: not found");
    assert_eq!(g.reopen(nobody, id(9)).unwrap_err(), "reopen: not found");
    assert_eq!(g.archive(WorkId::zero(), id(9)).unwrap_err(), "archive: zero id");
    assert_eq!(g.unarchive(nobody, id(9)).unwrap_err(), "unarchive: not found");
    g.claim(a, id(5), None).unwrap();
    assert_eq!(g.renew(a, id(6)).unwrap_err(), "renew: not assignee");
    assert_eq!(g.set_running(a, id(6)).unwrap_err(), "running: not assignee");
    assert_eq!(g.complete(a, WorkStatus::Done, "", id(6), None).unwrap_err(), "complete: not assignee");
    assert_eq!(
        g.upsert(a, fields(WorkKind::Task, WorkStatus::Todo, WorkRole::Unset, id(9), "")).unwrap_err(),
        "upsert: node is claimed; use completeWork"
    );
    assert_eq!(
        g.upsert(b, fields(WorkKind::Task, WorkStatus::Done, WorkRole::Unset, id(9), "")).unwrap_err(),
        "upsert: status claim/run/terminal requires claimWork or completeWork"
    );
    assert_eq!(
        g.upsert(b, WorkFields { parent: b, ..fields(WorkKind::Task, WorkStatus::Todo, WorkRole::Unset, id(9), "") }).unwrap_err(),
        "upsert: parent cycle"
    );
    assert!(g.verify().is_ok());
}

/// A renewal moves the lease and keeps the generation; a reclaim hands back
/// only what has been quiet past the lease, and moves the generation.
#[test]
fn a_lease_is_renewed_and_reclaimed_by_time() {
    let mut g = WorkGraph::default();
    let a = id(1);
    let x = id(5);
    g.upsert_at(a, fields(WorkKind::Task, WorkStatus::Ready, WorkRole::Unset, id(9), "A"), 100).unwrap();
    let claimed = g.claim_at(a, x, None, 100).unwrap();
    assert_eq!(g.renew_at(a, x, 500).unwrap(), claimed);
    assert_eq!(g.get(a).unwrap().updated_unix, 500);
    assert!(g.reclaim_at(900, 1_000).is_empty());
    assert_eq!(g.reclaim_at(900, 1_400), vec![a]);
    let n = g.get(a).unwrap();
    assert_eq!(n.status, WorkStatus::Ready);
    assert!(n.assignee.is_zero());
    assert_eq!(n.cas_gen, claimed + 1);
    assert_eq!(g.complete(a, WorkStatus::Done, "", x, Some(claimed)).unwrap_err(), "complete: gen mismatch");
    assert_eq!(g.ledger().back().unwrap().op, "reclaim");
}

/// Handing a claim back makes the node ready without looking at its
/// dependencies again: one linked while it was held stays unfinished.
#[test]
fn a_release_does_not_look_at_the_dependencies_again() {
    let mut g = WorkGraph::default();
    let a = id(1);
    let b = id(2);
    let x = id(5);
    upsert_ready(&mut g, a, "A");
    g.upsert(b, fields(WorkKind::Task, WorkStatus::Todo, WorkRole::Unset, id(9), "B")).unwrap();
    g.claim(a, x, None).unwrap();
    g.link_dep(b, a, id(9)).unwrap();
    assert_eq!(g.get(a).unwrap().status, WorkStatus::Claimed, "a held node keeps its claim");
    g.release(a, x).unwrap();
    assert_eq!(g.get(a).unwrap().status, WorkStatus::Ready);
    assert_ne!(g.get(b).unwrap().status, WorkStatus::Done);
    assert_eq!(g.claim(a, x, None).unwrap_err(), "claim: deps unsatisfied");
}

/// Reopening a done node leaves what waited on it ready.
#[test]
fn reopening_a_done_dependency_leaves_its_dependent_ready() {
    let mut g = WorkGraph::default();
    let a = id(1);
    let b = id(2);
    upsert_ready(&mut g, a, "A");
    upsert_ready(&mut g, b, "B");
    g.link_dep(a, b, id(9)).unwrap();
    assert_eq!(g.get(b).unwrap().status, WorkStatus::Todo);
    g.complete(a, WorkStatus::Done, "", id(9), None).unwrap();
    assert_eq!(g.get(b).unwrap().status, WorkStatus::Ready);
    g.reopen(a, id(9)).unwrap();
    assert_eq!(g.get(a).unwrap().status, WorkStatus::Ready);
    assert_eq!(g.get(b).unwrap().status, WorkStatus::Ready);
}

/// A dependency is there or it is not: linking twice lists it once.
#[test]
fn linking_twice_lists_the_edge_once() {
    let mut g = WorkGraph::default();
    let a = id(1);
    let b = id(2);
    upsert_ready(&mut g, a, "A");
    upsert_ready(&mut g, b, "B");
    g.link_dep(a, b, id(9)).unwrap();
    g.link_dep(a, b, id(9)).unwrap();
    assert_eq!(g.get(b).unwrap().deps, vec![a]);
    g.unlink_dep(a, b, id(9)).unwrap();
    assert!(g.get(b).unwrap().deps.is_empty());
}

/// The ready view is the ready order under the depths `critical_depth` gives.
#[test]
fn the_ready_view_orders_by_the_critical_depth() {
    let mut g = WorkGraph::default();
    for at in 1..=4u64 {
        upsert_ready(&mut g, id(at), "x");
    }
    g.link_dep(id(1), id(2), id(9)).unwrap();
    g.link_dep(id(2), id(3), id(9)).unwrap();
    let depth = g.critical_depth();
    let by: Vec<WorkId> = g.ready_view_by(&depth).into_iter().map(|n| n.id).collect();
    let view: Vec<WorkId> = g.ready_view().into_iter().map(|n| n.id).collect();
    assert_eq!(by, view);
    assert_eq!(view[0], id(1));
    assert_eq!(view.len(), 2);
}
