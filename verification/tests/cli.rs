use claimdag::cli::{execute, execute_at, parse_id, reads_only, Command, Reply};
use claimdag::{WorkFields, WorkGraph, WorkId, WorkKind, WorkRole, WorkStatus};

const ZERO: &str = "00000000000000000000000000000000";

fn upsert_cmd(id: Option<&str>, status: &str, summary: &str) -> Command {
    Command::Upsert {
        id: id.map(|s| s.to_string()),
        kind: "task".into(),
        status: status.into(),
        role: "unset".into(),
        parent: ZERO.into(),
        summary: summary.into(),
        actor: ZERO.into(),
    }
}

fn ok(r: Result<Reply, String>) -> Reply {
    match r {
        Ok(reply) => reply,
        Err(e) => panic!("{e}"),
    }
}

fn made(g: &mut WorkGraph, summary: &str) -> String {
    let reply = ok(execute(g, upsert_cmd(None, "ready", summary)));
    assert!(reply.save);
    assert_eq!(reply.lines.len(), 1);
    reply.lines[0].clone()
}

#[test]
fn an_upsert_prints_the_id_and_asks_for_a_write() {
    let mut g = WorkGraph::default();
    let hex = made(&mut g, "the work");
    assert_eq!(hex.len(), 32);
    let id = WorkId::from_hex(&hex).unwrap();
    assert_eq!(g.get(id).unwrap().summary, "the work");
}

#[test]
fn the_verbs_that_only_read_are_list_and_get() {
    assert!(reads_only(&Command::List { terminal: false, archived: false, all: false, json: false }));
    assert!(reads_only(&Command::Get { id: ZERO.into() }));
    assert!(!reads_only(&Command::Reclaim { lease: 1 }));
    assert!(!reads_only(&upsert_cmd(None, "todo", "")));
}

#[test]
fn a_bad_id_says_which() {
    assert_eq!(parse_id("xyz").unwrap_err(), "bad id xyz");
    let mut g = WorkGraph::default();
    assert_eq!(execute(&mut g, Command::Get { id: "nope".into() }).err().unwrap(), "bad id nope");
    assert_eq!(
        execute(&mut g, Command::Get { id: "0123456789abcdef0123456789abcdef".into() }).err().unwrap(),
        "not found"
    );
}

#[test]
fn a_bad_kind_status_or_role_is_refused_before_the_graph_is_touched() {
    let mut g = WorkGraph::default();
    let mut cmd = upsert_cmd(None, "todo", "x");
    if let Command::Upsert { kind, .. } = &mut cmd {
        *kind = "chore".into();
    }
    assert_eq!(execute(&mut g, cmd).err().unwrap(), "bad kind chore");
    assert_eq!(execute(&mut g, upsert_cmd(None, "sleeping", "x")).err().unwrap(), "bad status sleeping");
    let mut cmd = upsert_cmd(None, "todo", "x");
    if let Command::Upsert { role, .. } = &mut cmd {
        *role = "boss".into();
    }
    assert_eq!(execute(&mut g, cmd).err().unwrap(), "bad role boss");
    assert!(g.list().is_empty());
}

#[test]
fn list_and_get_print_the_node_lines() {
    let mut g = WorkGraph::default();
    let hex = made(&mut g, "the work");
    let listed = ok(execute(&mut g, Command::List { terminal: false, archived: false, all: false, json: false }));
    assert!(!listed.save);
    assert_eq!(listed.lines, vec![format!("{hex}  ready  task  gen=1  the work")]);

    let got = ok(execute(&mut g, Command::Get { id: hex.clone() }));
    assert_eq!(
        got.lines,
        vec![
            format!("{hex}  ready  task  unset  gen=1  assignee={ZERO}  parent={ZERO}  the work"),
            "deps  -".to_string(),
        ]
    );

    let json = ok(execute(&mut g, Command::List { terminal: false, archived: false, all: false, json: true }));
    assert_eq!(json.lines.len(), 1);
    let rows: serde_json::Value = serde_json::from_str(&json.lines[0]).unwrap();
    let rows = rows.as_array().unwrap();
    assert_eq!(rows.len(), 1);
    assert_eq!(rows[0]["id"], hex.as_str());
    assert_eq!(rows[0]["status"], "ready");
    assert_eq!(rows[0]["summary"], "the work");
    assert_eq!(rows[0]["cas_gen"], 1);
    assert_eq!(rows[0]["archived"], false);
}

#[test]
fn a_claim_prints_its_generation_and_the_holder_shows_in_the_list() {
    let mut g = WorkGraph::default();
    let hex = made(&mut g, "the work");
    let holder = "abcdef0123456789abcdef0123456789";
    let claimed = ok(execute(&mut g, Command::Claim { id: hex.clone(), assignee: holder.into(), gen: Some(0) }));
    assert!(claimed.save);
    assert_eq!(claimed.lines, vec!["gen=2".to_string()]);
    let listed = ok(execute(&mut g, Command::List { terminal: false, archived: false, all: false, json: false }));
    assert_eq!(listed.lines, vec![format!("{hex}  claimed  task  abcdef01  gen=2  the work")]);
    let renewed = ok(execute(&mut g, Command::Renew { id: hex.clone(), actor: holder.into() }));
    assert_eq!(renewed.lines, vec!["gen=2".to_string()]);
    assert_eq!(
        execute(&mut g, Command::Claim { id: hex.clone(), assignee: holder.into(), gen: Some(7) }).err().unwrap(),
        "claim: gen mismatch"
    );
}

#[test]
fn complete_link_unlink_archive_and_unarchive_echo_what_they_did() {
    let mut g = WorkGraph::default();
    let a = made(&mut g, "a");
    let b = made(&mut g, "b");
    let linked = ok(execute(&mut g, Command::Link { parent: a.clone(), child: b.clone(), actor: ZERO.into() }));
    assert_eq!(linked.lines, vec![format!("{a}  {b}")]);
    let got = ok(execute(&mut g, Command::Get { id: b.clone() }));
    assert_eq!(got.lines[1], format!("deps  {a}"));
    let unlinked = ok(execute(&mut g, Command::Unlink { parent: a.clone(), child: b.clone(), actor: ZERO.into() }));
    assert_eq!(unlinked.lines, vec![format!("{a}  {b}")]);
    let done = ok(execute(
        &mut g,
        Command::Complete { id: a.clone(), status: "done".into(), summary: "".into(), actor: ZERO.into(), gen: None },
    ));
    assert_eq!(done.lines, vec![format!("{a}  done")]);
    let archived = ok(execute(&mut g, Command::Archive { id: a.clone(), actor: ZERO.into() }));
    assert_eq!(archived.lines, vec![format!("{a}  archived")]);
    let live = ok(execute(&mut g, Command::Unarchive { id: a.clone(), actor: ZERO.into() }));
    assert_eq!(live.lines, vec![format!("{a}  live")]);
    assert_eq!(
        execute(&mut g, Command::Archive { id: b.clone(), actor: ZERO.into() }).err().unwrap(),
        "archive: not terminal"
    );
}

#[test]
fn a_reclaim_with_nothing_stale_says_none_and_writes_nothing() {
    let mut g = WorkGraph::default();
    let hex = made(&mut g, "the work");
    let holder = "abcdef0123456789abcdef0123456789";
    let now = 10_000;
    ok(execute_at(&mut g, Command::Claim { id: hex.clone(), assignee: holder.into(), gen: None }, now));
    let none = ok(execute_at(&mut g, Command::Reclaim { lease: 900 }, now + 10));
    assert!(!none.save);
    assert_eq!(none.lines, vec!["none".to_string()]);
    let back = ok(execute_at(&mut g, Command::Reclaim { lease: 900 }, now + 1_000));
    assert!(back.save);
    assert_eq!(back.lines, vec![format!("{hex}  reclaimed")]);
    let id = WorkId::from_hex(&hex).unwrap();
    assert_eq!(g.get(id).unwrap().status, WorkStatus::Ready);
}

#[test]
fn a_terminal_node_is_hidden_from_the_default_list_and_shown_with_all() {
    let mut g = WorkGraph::default();
    let id = WorkId { hi: 1, lo: 2 };
    g.upsert(
        id,
        WorkFields {
            kind: WorkKind::Task,
            status: WorkStatus::Ready,
            role: WorkRole::Implementor,
            parent: WorkId::zero(),
            actor: WorkId::zero(),
            summary: "s",
        },
    )
    .unwrap();
    g.complete(id, WorkStatus::Done, "", WorkId::zero(), None).unwrap();
    g.archive(id, WorkId::zero()).unwrap();
    let live = ok(execute(&mut g, Command::List { terminal: false, archived: false, all: false, json: false }));
    assert!(live.lines.is_empty());
    let every = ok(execute(&mut g, Command::List { terminal: false, archived: false, all: true, json: false }));
    assert_eq!(every.lines, vec![format!("{}  done  task  implementor  gen=2  archived  s", id.to_hex())]);
}
