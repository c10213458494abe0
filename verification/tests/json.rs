use claimdag::handles::Handles;
use claimdag::json::{node_json, nodes_json};
use claimdag::{WorkFields, WorkGraph, WorkId, WorkKind, WorkNode, WorkRole, WorkStatus};
use serde_json::Value;

/// The object `serde_json` writes for a node built field by field.
fn expected(n: &WorkNode) -> Value {
    let mut m = serde_json::Map::new();
    m.insert("id".into(), Value::String(n.id.to_hex()));
    m.insert("kind".into(), Value::String(n.kind.as_str().into()));
    m.insert("status".into(), Value::String(n.status.as_str().into()));
    m.insert("role".into(), Value::String(n.role.as_str().into()));
    m.insert("assignee".into(), Value::String(n.assignee.to_hex()));
    m.insert("parent".into(), Value::String(n.parent.to_hex()));
    m.insert("deps".into(), Value::Array(n.deps.iter().map(|d| Value::String(d.to_hex())).collect()));
    m.insert("cas_gen".into(), Value::from(n.cas_gen));
    m.insert("created_unix".into(), Value::from(n.created_unix));
    m.insert("updated_unix".into(), Value::from(n.updated_unix));
    m.insert("finished_unix".into(), Value::from(n.finished_unix));
    m.insert("summary".into(), Value::String(n.summary.clone()));
    m.insert("archived".into(), Value::Bool(n.archived));
    Value::Object(m)
}

fn sample() -> WorkGraph {
    let mut g = WorkGraph::default();
    let a = WorkId { hi: 1, lo: 1 };
    let b = WorkId { hi: 2, lo: 2 };
    let f = |status, summary| WorkFields {
        kind: WorkKind::Step,
        status,
        role: WorkRole::Explore,
        parent: WorkId::zero(),
        actor: WorkId::zero(),
        summary,
    };
    g.upsert(a, f(WorkStatus::Ready, "quote \" and \\ and\nnewline, ünïcode")).unwrap();
    g.upsert(b, f(WorkStatus::Todo, "tab\there, bell\u{7} backspace\u{8} form\u{c} cr\r unit\u{1f} del\u{7f} /slash")).unwrap();
    g.link_dep(a, b, WorkId::zero()).unwrap();
    g
}

#[test]
fn the_listing_is_what_serde_json_writes_for_the_same_rows() {
    let g = sample();
    let nodes = g.list();
    let rows: Vec<Value> = nodes.iter().map(|n| expected(n)).collect();
    assert_eq!(nodes_json(&nodes), serde_json::to_string(&rows).unwrap());
    for n in &nodes {
        assert_eq!(node_json(n), serde_json::to_string(&expected(n)).unwrap());
    }
}

#[test]
fn an_empty_listing_is_an_empty_array() {
    assert_eq!(nodes_json(&Vec::new()), "[]");
}

#[test]
fn a_named_id_draws_as_its_name() {
    let mut handles = Handles::default();
    handles.from_json_text("{\"0123456789abcdef0123456789abcdef\": \"planner\"}");
    let id = WorkId::from_hex("0123456789abcdef0123456789abcdef").unwrap();
    assert_eq!(handles.name_for(id), "planner");
}

#[test]
fn a_malformed_file_leaves_the_pane_working() {
    let id = WorkId::from_hex("0123456789abcdef0123456789abcdef").unwrap();
    let mut handles = Handles::default();
    handles.from_json_text("{not json");
    assert_eq!(handles.name_for(id), "01234567");
    handles.from_json_text("[\"an array\"]");
    assert_eq!(handles.name_for(id), "01234567");
}

#[test]
fn a_bad_entry_is_skipped_and_the_rest_are_taken() {
    let split = format!("{}é{}", "0".repeat(15), "0".repeat(15));
    let text = format!(
        "{{\"{split}\": \"broken\", \"0123456789abcdef0123456789abcdef\": \"  planner \", \
         \"fedcba9876543210fedcba9876543210\": 7, \"00000000000000000000000000000001\": \"  \"}}"
    );
    let mut handles = Handles::default();
    handles.from_json_text(&text);
    assert_eq!(handles.name_for(WorkId::from_hex("0123456789abcdef0123456789abcdef").unwrap()), "planner");
    assert_eq!(handles.name_for(WorkId::from_hex("fedcba9876543210fedcba9876543210").unwrap()), "fedcba98");
    assert_eq!(handles.name_for(WorkId { hi: 0, lo: 1 }), "00000000");
}

#[test]
fn a_summary_is_written_escaped() {
    let mut g = WorkGraph::default();
    let a = WorkId { hi: 3, lo: 3 };
    g.upsert(
        a,
        WorkFields {
            kind: WorkKind::Task,
            status: WorkStatus::Todo,
            role: WorkRole::Unset,
            parent: WorkId::zero(),
            actor: WorkId::zero(),
            summary: "a\"b\\c\u{1}d\te",
        },
    )
    .unwrap();
    let text = node_json(g.get(a).unwrap());
    assert!(text.contains(r#","summary":"a\"b\\c\u0001d\te","#), "{text}");
}
