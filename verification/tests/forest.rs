use claimdag::forest::{dump, label, parent_tree, rows};
use claimdag::handles::Handles;
use claimdag::{WorkFields, WorkGraph, WorkId, WorkKind, WorkNode, WorkRole, WorkStatus};

fn fixture() -> WorkGraph {
    let mut graph = WorkGraph::default();
    let root = graph.mint_id(WorkKind::Task, WorkId::zero(), "land the adapter");
    graph
        .upsert(
            root,
            WorkFields {
                kind: WorkKind::Task,
                status: WorkStatus::Todo,
                role: WorkRole::Unset,
                parent: WorkId::zero(),
                actor: WorkId::zero(),
                summary: "land the adapter",
            },
        )
        .unwrap();
    for summary in ["write the tree", "verify the tree"] {
        let kid = graph.mint_id(WorkKind::Task, root, summary);
        graph
            .upsert(
                kid,
                WorkFields {
                    kind: WorkKind::Task,
                    status: WorkStatus::Todo,
                    role: WorkRole::Unset,
                    parent: root,
                    actor: WorkId::zero(),
                    summary,
                },
            )
            .unwrap();
    }
    graph
}

#[test]
fn children_hang_under_their_parent() {
    let graph = fixture();
    let nodes = graph.list();
    let (roots, children) = parent_tree(&nodes);
    assert_eq!(roots.len(), 1);
    assert_eq!(children.get(&roots[0]).unwrap().len(), 2);
}

#[test]
fn the_dump_indents_by_depth() {
    let graph = fixture();
    let text = dump(&graph.list(), &Handles::default());
    let lines: Vec<&str> = text.lines().collect();
    assert_eq!(lines.len(), 3);
    assert!(!lines[0].starts_with(' '));
    assert!(lines[1].starts_with("  "));
    assert!(lines[2].starts_with("  "));
}

#[test]
fn an_empty_graph_says_so() {
    assert_eq!(dump(&Vec::new(), &Handles::default()), "(empty)\n");
}

/// A node drawn without its parent is a root, not a node that vanishes.
#[test]
fn filtering_out_a_parent_promotes_its_children() {
    let graph = fixture();
    let all = graph.list();
    let root = parent_tree(&all).0[0];
    let without_root: Vec<&WorkNode> = all.into_iter().filter(|n| n.id != root).collect();
    let (roots, _) = parent_tree(&without_root);
    assert_eq!(roots.len(), 2);
    assert_eq!(rows(&without_root, &Handles::default()).len(), 2);
}

#[test]
fn the_label_carries_status_summary_and_the_dependency_count() {
    let mut graph = fixture();
    let nodes: Vec<WorkId> = graph.list().iter().map(|n| n.id).collect();
    let (roots, children) = parent_tree(&graph.list());
    let kids = children.get(&roots[0]).unwrap().clone();
    graph.link_dep(kids[0], kids[1], WorkId::zero()).unwrap();
    assert_eq!(nodes.len(), 3);
    let node = graph.get(kids[1]).unwrap();
    let line = label(node, &Handles::default());
    assert!(line.contains("deps=1"), "{line}");
    assert!(line.contains(&node.summary), "{line}");
    assert!(line.starts_with(node.status.as_str()), "{line}");
}

#[test]
fn a_parent_loop_is_drawn_once_and_marked() {
    // Two nodes that name each other as parent: the forest still ends.
    let mut graph = WorkGraph::default();
    let a = WorkId { hi: 1, lo: 1 };
    let b = WorkId { hi: 2, lo: 2 };
    let t = |parent: WorkId| WorkFields {
        kind: WorkKind::Task,
        status: WorkStatus::Todo,
        role: WorkRole::Unset,
        parent,
        actor: WorkId::zero(),
        summary: "x",
    };
    graph.upsert(a, t(WorkId::zero())).unwrap();
    graph.upsert(b, t(a)).unwrap();
    let drawn = rows(&graph.list(), &Handles::default());
    assert_eq!(drawn.len(), 2);
    assert_eq!(drawn.iter().filter(|r| r.depth == 1).count(), 1);
    assert!(drawn.iter().all(|r| !r.cycle));
}
