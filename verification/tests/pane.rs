use claimdag::forest::quiet_for;
use claimdag::handles::Handles;
use claimdag::pane::{change_at, Action, App, Effect, Key, DEFAULT_LEASE, HELP};
use claimdag::{WorkFields, WorkGraph, WorkId, WorkKind, WorkRole, WorkStatus};

/// What a directory holds: the snapshot bytes, and a stamp that moves on
/// every write.
struct Disk {
    bytes: Option<Vec<u8>>,
    stamp: u128,
}

impl Disk {
    fn graph(&self) -> WorkGraph {
        WorkGraph::load_dir(self.bytes.as_deref())
    }

    fn write(&mut self, graph: &WorkGraph) {
        self.bytes = Some(graph.save_dir().unwrap());
        self.stamp += 1;
    }
}

/// The host's side of a reload: read the graph and hand it over.
fn reload(app: &mut App, disk: &Disk) {
    let graph = disk.graph();
    app.reload(&graph, Handles::default(), disk.stamp, WorkGraph::now());
}

fn open(disk: &Disk, actor: WorkId) -> App {
    let mut app = App::open("/seat".to_string(), actor);
    reload(&mut app, disk);
    app
}

/// The host's side of a key: perform what the pane asks for.
fn press(app: &mut App, disk: &mut Disk, key: Key) -> Action {
    match app.handle_key(key) {
        Effect::Quit => return Action::Quit,
        Effect::Nothing => {},
        Effect::Reload => reload(app, disk),
        Effect::Change(change) => {
            let mut graph = disk.graph();
            let (message, save) = change_at(&mut graph, change, app.actor(), app.lease, WorkGraph::now());
            app.message = message;
            if save {
                match graph.save_dir() {
                    Ok(bytes) => {
                        disk.bytes = Some(bytes);
                        disk.stamp += 1;
                    },
                    Err(why) => app.message = why,
                }
            }
            reload(app, disk);
        },
    }
    Action::Continue
}

/// The host's idle tick: reload when the files moved.
fn poll(app: &mut App, disk: &Disk) {
    if app.poll(disk.stamp) {
        reload(app, disk);
    }
}

fn todo(summary: &str) -> WorkFields<'_> {
    WorkFields {
        kind: WorkKind::Task,
        status: WorkStatus::Todo,
        role: WorkRole::Unset,
        parent: WorkId::zero(),
        actor: WorkId::zero(),
        summary,
    }
}

fn seeded(disk: &mut Disk) -> WorkId {
    let mut graph = WorkGraph::default();
    let id = graph.mint_id(WorkKind::Task, WorkId::zero(), "land the adapter");
    graph.upsert(id, todo("land the adapter")).unwrap();
    disk.write(&graph);
    id
}

fn empty_disk() -> Disk {
    Disk { bytes: None, stamp: 0 }
}

fn actor() -> WorkId {
    WorkId::from_hex("0123456789abcdef0123456789abcdef").unwrap()
}

#[test]
fn the_pane_opens_on_what_is_on_disk() {
    let mut disk = empty_disk();
    let id = seeded(&mut disk);
    let app = open(&disk, actor());
    assert_eq!(app.rows.len(), 1);
    assert_eq!(app.selected_id(), Some(id));
}

#[test]
fn claiming_writes_through_the_graph_and_shows_up_on_reload() {
    let mut disk = empty_disk();
    let id = seeded(&mut disk);
    let mut app = open(&disk, actor());
    press(&mut app, &mut disk, Key::Char('c'));
    assert_eq!(app.message, "claimed", "{}", app.message);
    let graph = disk.graph();
    assert_eq!(graph.get(id).unwrap().assignee, actor());
}

/// The pane must not be a way around the guard the command line obeys.
#[test]
fn a_stranger_cannot_complete_somebody_elses_work() {
    let mut disk = empty_disk();
    let id = seeded(&mut disk);
    let mut holder = open(&disk, actor());
    press(&mut holder, &mut disk, Key::Char('c'));

    let other = WorkId::from_hex("fedcba9876543210fedcba9876543210").unwrap();
    let mut stranger = open(&disk, other);
    press(&mut stranger, &mut disk, Key::Char('d'));
    assert!(stranger.message.contains("not assignee"), "{}", stranger.message);
    assert!(!disk.graph().get(id).unwrap().status.is_terminal());
}

#[test]
fn finished_work_is_hidden_until_asked_for() {
    let mut disk = empty_disk();
    seeded(&mut disk);
    let mut app = open(&disk, actor());
    press(&mut app, &mut disk, Key::Char('c'));
    press(&mut app, &mut disk, Key::Char('d'));
    assert!(app.rows.is_empty());
    press(&mut app, &mut disk, Key::Char('h'));
    assert_eq!(app.rows.len(), 1);
}

#[test]
fn a_write_from_elsewhere_arrives_without_a_key_press() {
    let mut disk = empty_disk();
    seeded(&mut disk);
    let mut app = open(&disk, actor());
    assert_eq!(app.rows.len(), 1);

    let mut graph = disk.graph();
    let extra = graph.mint_id(WorkKind::Task, WorkId::zero(), "write the tree");
    graph.upsert(extra, todo("write the tree")).unwrap();
    disk.write(&graph);

    poll(&mut app, &disk);
    assert_eq!(app.rows.len(), 2);
}

#[test]
fn the_cursor_stays_on_its_node_across_a_reload() {
    let mut disk = empty_disk();
    let first = seeded(&mut disk);
    let mut graph = disk.graph();
    let second = graph.mint_id(WorkKind::Task, WorkId::zero(), "write the tree");
    graph.upsert(second, todo("write the tree")).unwrap();
    disk.write(&graph);

    let mut app = open(&disk, actor());
    let held = app.rows.iter().position(|row| row.id != first).unwrap();
    app.selected = held;
    let id = app.selected_id();
    reload(&mut app, &disk);
    assert_eq!(app.selected_id(), id);
}

#[test]
fn unlinking_with_no_edge_says_so_rather_than_writing() {
    let mut disk = empty_disk();
    seeded(&mut disk);
    let mut app = open(&disk, actor());
    let before = disk.stamp;
    press(&mut app, &mut disk, Key::Char('u'));
    assert_eq!(app.message, "no edge");
    assert_eq!(disk.stamp, before);
}

/// The pane can act on the stall it is showing, without leaving the pane.
#[test]
fn the_pane_hands_back_a_claim_it_shows_as_quiet() {
    let mut disk = empty_disk();
    let holder = WorkId { hi: 7, lo: 7 };
    let mut graph = WorkGraph::default();
    let node = graph
        .upsert(
            WorkId::zero(),
            WorkFields {
                kind: WorkKind::Task,
                status: WorkStatus::Ready,
                role: WorkRole::Implementor,
                parent: WorkId::zero(),
                actor: holder,
                summary: "the work",
            },
        )
        .expect("upsert");
    graph.claim(node, holder, None).expect("claim");
    disk.write(&graph);

    let mut app = open(&disk, holder);
    press(&mut app, &mut disk, Key::Char('R'));
    assert!(app.message.contains("nothing has been quiet"), "{}", app.message);
    assert_eq!(disk.graph().get(node).expect("node").status, WorkStatus::Claimed);

    app.lease = 0;
    press(&mut app, &mut disk, Key::Char('R'));
    assert!(app.message.contains("handed back 1"), "{}", app.message);
    assert_eq!(disk.graph().get(node).expect("node").status, WorkStatus::Ready);
}

/// A held node says how long it has been quiet.
#[test]
fn a_held_node_shows_how_long_it_has_been_quiet() {
    let mut graph = WorkGraph::default();
    let holder = WorkId { hi: 3, lo: 3 };
    let node = graph
        .upsert(
            WorkId::zero(),
            WorkFields {
                kind: WorkKind::Task,
                status: WorkStatus::Ready,
                role: WorkRole::Implementor,
                parent: WorkId::zero(),
                actor: holder,
                summary: "the work",
            },
        )
        .expect("upsert");
    let ready = graph.get(node).expect("node").clone();
    assert!(quiet_for(&ready).is_none(), "unheld work is not quiet");

    graph.claim(node, holder, None).expect("claim");
    let held = graph.get(node).expect("node").clone();
    let quiet = quiet_for(&held).expect("a held node is quiet for a time");
    assert!(quiet.ends_with('s'), "{quiet}");
}

#[test]
fn a_pane_opens_with_the_default_lease_and_nothing_selected() {
    let app = App::open("/seat".to_string(), actor());
    assert_eq!(app.lease, DEFAULT_LEASE);
    assert_eq!(app.lease, 900);
    assert_eq!(app.selected_id(), None);
    assert_eq!(app.dir(), "/seat");
    assert!(HELP.contains("R reclaim"));
}

#[test]
fn quitting_and_moving_do_not_touch_the_graph() {
    let mut disk = empty_disk();
    seeded(&mut disk);
    let mut graph = disk.graph();
    let second = graph.mint_id(WorkKind::Task, WorkId::zero(), "write the tree");
    graph.upsert(second, todo("write the tree")).unwrap();
    disk.write(&graph);
    let mut app = open(&disk, actor());
    let stamp = disk.stamp;
    assert_eq!(app.selected, 0);
    press(&mut app, &mut disk, Key::Char('j'));
    assert_eq!(app.selected, 1);
    press(&mut app, &mut disk, Key::Down);
    assert_eq!(app.selected, 1, "held to the last row");
    press(&mut app, &mut disk, Key::Up);
    assert_eq!(app.selected, 0);
    press(&mut app, &mut disk, Key::Char('k'));
    assert_eq!(app.selected, 0, "held to the first row");
    press(&mut app, &mut disk, Key::End);
    assert_eq!(app.selected, 1);
    press(&mut app, &mut disk, Key::Home);
    assert_eq!(app.selected, 0);
    assert_eq!(press(&mut app, &mut disk, Key::Char('q')), Action::Quit);
    assert_eq!(press(&mut app, &mut disk, Key::Esc), Action::Quit);
    assert_eq!(disk.stamp, stamp);
}

#[test]
fn acting_on_nothing_asks_for_a_selection() {
    let mut disk = empty_disk();
    let mut app = open(&disk, actor());
    assert!(app.rows.is_empty());
    press(&mut app, &mut disk, Key::Char('c'));
    assert_eq!(app.message, "select a node");
    press(&mut app, &mut disk, Key::Char('A'));
    assert_eq!(app.message, "showing archived work");
    press(&mut app, &mut disk, Key::Char('A'));
    assert_eq!(app.message, "hiding archived work");
    press(&mut app, &mut disk, Key::Char('h'));
    assert_eq!(app.message, "showing finished work");
}

#[test]
fn archiving_live_work_is_refused_with_the_graphs_reason() {
    let mut disk = empty_disk();
    seeded(&mut disk);
    let mut app = open(&disk, actor());
    press(&mut app, &mut disk, Key::Char('a'));
    assert_eq!(app.message, "archive: not terminal");
}

#[test]
fn an_empty_graph_draws_the_bindings_and_says_it_is_empty() {
    let disk = empty_disk();
    let app = open(&disk, WorkId::zero());
    let screen = app.screen();
    assert_eq!(screen.items, vec!["(empty)".to_string()]);
    assert!(screen.status.contains("c claim"), "{}", screen.status);
    assert_eq!(screen.selected, None);
    assert_eq!(screen.title, "work  /seat");
}

#[test]
fn a_child_draws_indented_under_its_parent() {
    let mut disk = empty_disk();
    let mut graph = WorkGraph::default();
    let root = graph.mint_id(WorkKind::Task, WorkId::zero(), "land the adapter");
    graph.upsert(root, todo("land the adapter")).unwrap();
    let kid = graph.mint_id(WorkKind::Task, root, "write the tree");
    graph
        .upsert(
            kid,
            WorkFields {
                kind: WorkKind::Task,
                status: WorkStatus::Todo,
                role: WorkRole::Unset,
                parent: root,
                actor: WorkId::zero(),
                summary: "write the tree",
            },
        )
        .unwrap();
    disk.write(&graph);

    let app = open(&disk, WorkId::zero());
    let screen = app.screen();
    let parent_line = screen.items.iter().find(|line| line.contains("land the adapter")).unwrap();
    let child_line = screen.items.iter().find(|line| line.contains("write the tree")).unwrap();
    let column = |line: &str, needle: &str| line.find(needle).unwrap();
    assert_eq!(column(child_line, "write the tree") - column(parent_line, "land the adapter"), 2);
    assert_eq!(screen.selected, Some(0));
}

#[test]
fn the_status_line_puts_the_last_message_before_the_bindings() {
    let mut disk = empty_disk();
    seeded(&mut disk);
    let mut app = open(&disk, actor());
    press(&mut app, &mut disk, Key::Char('c'));
    assert_eq!(app.screen().status, format!("claimed  |  {HELP}"));
}
