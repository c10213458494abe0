//! The work graph pane's state and decisions. The pane's host does the
//! reading and writing: it hands keys in, performs what a key asks for, and
//! hands back the graph it read. Mutations go through [`WorkGraph`], the same
//! calls the command line makes, so an action a stranger may not take fails
//! here with the message the graph gives it.

use vstd::prelude::*;
use crate::forest::{label_text, rows_at, row_views, tree_of, walk_list, Row, RowView};
use crate::graph::{archive_post, claim_post, complete_post, listed, lists, newer, reclaim_post, unlink_post, WorkGraph};
use crate::handles::Handles;
use crate::id::WorkId;
use crate::snap::ref_views;
use crate::text::{dec, push_dec, push_repeat, push_str, repeat};
use crate::work::{NodeView, WorkNode, WorkStatus};

verus! {

/// What the event loop does after a key.
#[derive(Clone, Copy, Debug, PartialEq, Eq, Structural)]
pub enum Action {
    /// Stay in the event loop.
    Continue,
    /// Leave the event loop.
    Quit,
}

/// The bindings, as drawn in the footer.
pub const HELP: &'static str = "c claim  d done  R reclaim  a archive  u unlink  h done?  A archived?  r reload  q quit";

/// The lease the pane offers, in seconds, matching the command line's default.
pub const DEFAULT_LEASE: u64 = 900;

/// A key, as far as the pane tells keys apart.
#[derive(Clone, Copy, Debug, PartialEq, Eq, Structural)]
pub enum Key {
    Char(char),
    Esc,
    Up,
    Down,
    Home,
    End,
    Other,
}

/// A change to the graph a key asks for.
#[derive(Clone, Copy, Debug, PartialEq, Eq, Structural)]
pub enum Change {
    /// Claim the node for the pane's actor.
    Claim(WorkId),
    /// Finish the node as done.
    Complete(WorkId),
    /// Archive the finished node.
    Archive(WorkId),
    /// Drop the first dependency the node waits on.
    Unlink(WorkId),
    /// Hand back every claim quiet longer than the lease.
    Reclaim,
}

/// What the host does after a key.
#[derive(Clone, Copy, Debug, PartialEq, Eq, Structural)]
pub enum Effect {
    /// Nothing beyond redrawing.
    Nothing,
    /// Leave the event loop.
    Quit,
    /// Read the graph again.
    Reload,
    /// Read the graph, make this change, write it back if asked, and read it again.
    Change(Change),
}

/// The work graph pane.
pub struct App {
    /// The directory this pane is open on.
    pub dir: String,
    /// Who the pane claims as.
    pub actor: WorkId,
    /// Names for actor ids.
    pub handles: Handles,
    /// Rows for the current filter, depth first.
    pub rows: Vec<Row>,
    /// Index into the rows.
    pub selected: usize,
    /// Whether finished work is drawn.
    pub show_terminal: bool,
    /// Whether archived work is drawn.
    pub show_archived: bool,
    /// The last thing that happened, drawn in the status line.
    pub message: String,
    /// What the files looked like at the last reload.
    pub stamp: u128,
    /// How long a claim may go quiet before the pane will hand it back.
    pub lease: u64,
}

/// The id a row list shows under the cursor: none past the end or on a cycle row.
pub open spec fn selected_in(rows: Seq<RowView>, selected: usize) -> Option<WorkId> {
    if selected < rows.len() && !rows[selected as int].cycle {
        Some(rows[selected as int].id)
    } else {
        None
    }
}

/// Where the cursor lands after the rows are rebuilt: on the node it was on,
/// if that node is still drawn, else where it was, pulled back onto the rows.
pub open spec fn cursor_after(rows: Seq<RowView>, held: Option<WorkId>, selected: usize) -> usize {
    if held is Some && exists|i: int| 0 <= i < rows.len() && (#[trigger] rows[i]).id == held->0 {
        (choose|i: int| 0 <= i < rows.len() && rows[i].id == held->0 && forall|j: int| 0 <= j < i ==> (#[trigger] rows[j]).id != held->0) as usize
    } else if rows.len() == 0 {
        0
    } else if selected < rows.len() {
        selected
    } else {
        (rows.len() - 1) as usize
    }
}

/// The cursor moved by `delta` rows, held to the rows; an empty list leaves it.
pub open spec fn moved(len: nat, selected: usize, delta: int) -> usize {
    if len == 0 {
        selected
    } else if delta < 0 {
        if selected + delta < 0 { 0 } else { (selected + delta) as usize }
    } else if selected + delta > len - 1 {
        (len - 1) as usize
    } else {
        (selected + delta) as usize
    }
}

/// The first row that stands for this id.
fn first_row(rows: &Vec<Row>, id: WorkId) -> (r: Option<usize>)
    ensures
        r matches Some(i) ==> i < rows@.len() && row_views(rows@)[i as int].id == id
            && forall|j: int| 0 <= j < i ==> (#[trigger] row_views(rows@)[j]).id != id,
        r is None ==> forall|j: int| 0 <= j < rows@.len() ==> (#[trigger] row_views(rows@)[j]).id != id,
{
    let mut i: usize = 0;
    while i < rows.len()
        invariant
            i <= rows@.len(),
            forall|j: int| 0 <= j < i ==> (#[trigger] row_views(rows@)[j]).id != id,
        decreases rows@.len() - i,
    {
        if rows[i].id == id {
            return Some(i);
        }
        i = i + 1;
    }
    None
}

impl App {
    /// A pane on a directory, before anything is read.
    pub fn open(dir: String, actor: WorkId) -> (r: App)
        ensures
            r.wf(),
            r.dir@ == dir@,
            r.actor == actor,
            r.rows@.len() == 0,
            r.selected == 0,
            !r.show_terminal,
            !r.show_archived,
            r.message@.len() == 0,
            r.lease == DEFAULT_LEASE,
    {
        App {
            dir,
            actor,
            handles: Handles::default(),
            rows: Vec::new(),
            selected: 0,
            show_terminal: false,
            show_archived: false,
            message: String::new(),
            stamp: 0,
            lease: DEFAULT_LEASE,
        }
    }

    /// The pane's names are well formed.
    pub open spec fn wf(&self) -> bool {
        self.handles.wf()
    }

    /// The directory this pane is open on.
    pub fn dir(&self) -> (r: &str)
        ensures
            r@ == self.dir@,
    {
        self.dir.as_str()
    }

    /// Who the pane claims as.
    pub fn actor(&self) -> (r: WorkId)
        ensures
            r == self.actor,
    {
        self.actor
    }

    /// The id under the cursor, if any.
    pub fn selected_id(&self) -> (r: Option<WorkId>)
        ensures
            r == selected_in(row_views(self.rows@), self.selected),
    {
        if self.selected < self.rows.len() && !self.rows[self.selected].cycle {
            Some(self.rows[self.selected].id)
        } else {
            None
        }
    }

    /// Rebuild the rows from a freshly read graph and names, at time `now`,
    /// keeping the cursor on its node. `stamp` is what the files looked like.
    pub fn reload(&mut self, graph: &WorkGraph, handles: Handles, stamp: u128, now: u64)
        requires
            old(self).wf(),
            graph.wf(),
            handles.wf(),
        ensures
            final(self).wf(),
            final(self).handles@ == handles@,
            final(self).stamp == stamp,
            exists|nodes: Seq<&WorkNode>, roots: Seq<WorkId>, ch: Map<WorkId, Seq<WorkId>>|
                lists(graph@.nodes, nodes, |n: NodeView| listed(n, old(self).show_terminal, old(self).show_archived), |a: NodeView, b: NodeView| newer(a, b))
                && tree_of(ref_views(nodes), roots, ch)
                && row_views(final(self).rows@) == #[trigger] walk_list(ref_views(nodes), ch, handles@, now, roots, 0, Seq::empty()),
            final(self).selected == cursor_after(row_views(final(self).rows@), selected_in(row_views(old(self).rows@), old(self).selected), old(self).selected),
            final(self).show_terminal == old(self).show_terminal,
            final(self).show_archived == old(self).show_archived,
            final(self).message == old(self).message,
            final(self).lease == old(self).lease,
            final(self).dir == old(self).dir,
            final(self).actor == old(self).actor,
    {
        let held = self.selected_id();
        self.handles = handles;
        let nodes = graph.list_view(self.show_terminal, self.show_archived);
        self.rows = rows_at(&nodes, &self.handles, now);
        self.stamp = stamp;
        let ghost rv = row_views(self.rows@);
        let found: Option<usize> = match held {
            Some(id) => first_row(&self.rows, id),
            None => None,
        };
        proof {
            if let Some(i) = found {
                let id = held->0;
                let c = choose|c: int| 0 <= c < rv.len() && rv[c].id == id && forall|j: int| 0 <= j < c ==> (#[trigger] rv[j]).id != id;
                if c != i {
                    if c < i {
                        assert(rv[c].id != id);
                    } else {
                        assert(rv[i as int].id != id);
                    }
                }
            }
        }
        self.selected = match found {
            Some(i) => i,
            None => {
                if self.rows.len() == 0 {
                    0
                } else if self.selected < self.rows.len() {
                    self.selected
                } else {
                    self.rows.len() - 1
                }
            },
        };
    }

    /// Whether the files changed since the last reload, going by their stamp.
    pub fn poll(&self, stamp: u128) -> (r: bool)
        ensures
            r == (stamp != self.stamp),
    {
        stamp != self.stamp
    }

    /// Move the cursor by `delta` rows, held to the rows.
    pub fn move_by(&mut self, delta: isize)
        ensures
            final(self).selected == moved(old(self).rows@.len(), old(self).selected, delta as int),
            final(self).rows == old(self).rows,
            final(self).show_terminal == old(self).show_terminal,
            final(self).show_archived == old(self).show_archived,
            final(self).message == old(self).message,
            final(self).lease == old(self).lease,
                        final(self).dir == old(self).dir,
            final(self).actor == old(self).actor,
            final(self).handles == old(self).handles,
            final(self).stamp == old(self).stamp,
    {
        if self.rows.len() == 0 {
            return;
        }
        let last = self.rows.len() - 1;
        if delta < 0 {
            let back: usize = if delta == isize::MIN { (isize::MAX as usize) + 1 } else { (-delta) as usize };
            self.selected = if back > self.selected { 0 } else { self.selected - back };
        } else {
            let ahead = delta as usize;
            self.selected = if ahead > last || self.selected > last - ahead { last } else { self.selected + ahead };
        }
    }
}

/// The message a key's change leaves, and whether the graph is to be
/// written back, given what the graph answered.
pub open spec fn outcome(r: Result<(), String>, done: Seq<char>, msg: Seq<char>, save: bool) -> bool {
    match r {
        Ok(_) => msg == done && save,
        Err(why) => msg == why@ && !save,
    }
}

/// A claim's answer with the generation dropped.
pub open spec fn unit_of(c: Result<u64, String>) -> Result<(), String> {
    match c {
        Ok(_) => Ok(()),
        Err(w) => Err(w),
    }
}

/// What a reclaim says: that nothing was quiet, or how many claims went back.
pub open spec fn reclaim_message(lease: u64, handed: nat) -> Seq<char> {
    if handed == 0 {
        "nothing has been quiet for "@ + dec(lease as nat) + "s"@
    } else if handed == 1 {
        "handed back 1 claim"@
    } else {
        "handed back "@ + dec(handed) + " claims"@
    }
}

/// Make the change a key asked for on a freshly read graph at time `now`,
/// as `actor`, and say what happened and whether to write the graph back.
pub fn change_at(graph: &mut WorkGraph, change: Change, actor: WorkId, lease: u64, now: u64) -> (r: (String, bool))
    requires
        old(graph).wf(),
    ensures
        final(graph).wf(),
        change matches Change::Claim(id) ==> exists|c: Result<u64, String>|
            #[trigger] claim_post(old(graph)@, final(graph)@, id, actor, None, now, c) && outcome(unit_of(c), "claimed"@, r.0@, r.1),
        change matches Change::Complete(id) ==> exists|c: Result<(), String>|
            #[trigger] complete_post(old(graph)@, final(graph)@, id, WorkStatus::Done, Seq::empty(), actor, None, now, c)
                && outcome(c, "done"@, r.0@, r.1),
        change matches Change::Archive(id) ==> exists|c: Result<(), String>|
            #[trigger] archive_post(old(graph)@, final(graph)@, id, actor, now, c) && outcome(c, "archived"@, r.0@, r.1),
        change matches Change::Unlink(id) ==> if old(graph)@.nodes.contains_key(id) && old(graph)@.nodes[id].deps.len() > 0 {
            exists|c: Result<(), String>|
                #[trigger] unlink_post(old(graph)@, final(graph)@, old(graph)@.nodes[id].deps[0], id, actor, now, c)
                    && outcome(c, "unlinked"@, r.0@, r.1)
        } else {
            final(graph)@ == old(graph)@ && r.0@ == "no edge"@ && !r.1
        },
        change is Reclaim ==> exists|handed: Seq<WorkId>|
            #[trigger] reclaim_post(old(graph)@, final(graph)@, lease, now, handed)
                && r.0@ == reclaim_message(lease, handed.len()) && r.1 == (handed.len() > 0),
{
    match change {
        Change::Claim(id) => {
            let c = graph.claim_at(id, actor, None, now);
            let ghost cc = c;
            let r = match c {
                Ok(_) => (String::from_str("claimed"), true),
                Err(why) => (why, false),
            };
            assert(claim_post(old(graph)@, graph@, id, actor, None, now, cc));
            r
        },
        Change::Complete(id) => {
            proof {
                reveal_strlit("");
                assert(""@ =~= Seq::<char>::empty());
            }
            match graph.complete_at(id, WorkStatus::Done, "", actor, None, now) {
                Ok(()) => (String::from_str("done"), true),
                Err(why) => (why, false),
            }
        },
        Change::Archive(id) => {
            match graph.archive_at(id, actor, now) {
                Ok(()) => (String::from_str("archived"), true),
                Err(why) => (why, false),
            }
        },
        Change::Unlink(id) => {
            let dep = match graph.get(id) {
                Some(node) => if node.deps.len() > 0 {
                    Some(node.deps[0])
                } else {
                    None
                },
                None => None,
            };
            match dep {
                None => (String::from_str("no edge"), false),
                Some(dep) => match graph.unlink_dep_at(dep, id, actor, now) {
                    Ok(()) => (String::from_str("unlinked"), true),
                    Err(why) => (why, false),
                },
            }
        },
        Change::Reclaim => {
            let handed = graph.reclaim_at(lease, now);
            let mut msg = String::new();
            if handed.len() == 0 {
                push_str(&mut msg, "nothing has been quiet for ");
                push_dec(&mut msg, lease);
                push_str(&mut msg, "s");
            } else if handed.len() == 1 {
                push_str(&mut msg, "handed back 1 claim");
            } else {
                push_str(&mut msg, "handed back ");
                push_dec(&mut msg, handed.len() as u64);
                push_str(&mut msg, " claims");
            }
            assert(msg@ =~= reclaim_message(lease, handed@.len()));
            (msg, handed.len() > 0)
        },
    }
}

impl App {
    /// Ask for a change to the node under the cursor, or say there is none.
    fn on_selected(&mut self, make: Change) -> (e: Effect)
        ensures
            final(self).rows == old(self).rows,
            final(self).selected == old(self).selected,
            final(self).show_terminal == old(self).show_terminal,
            final(self).show_archived == old(self).show_archived,
            final(self).lease == old(self).lease,
            final(self).handles == old(self).handles,
            final(self).dir == old(self).dir,
            final(self).actor == old(self).actor,
            final(self).stamp == old(self).stamp,
            match selected_in(row_views(old(self).rows@), old(self).selected) {
                Some(_) => e == Effect::Change(make) && final(self).message == old(self).message,
                None => e == Effect::Nothing && final(self).message@ == "select a node"@,
            },
    {
        match self.selected_id() {
            Some(_) => Effect::Change(make),
            None => {
                self.message = String::from_str("select a node");
                Effect::Nothing
            },
        }
    }

    /// What a key does to the pane, and what it asks the host to do.
    pub fn handle_key(&mut self, key: Key) -> (e: Effect)
        ensures
            final(self).rows == old(self).rows,
            final(self).lease == old(self).lease,
            final(self).handles == old(self).handles,
            final(self).dir == old(self).dir,
            final(self).actor == old(self).actor,
            final(self).stamp == old(self).stamp,
            key_effect(*old(self), key, *final(self), e),
    {
        let sel = self.selected_id();
        match key {
            Key::Char('q') | Key::Esc => Effect::Quit,
            Key::Char('j') | Key::Down => {
                self.move_by(1);
                Effect::Nothing
            },
            Key::Char('k') | Key::Up => {
                self.move_by(-1);
                Effect::Nothing
            },
            Key::Home => {
                self.selected = 0;
                Effect::Nothing
            },
            Key::End => {
                self.selected = self.rows.len().saturating_sub(1);
                Effect::Nothing
            },
            Key::Char('r') => Effect::Reload,
            Key::Char('h') => {
                self.show_terminal = !self.show_terminal;
                self.message = if self.show_terminal {
                    String::from_str("showing finished work")
                } else {
                    String::from_str("hiding finished work")
                };
                Effect::Reload
            },
            Key::Char('A') => {
                self.show_archived = !self.show_archived;
                self.message = if self.show_archived {
                    String::from_str("showing archived work")
                } else {
                    String::from_str("hiding archived work")
                };
                Effect::Reload
            },
            Key::Char('c') => self.on_selected(Change::Claim(match sel { Some(id) => id, None => WorkId::zero() })),
            Key::Char('d') => self.on_selected(Change::Complete(match sel { Some(id) => id, None => WorkId::zero() })),
            Key::Char('a') => self.on_selected(Change::Archive(match sel { Some(id) => id, None => WorkId::zero() })),
            Key::Char('u') => self.on_selected(Change::Unlink(match sel { Some(id) => id, None => WorkId::zero() })),
            Key::Char('R') => Effect::Change(Change::Reclaim),
            _ => Effect::Nothing,
        }
    }
}

/// The change a key asks for on the node under the cursor.
pub open spec fn change_on(c: char, id: WorkId) -> Change {
    if c == 'c' {
        Change::Claim(id)
    } else if c == 'd' {
        Change::Complete(id)
    } else if c == 'a' {
        Change::Archive(id)
    } else {
        Change::Unlink(id)
    }
}

/// What a key does: `a` is the pane before, `b` after, `e` what the host is asked.
pub open spec fn key_effect(a: App, key: Key, b: App, e: Effect) -> bool {
    let sel = selected_in(row_views(a.rows@), a.selected);
    let same_view = b.selected == a.selected && b.show_terminal == a.show_terminal && b.show_archived == a.show_archived;
    match key {
        Key::Esc => e == Effect::Quit && same_view && b.message == a.message,
        Key::Up => e == Effect::Nothing && b.selected == moved(a.rows@.len(), a.selected, -1)
            && b.show_terminal == a.show_terminal && b.show_archived == a.show_archived && b.message == a.message,
        Key::Down => e == Effect::Nothing && b.selected == moved(a.rows@.len(), a.selected, 1)
            && b.show_terminal == a.show_terminal && b.show_archived == a.show_archived && b.message == a.message,
        Key::Home => e == Effect::Nothing && b.selected == 0
            && b.show_terminal == a.show_terminal && b.show_archived == a.show_archived && b.message == a.message,
        Key::End => e == Effect::Nothing && b.selected == (if a.rows@.len() == 0 { 0 } else { (a.rows@.len() - 1) as usize })
            && b.show_terminal == a.show_terminal && b.show_archived == a.show_archived && b.message == a.message,
        Key::Other => e == Effect::Nothing && same_view && b.message == a.message,
        Key::Char(c) => if c == 'q' {
            e == Effect::Quit && same_view && b.message == a.message
        } else if c == 'j' {
            e == Effect::Nothing && b.selected == moved(a.rows@.len(), a.selected, 1)
                && b.show_terminal == a.show_terminal && b.show_archived == a.show_archived && b.message == a.message
        } else if c == 'k' {
            e == Effect::Nothing && b.selected == moved(a.rows@.len(), a.selected, -1)
                && b.show_terminal == a.show_terminal && b.show_archived == a.show_archived && b.message == a.message
        } else if c == 'r' {
            e == Effect::Reload && same_view && b.message == a.message
        } else if c == 'h' {
            e == Effect::Reload && b.selected == a.selected && b.show_archived == a.show_archived
                && b.show_terminal == !a.show_terminal
                && b.message@ == (if b.show_terminal { "showing finished work"@ } else { "hiding finished work"@ })
        } else if c == 'A' {
            e == Effect::Reload && b.selected == a.selected && b.show_terminal == a.show_terminal
                && b.show_archived == !a.show_archived
                && b.message@ == (if b.show_archived { "showing archived work"@ } else { "hiding archived work"@ })
        } else if c == 'c' || c == 'd' || c == 'a' || c == 'u' {
            same_view && match sel {
                Some(id) => e == Effect::Change(change_on(c, id)) && b.message == a.message,
                None => e == Effect::Nothing && b.message@ == "select a node"@,
            }
        } else if c == 'R' {
            e == Effect::Change(Change::Reclaim) && same_view && b.message == a.message
        } else {
            e == Effect::Nothing && same_view && b.message == a.message
        },
    }
}

/// What the pane draws: the title line, the forest's lines, the line under
/// the cursor, and the status line.
pub struct Screen {
    pub title: String,
    pub items: Vec<String>,
    pub selected: Option<usize>,
    pub status: String,
}

/// A row as drawn: indented two spaces per level.
pub open spec fn item_line(r: RowView) -> Seq<char> {
    repeat("  "@, r.depth) + r.label
}

/// The forest's lines: one per row, or `(empty)`.
pub open spec fn item_lines(rows: Seq<RowView>) -> Seq<Seq<char>> {
    if rows.len() == 0 {
        seq!["(empty)"@]
    } else {
        rows.map_values(|r: RowView| item_line(r))
    }
}

/// The line the cursor is on: none with no rows, else the cursor held to the rows.
pub open spec fn drawn_cursor(len: nat, selected: usize) -> Option<usize> {
    if len == 0 {
        None
    } else if selected < len {
        Some(selected)
    } else {
        Some((len - 1) as usize)
    }
}

/// The status line: the bindings, after the last message when there is one.
pub open spec fn status_line(message: Seq<char>) -> Seq<char> {
    if message.len() == 0 {
        HELP@
    } else {
        message + "  |  "@ + HELP@
    }
}

impl App {
    /// What the pane draws. Nothing here names a colour: the terminal's own
    /// palette is the seat's theme.
    pub fn screen(&self) -> (r: Screen)
        ensures
            r.title@ == "work  "@ + self.dir@,
            r.items@.map_values(|s: String| s@) == item_lines(row_views(self.rows@)),
            r.selected == drawn_cursor(self.rows@.len(), self.selected),
            r.status@ == status_line(self.message@),
    {
        let mut title = String::new();
        push_str(&mut title, "work  ");
        push_str(&mut title, self.dir.as_str());
        let mut items: Vec<String> = Vec::new();
        if self.rows.len() == 0 {
            items.push(String::from_str("(empty)"));
            assert(items@.map_values(|s: String| s@) =~= item_lines(row_views(self.rows@)));
        } else {
            let mut k: usize = 0;
            while k < self.rows.len()
                invariant
                    k <= self.rows@.len(),
                    self.rows@.len() > 0,
                    items@.map_values(|s: String| s@) == row_views(self.rows@).take(k as int).map_values(|r: RowView| item_line(r)),
                decreases self.rows@.len() - k,
            {
                let row = &self.rows[k];
                let mut line = String::new();
                push_repeat(&mut line, "  ", row.depth);
                push_str(&mut line, row.label.as_str());
                let ghost before = items@;
                items.push(line);
                proof {
                    assert(row_views(self.rows@)[k as int] == self.rows@[k as int]@);
                    assert(items@.map_values(|s: String| s@) =~= before.map_values(|s: String| s@).push(item_line(row_views(self.rows@)[k as int])));
                    assert(row_views(self.rows@).take(k + 1).map_values(|r: RowView| item_line(r))
                        =~= row_views(self.rows@).take(k as int).map_values(|r: RowView| item_line(r)).push(item_line(row_views(self.rows@)[k as int])));
                }
                k = k + 1;
            }
            assert(row_views(self.rows@).take(self.rows@.len() as int) =~= row_views(self.rows@));
        }
        let selected = if self.rows.len() == 0 {
            None
        } else if self.selected < self.rows.len() {
            Some(self.selected)
        } else {
            Some(self.rows.len() - 1)
        };
        let mut status = String::new();
        if self.message.as_str().is_empty() {
            push_str(&mut status, HELP);
        } else {
            push_str(&mut status, self.message.as_str());
            push_str(&mut status, "  |  ");
            push_str(&mut status, HELP);
        }
        Screen { title, items, selected, status }
    }
}

} // verus!
