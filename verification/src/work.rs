//! What a node is: its closed enums, its fields, and the abstract value the
//! contracts speak of.

use vstd::prelude::*;
use crate::id::WorkId;
use crate::text::str_is;

verus! {

/// Work node status (CAS claim/complete).
#[derive(Clone, Copy, Debug, PartialEq, Eq, Structural)]
pub enum WorkStatus {
    Todo,
    Ready,
    Claimed,
    Running,
    Blocked,
    Done,
    Failed,
    Cancelled,
}

impl WorkStatus {
    /// The wire name of a status.
    pub open spec fn name(self) -> Seq<char> {
        match self {
            WorkStatus::Todo => "todo"@,
            WorkStatus::Ready => "ready"@,
            WorkStatus::Claimed => "claimed"@,
            WorkStatus::Running => "running"@,
            WorkStatus::Blocked => "blocked"@,
            WorkStatus::Done => "done"@,
            WorkStatus::Failed => "failed"@,
            WorkStatus::Cancelled => "cancelled"@,
        }
    }

    /// Done, Failed and Cancelled end a node's life.
    pub open spec fn terminal(self) -> bool {
        self == WorkStatus::Done || self == WorkStatus::Failed || self == WorkStatus::Cancelled
    }

    /// Claimed and Running are held by an assignee.
    pub open spec fn live(self) -> bool {
        self == WorkStatus::Claimed || self == WorkStatus::Running
    }

    /// Todo and Ready are open to a claim.
    pub open spec fn open(self) -> bool {
        self == WorkStatus::Todo || self == WorkStatus::Ready
    }

    pub fn as_str(self) -> (s: &'static str)
        ensures
            s@ == self.name(),
    {
        match self {
            WorkStatus::Todo => "todo",
            WorkStatus::Ready => "ready",
            WorkStatus::Claimed => "claimed",
            WorkStatus::Running => "running",
            WorkStatus::Blocked => "blocked",
            WorkStatus::Done => "done",
            WorkStatus::Failed => "failed",
            WorkStatus::Cancelled => "cancelled",
        }
    }

    pub fn parse_str(s: &str) -> (r: Option<WorkStatus>)
        ensures
            r == parse_status(s@),
    {
        if str_is(s, "todo") {
            Some(WorkStatus::Todo)
        } else if str_is(s, "ready") {
            Some(WorkStatus::Ready)
        } else if str_is(s, "claimed") {
            Some(WorkStatus::Claimed)
        } else if str_is(s, "running") {
            Some(WorkStatus::Running)
        } else if str_is(s, "blocked") {
            Some(WorkStatus::Blocked)
        } else if str_is(s, "done") {
            Some(WorkStatus::Done)
        } else if str_is(s, "failed") {
            Some(WorkStatus::Failed)
        } else if str_is(s, "cancelled") {
            Some(WorkStatus::Cancelled)
        } else {
            None
        }
    }

    pub fn is_terminal(self) -> (r: bool)
        ensures
            r == self.terminal(),
    {
        matches!(self, WorkStatus::Done | WorkStatus::Failed | WorkStatus::Cancelled)
    }

    /// Whether the status is Claimed or Running.
    pub fn is_live(self) -> (r: bool)
        ensures
            r == self.live(),
    {
        matches!(self, WorkStatus::Claimed | WorkStatus::Running)
    }

    /// Whether the status is Todo or Ready.
    pub fn is_open(self) -> (r: bool)
        ensures
            r == self.open(),
    {
        matches!(self, WorkStatus::Todo | WorkStatus::Ready)
    }
}

/// The status a wire name stands for.
pub open spec fn parse_status(s: Seq<char>) -> Option<WorkStatus> {
    if s == "todo"@ {
        Some(WorkStatus::Todo)
    } else if s == "ready"@ {
        Some(WorkStatus::Ready)
    } else if s == "claimed"@ {
        Some(WorkStatus::Claimed)
    } else if s == "running"@ {
        Some(WorkStatus::Running)
    } else if s == "blocked"@ {
        Some(WorkStatus::Blocked)
    } else if s == "done"@ {
        Some(WorkStatus::Done)
    } else if s == "failed"@ {
        Some(WorkStatus::Failed)
    } else if s == "cancelled"@ {
        Some(WorkStatus::Cancelled)
    } else {
        None
    }
}

#[derive(Clone, Copy, Debug, PartialEq, Eq, Structural)]
pub enum WorkRole {
    Unset,
    Explore,
    Architect,
    Implementor,
    Verifier,
    Orchestrator,
    General,
}

impl WorkRole {
    /// The wire name of a role.
    pub open spec fn name(self) -> Seq<char> {
        match self {
            WorkRole::Unset => "unset"@,
            WorkRole::Explore => "explore"@,
            WorkRole::Architect => "architect"@,
            WorkRole::Implementor => "implementor"@,
            WorkRole::Verifier => "verifier"@,
            WorkRole::Orchestrator => "orchestrator"@,
            WorkRole::General => "general"@,
        }
    }

    pub fn as_str(self) -> (s: &'static str)
        ensures
            s@ == self.name(),
    {
        match self {
            WorkRole::Unset => "unset",
            WorkRole::Explore => "explore",
            WorkRole::Architect => "architect",
            WorkRole::Implementor => "implementor",
            WorkRole::Verifier => "verifier",
            WorkRole::Orchestrator => "orchestrator",
            WorkRole::General => "general",
        }
    }

    pub fn parse_str(s: &str) -> (r: Option<WorkRole>)
        ensures
            r == parse_role(s@),
    {
        if str_is(s, "unset") {
            Some(WorkRole::Unset)
        } else if str_is(s, "explore") {
            Some(WorkRole::Explore)
        } else if str_is(s, "architect") {
            Some(WorkRole::Architect)
        } else if str_is(s, "implementor") {
            Some(WorkRole::Implementor)
        } else if str_is(s, "verifier") {
            Some(WorkRole::Verifier)
        } else if str_is(s, "orchestrator") {
            Some(WorkRole::Orchestrator)
        } else if str_is(s, "general") {
            Some(WorkRole::General)
        } else {
            None
        }
    }
}

/// The role a wire name stands for.
pub open spec fn parse_role(s: Seq<char>) -> Option<WorkRole> {
    if s == "unset"@ {
        Some(WorkRole::Unset)
    } else if s == "explore"@ {
        Some(WorkRole::Explore)
    } else if s == "architect"@ {
        Some(WorkRole::Architect)
    } else if s == "implementor"@ {
        Some(WorkRole::Implementor)
    } else if s == "verifier"@ {
        Some(WorkRole::Verifier)
    } else if s == "orchestrator"@ {
        Some(WorkRole::Orchestrator)
    } else if s == "general"@ {
        Some(WorkRole::General)
    } else {
        None
    }
}

#[derive(Clone, Copy, Debug, PartialEq, Eq, Structural)]
pub enum WorkKind {
    Unset,
    Goal,
    Step,
    Task,
    Molecule,
}

impl WorkKind {
    /// The wire name of a kind.
    pub open spec fn name(self) -> Seq<char> {
        match self {
            WorkKind::Unset => "unset"@,
            WorkKind::Goal => "goal"@,
            WorkKind::Step => "step"@,
            WorkKind::Task => "task"@,
            WorkKind::Molecule => "molecule"@,
        }
    }

    pub fn as_str(self) -> (s: &'static str)
        ensures
            s@ == self.name(),
    {
        match self {
            WorkKind::Unset => "unset",
            WorkKind::Goal => "goal",
            WorkKind::Step => "step",
            WorkKind::Task => "task",
            WorkKind::Molecule => "molecule",
        }
    }

    pub fn parse_str(s: &str) -> (r: Option<WorkKind>)
        ensures
            r == parse_kind(s@),
    {
        if str_is(s, "unset") {
            Some(WorkKind::Unset)
        } else if str_is(s, "goal") {
            Some(WorkKind::Goal)
        } else if str_is(s, "step") {
            Some(WorkKind::Step)
        } else if str_is(s, "task") {
            Some(WorkKind::Task)
        } else if str_is(s, "molecule") {
            Some(WorkKind::Molecule)
        } else {
            None
        }
    }
}

/// The kind a wire name stands for.
pub open spec fn parse_kind(s: Seq<char>) -> Option<WorkKind> {
    if s == "unset"@ {
        Some(WorkKind::Unset)
    } else if s == "goal"@ {
        Some(WorkKind::Goal)
    } else if s == "step"@ {
        Some(WorkKind::Step)
    } else if s == "task"@ {
        Some(WorkKind::Task)
    } else if s == "molecule"@ {
        Some(WorkKind::Molecule)
    } else {
        None
    }
}

#[derive(Debug)]
pub struct WorkNode {
    pub id: WorkId,
    pub kind: WorkKind,
    pub status: WorkStatus,
    pub role: WorkRole,
    pub assignee: WorkId,
    pub parent: WorkId,
    pub deps: Vec<WorkId>,
    pub cas_gen: u64,
    pub created_unix: u64,
    pub updated_unix: u64,
    pub finished_unix: u64,
    /// Sole open-content field (writer-owned length).
    pub summary: String,
    /// Soft hide. Only legal on a terminal node. Not a status.
    pub archived: bool,
}

/// The value of a node, as contracts speak of it.
pub struct NodeView {
    pub id: WorkId,
    pub kind: WorkKind,
    pub status: WorkStatus,
    pub role: WorkRole,
    pub assignee: WorkId,
    pub parent: WorkId,
    pub deps: Seq<WorkId>,
    pub cas_gen: u64,
    pub created_unix: u64,
    pub updated_unix: u64,
    pub finished_unix: u64,
    pub summary: Seq<char>,
    pub archived: bool,
}

impl View for WorkNode {
    type V = NodeView;

    open spec fn view(&self) -> NodeView {
        NodeView {
            id: self.id,
            kind: self.kind,
            status: self.status,
            role: self.role,
            assignee: self.assignee,
            parent: self.parent,
            deps: self.deps@,
            cas_gen: self.cas_gen,
            created_unix: self.created_unix,
            updated_unix: self.updated_unix,
            finished_unix: self.finished_unix,
            summary: self.summary@,
            archived: self.archived,
        }
    }
}

impl WorkNode {
    /// A copy of the node.
    pub fn duplicate(&self) -> (r: WorkNode)
        ensures
            r@ == self@,
    {
        WorkNode {
            id: self.id,
            kind: self.kind,
            status: self.status,
            role: self.role,
            assignee: self.assignee,
            parent: self.parent,
            deps: copy_ids(&self.deps),
            cas_gen: self.cas_gen,
            created_unix: self.created_unix,
            updated_unix: self.updated_unix,
            finished_unix: self.finished_unix,
            summary: crate::text::string_of(crate::text::chars_of(self.summary.as_str()).as_slice()),
            archived: self.archived,
        }
    }
}

impl Clone for WorkNode {
    fn clone(&self) -> (r: WorkNode)
        ensures
            r@ == self@,
    {
        self.duplicate()
    }
}

/// A copy of a list of ids.
pub fn copy_ids(v: &Vec<WorkId>) -> (r: Vec<WorkId>)
    ensures
        r@ == v@,
{
    let mut r: Vec<WorkId> = Vec::new();
    let mut i: usize = 0;
    while i < v.len()
        invariant
            i <= v@.len(),
            r@ == v@.take(i as int),
        decreases v@.len() - i,
    {
        r.push(v[i]);
        i = i + 1;
        assert(r@ =~= v@.take(i as int));
    }
    assert(v@.take(v@.len() as int) =~= v@);
    r
}

/// One row of the audit ledger.
#[derive(Debug, Clone, Copy)]
pub struct WorkLedgerEntry {
    pub seq: u64,
    pub ts_unix: u64,
    pub work_id: WorkId,
    pub actor: WorkId,
    /// Closed op tag.
    pub op: &'static str,
}

/// The fields an upsert sets on a node.
#[derive(Debug, Clone, Copy)]
pub struct WorkFields<'a> {
    /// What sort of work it is.
    pub kind: WorkKind,
    /// The status asked for. Readiness is still derived from the dependencies.
    pub status: WorkStatus,
    /// Who the work is for.
    pub role: WorkRole,
    /// The node this one hangs under, or zero.
    pub parent: WorkId,
    /// Who is asking, for the ledger.
    pub actor: WorkId,
    /// The one open text field.
    pub summary: &'a str,
}

/// Every status reads back from its own name.
pub proof fn lemma_status_names_roundtrip(s: WorkStatus)
    ensures
        parse_status(s.name()) == Some(s),
{
    reveal_strlit("todo");
    reveal_strlit("ready");
    reveal_strlit("claimed");
    reveal_strlit("running");
    reveal_strlit("blocked");
    reveal_strlit("done");
    reveal_strlit("failed");
    reveal_strlit("cancelled");
    assert("todo"@.len() == 4 && "todo"@[0] == 't');
    assert("ready"@.len() == 5 && "ready"@[0] == 'r');
    assert("claimed"@.len() == 7 && "claimed"@[0] == 'c');
    assert("running"@.len() == 7 && "running"@[0] == 'r');
    assert("blocked"@.len() == 7 && "blocked"@[0] == 'b');
    assert("done"@.len() == 4 && "done"@[0] == 'd');
    assert("failed"@.len() == 6 && "failed"@[0] == 'f');
    assert("cancelled"@.len() == 9 && "cancelled"@[0] == 'c');
}

/// Every role reads back from its own name.
pub proof fn lemma_role_names_roundtrip(r: WorkRole)
    ensures
        parse_role(r.name()) == Some(r),
{
    reveal_strlit("unset");
    reveal_strlit("explore");
    reveal_strlit("architect");
    reveal_strlit("implementor");
    reveal_strlit("verifier");
    reveal_strlit("orchestrator");
    reveal_strlit("general");
    assert("unset"@.len() == 5 && "unset"@[0] == 'u');
    assert("explore"@.len() == 7 && "explore"@[0] == 'e');
    assert("architect"@.len() == 9 && "architect"@[0] == 'a');
    assert("implementor"@.len() == 11 && "implementor"@[0] == 'i');
    assert("verifier"@.len() == 8 && "verifier"@[0] == 'v');
    assert("orchestrator"@.len() == 12 && "orchestrator"@[0] == 'o');
    assert("general"@.len() == 7 && "general"@[0] == 'g');
}

/// Every kind reads back from its own name.
pub proof fn lemma_kind_names_roundtrip(k: WorkKind)
    ensures
        parse_kind(k.name()) == Some(k),
{
    reveal_strlit("unset");
    reveal_strlit("goal");
    reveal_strlit("step");
    reveal_strlit("task");
    reveal_strlit("molecule");
    assert("unset"@.len() == 5 && "unset"@[0] == 'u');
    assert("goal"@.len() == 4 && "goal"@[0] == 'g');
    assert("step"@.len() == 4 && "step"@[0] == 's');
    assert("task"@.len() == 4 && "task"@[0] == 't');
    assert("molecule"@.len() == 8 && "molecule"@[0] == 'm');
}

} // verus!
