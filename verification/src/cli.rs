//! The command line's verbs over a loaded graph: what each does to the
//! graph, what it prints, and whether the graph is to be written back. The
//! host reads the arguments and the snapshot, and writes both out.

use vstd::prelude::*;
use crate::graph::{
    archive_post, claim_post, complete_post, join_hex, link_post, listed, lists, newer, reclaim_post, renew_post,
    unarchive_post, unlink_post, upsert_post, WorkGraph,
};
use crate::id::{parse_hex, WorkId};
use crate::model::GraphView;
use crate::snap::ref_views;
use crate::json::{nodes_json, nodes_text};
use crate::text::{dec, push_dec, push_str};
use crate::work::{parse_kind, parse_role, parse_status, NodeView, WorkFields, WorkKind, WorkNode, WorkRole, WorkStatus};

verus! {

/// A verb and its arguments, as typed.
pub enum Command {
    /// List nodes, newest first; live work only unless asked.
    List { terminal: bool, archived: bool, all: bool, json: bool },
    /// One node by id.
    Get { id: String },
    /// Create or update a node; no id mints one.
    Upsert { id: Option<String>, kind: String, status: String, role: String, parent: String, summary: String, actor: String },
    /// Compare-and-swap claim; no generation, or zero, ignores it.
    Claim { id: String, assignee: String, gen: Option<u64> },
    /// Finish a node.
    Complete { id: String, status: String, summary: String, actor: String, gen: Option<u64> },
    /// Say the holder is still working.
    Renew { id: String, actor: String },
    /// Hand back every claim quiet for longer than the lease.
    Reclaim { lease: u64 },
    /// Add a dependency (parent before child).
    Link { parent: String, child: String, actor: String },
    /// Drop a dependency.
    Unlink { parent: String, child: String, actor: String },
    /// Soft-hide a finished node.
    Archive { id: String, actor: String },
    /// Clear the archive flag.
    Unarchive { id: String, actor: String },
}

/// What a verb leaves for the host: lines to print, and whether the graph
/// is to be written back.
pub struct Reply {
    pub save: bool,
    pub lines: Vec<String>,
}

/// Whether a verb only reads the graph. A reader has nothing to create, so
/// an absent graph is something it has to say.
pub fn reads_only(cmd: &Command) -> (r: bool)
    ensures
        r == (cmd is List || cmd is Get),
{
    match cmd {
        Command::List { .. } | Command::Get { .. } => true,
        _ => false,
    }
}

/// An id as typed: the id, or what to say about it.
pub open spec fn id_or_err(s: Seq<char>) -> Result<WorkId, Seq<char>> {
    match parse_hex(s) {
        Some(id) => Ok(id),
        None => Err("bad id "@ + s),
    }
}

/// Read a 32-hex id.
pub fn parse_id(s: &str) -> (r: Result<WorkId, String>)
    ensures
        match r {
            Ok(id) => id_or_err(s@) == Ok::<WorkId, Seq<char>>(id),
            Err(e) => id_or_err(s@) == Err::<WorkId, Seq<char>>(e@),
        },
{
    match WorkId::from_hex(s) {
        Some(id) => Ok(id),
        None => {
            let mut e = String::new();
            push_str(&mut e, "bad id ");
            push_str(&mut e, s);
            Err(e)
        },
    }
}

/// The line `list` prints for a node.
pub open spec fn list_line(n: NodeView) -> Seq<char> {
    let flag = if n.archived { "  archived"@ } else { Seq::empty() };
    let who = if n.assignee.nil() { Seq::empty() } else { "  "@ + n.assignee.hex().take(8) };
    let role = if n.role == WorkRole::Unset { Seq::empty() } else { "  "@ + n.role.name() };
    n.id.hex() + "  "@ + n.status.name() + "  "@ + n.kind.name() + who + role + "  gen="@ + dec(n.cas_gen as nat) + flag + "  "@ + n.summary
}

/// The two lines `get` prints for a node.
pub open spec fn get_lines(n: NodeView) -> Seq<Seq<char>> {
    let deps = if n.deps.len() == 0 { "-"@ } else { join_hex(n.deps) };
    seq![
        n.id.hex() + "  "@ + n.status.name() + "  "@ + n.kind.name() + "  "@ + n.role.name() + "  gen="@ + dec(n.cas_gen as nat)
            + "  assignee="@ + n.assignee.hex() + "  parent="@ + n.parent.hex() + "  "@ + n.summary,
        "deps  "@ + deps,
    ]
}

/// The line `list` prints for a node.
pub fn list_line_of(n: &WorkNode) -> (r: String)
    ensures
        r@ == list_line(n@),
{
    let mut s = n.id.to_hex();
    push_str(&mut s, "  ");
    push_str(&mut s, n.status.as_str());
    push_str(&mut s, "  ");
    push_str(&mut s, n.kind.as_str());
    if !n.assignee.is_zero() {
        push_str(&mut s, "  ");
        let h = n.assignee.to_hex();
        let cs = crate::text::chars_of(h.as_str());
        crate::text::push_chars(&mut s, &cs.as_slice()[0..8]);
        assert(cs@.subrange(0, 8) =~= n.assignee.hex().take(8));
    }
    if n.role != WorkRole::Unset {
        push_str(&mut s, "  ");
        push_str(&mut s, n.role.as_str());
    }
    push_str(&mut s, "  gen=");
    push_dec(&mut s, n.cas_gen);
    if n.archived {
        push_str(&mut s, "  archived");
    }
    push_str(&mut s, "  ");
    push_str(&mut s, n.summary.as_str());
    assert(s@ =~= list_line(n@));
    s
}

/// Append ids in hex, one space between.
fn push_join_hex(m: &mut String, ids: &Vec<WorkId>)
    ensures
        final(m)@ == old(m)@ + join_hex(ids@),
{
    let ghost start = m@;
    let mut i: usize = 0;
    assert(ids@.take(0) =~= Seq::<WorkId>::empty());
    while i < ids.len()
        invariant
            i <= ids@.len(),
            m@ == start + join_hex(ids@.take(i as int)),
        decreases ids@.len() - i,
    {
        if i > 0 {
            push_str(m, " ");
        }
        let h = ids[i].to_hex();
        push_str(m, h.as_str());
        proof {
            let t = ids@.take(i + 1);
            assert(t.drop_last() =~= ids@.take(i as int));
            assert(t.last() == ids@[i as int]);
            assert(m@ =~= start + join_hex(t));
        }
        i = i + 1;
    }
    assert(ids@.take(ids@.len() as int) =~= ids@);
}

/// The two lines `get` prints for a node.
pub fn get_lines_of(n: &WorkNode) -> (r: (String, String))
    ensures
        seq![r.0@, r.1@] == get_lines(n@),
{
    let mut a = n.id.to_hex();
    push_str(&mut a, "  ");
    push_str(&mut a, n.status.as_str());
    push_str(&mut a, "  ");
    push_str(&mut a, n.kind.as_str());
    push_str(&mut a, "  ");
    push_str(&mut a, n.role.as_str());
    push_str(&mut a, "  gen=");
    push_dec(&mut a, n.cas_gen);
    push_str(&mut a, "  assignee=");
    let h = n.assignee.to_hex();
    push_str(&mut a, h.as_str());
    push_str(&mut a, "  parent=");
    let p = n.parent.to_hex();
    push_str(&mut a, p.as_str());
    push_str(&mut a, "  ");
    push_str(&mut a, n.summary.as_str());
    let mut b = String::new();
    push_str(&mut b, "deps  ");
    if n.deps.len() == 0 {
        push_str(&mut b, "-");
    } else {
        push_join_hex(&mut b, &n.deps);
    }
    assert(seq![a@, b@] =~= get_lines(n@));
    (a, b)
}

/// The text of each line.
pub open spec fn lines_of(v: Seq<String>) -> Seq<Seq<char>> {
    v.map_values(|s: String| s@)
}

/// The verb prints these lines, writes the graph back or not, and prints no JSON.
pub open spec fn says(r: Result<Reply, String>, save: bool, lines: Seq<Seq<char>>) -> bool {
    r matches Ok(rep) && rep.save == save && lines_of(rep.lines@) == lines
}

/// The verb fails with this message.
pub open spec fn fails(r: Result<Reply, String>, m: Seq<char>) -> bool {
    r matches Err(e) && e@ == m
}

/// A change the graph made or refused: on success the line is printed and
/// the graph written back; a refusal is the verb's error.
pub open spec fn answered(res: Result<(), String>, r: Result<Reply, String>, line: Seq<char>) -> bool {
    match res {
        Ok(_) => says(r, true, seq![line]),
        Err(e) => fails(r, e@),
    }
}

/// A claim or renew: the generation is printed.
pub open spec fn answered_gen(res: Result<u64, String>, r: Result<Reply, String>) -> bool {
    match res {
        Ok(c) => says(r, true, seq!["gen="@ + dec(c as nat)]),
        Err(e) => fails(r, e@),
    }
}

/// `ns` is what a listing of `m` shows with these filters: each shown node
/// once, newest first.
pub open spec fn shows(m: Map<WorkId, NodeView>, ns: Seq<NodeView>, t: bool, a: bool) -> bool {
    &&& forall|i: int| 0 <= i < ns.len() ==> m.contains_key((#[trigger] ns[i]).id) && m[ns[i].id] == ns[i] && listed(ns[i], t, a)
    &&& forall|k: WorkId| m.contains_key(k) && listed(m[k], t, a) ==> exists|i: int| 0 <= i < ns.len() && (#[trigger] ns[i]).id == k
    &&& forall|i: int, j: int| 0 <= i < j < ns.len() ==> newer(#[trigger] ns[i], #[trigger] ns[j])
}

/// The lines a listing prints.
pub open spec fn list_lines(ns: Seq<NodeView>) -> Seq<Seq<char>> {
    ns.map_values(|n: NodeView| list_line(n))
}

/// The lines a reclaim prints.
pub open spec fn reclaim_lines(handed: Seq<WorkId>) -> Seq<Seq<char>> {
    if handed.len() == 0 {
        seq!["none"@]
    } else {
        handed.map_values(|k: WorkId| k.hex() + "  reclaimed"@)
    }
}

/// What a listing answers: a line per node, or one line with the nodes as
/// a JSON array.
pub open spec fn listing(r: Result<Reply, String>, ns: Seq<NodeView>, json: bool) -> bool {
    r matches Ok(rep) && !rep.save && if json {
        lines_of(rep.lines@) == seq![nodes_text(ns)]
    } else {
        lines_of(rep.lines@) == list_lines(ns)
    }
}

/// What an upsert asks of the graph.
pub open spec fn asks(f: WorkFields, k: WorkKind, st: WorkStatus, ro: WorkRole, p: WorkId, a: WorkId, summary: Seq<char>) -> bool {
    f.kind == k && f.status == st && f.role == ro && f.parent == p && f.actor == a && f.summary@ == summary
}

/// What an upsert answers.
pub open spec fn upsert_answer(res: Result<WorkId, String>, r: Result<Reply, String>) -> bool {
    match res {
        Ok(out) => says(r, true, seq![out.hex()]),
        Err(e) => fails(r, e@),
    }
}

/// The generation a claim names: none, or zero, names none.
pub open spec fn named_gen(gen: Option<u64>) -> Option<u64> {
    match gen {
        Some(x) => if x == 0 { None } else { Some(x) },
        None => None,
    }
}

/// A listing of `g` with these filters, answered as `r`.
pub open spec fn list_done(g: GraphView, t: bool, a: bool, json: bool, r: Result<Reply, String>) -> bool {
    exists|ns: Seq<NodeView>| shows(g.nodes, ns, t, a) && #[trigger] listing(r, ns, json)
}

/// An upsert of these fields, leaving `h`, answered as `r`.
pub open spec fn upsert_made(g: GraphView, h: GraphView, w: WorkId, k: WorkKind, st: WorkStatus, ro: WorkRole, p: WorkId, a: WorkId, summary: Seq<char>, now: u64, r: Result<Reply, String>) -> bool {
    exists|f: WorkFields, res: Result<WorkId, String>|
        #![trigger asks(f, k, st, ro, p, a, summary), upsert_answer(res, r)]
        upsert_post(g, h, w, f, now, res) && asks(f, k, st, ro, p, a, summary) && upsert_answer(res, r)
}

/// A claim, leaving `h`, answered as `r`.
pub open spec fn claim_done(g: GraphView, h: GraphView, i: WorkId, a: WorkId, gen: Option<u64>, now: u64, r: Result<Reply, String>) -> bool {
    exists|res: Result<u64, String>| claim_post(g, h, i, a, gen, now, res) && #[trigger] answered_gen(res, r)
}

/// A completion, leaving `h`, answered as `r`.
pub open spec fn complete_done(g: GraphView, h: GraphView, i: WorkId, st: WorkStatus, summary: Seq<char>, a: WorkId, gen: Option<u64>, now: u64, r: Result<Reply, String>) -> bool {
    exists|res: Result<(), String>| complete_post(g, h, i, st, summary, a, gen, now, res) && #[trigger] answered(res, r, i.hex() + "  "@ + st.name())
}

/// A renewal, leaving `h`, answered as `r`.
pub open spec fn renew_done(g: GraphView, h: GraphView, i: WorkId, a: WorkId, now: u64, r: Result<Reply, String>) -> bool {
    exists|res: Result<u64, String>| renew_post(g, h, i, a, now, res) && #[trigger] answered_gen(res, r)
}

/// A reclaim, leaving `h`, answered as `r`.
pub open spec fn reclaim_done(g: GraphView, h: GraphView, lease: u64, now: u64, r: Result<Reply, String>) -> bool {
    exists|handed: Seq<WorkId>| reclaim_post(g, h, lease, now, handed) && says(r, handed.len() > 0, #[trigger] reclaim_lines(handed))
}

/// A link, leaving `h`, answered as `r`.
pub open spec fn link_done(g: GraphView, h: GraphView, p: WorkId, c: WorkId, a: WorkId, now: u64, r: Result<Reply, String>) -> bool {
    exists|res: Result<(), String>| link_post(g, h, p, c, a, now, res) && #[trigger] answered(res, r, p.hex() + "  "@ + c.hex())
}

/// An unlink, leaving `h`, answered as `r`.
pub open spec fn unlink_done(g: GraphView, h: GraphView, p: WorkId, c: WorkId, a: WorkId, now: u64, r: Result<Reply, String>) -> bool {
    exists|res: Result<(), String>| unlink_post(g, h, p, c, a, now, res) && #[trigger] answered(res, r, p.hex() + "  "@ + c.hex())
}

/// An archive, leaving `h`, answered as `r`.
pub open spec fn archive_done(g: GraphView, h: GraphView, i: WorkId, a: WorkId, now: u64, r: Result<Reply, String>) -> bool {
    exists|res: Result<(), String>| archive_post(g, h, i, a, now, res) && #[trigger] answered(res, r, i.hex() + "  archived"@)
}

/// An unarchive, leaving `h`, answered as `r`.
pub open spec fn unarchive_done(g: GraphView, h: GraphView, i: WorkId, a: WorkId, now: u64, r: Result<Reply, String>) -> bool {
    exists|res: Result<(), String>| unarchive_post(g, h, i, a, now, res) && #[trigger] answered(res, r, i.hex() + "  live"@)
}

/// What a verb does to graph `g`, leaving `h`, at time `now`, answering `r`.
pub open spec fn executed(g: GraphView, h: GraphView, cmd: Command, now: u64, r: Result<Reply, String>) -> bool {
    match cmd {
        Command::List { terminal, archived, all, json } => {
            &&& h == g
            &&& list_done(g, all || terminal, all || archived, json, r)
        },
        Command::Get { id } => h == g && match id_or_err(id@) {
            Err(e) => fails(r, e),
            Ok(k) => if g.nodes.contains_key(k) {
                says(r, false, get_lines(g.nodes[k]))
            } else {
                fails(r, "not found"@)
            },
        },
        Command::Upsert { id, kind, status, role, parent, summary, actor } => {
            let wid = match id {
                Some(s) => id_or_err(s@),
                None => Ok(WorkId { hi: 0, lo: 0 }),
            };
            match wid {
                Err(e) => h == g && fails(r, e),
                Ok(w) => match parse_kind(kind@) {
                    None => h == g && fails(r, "bad kind "@ + kind@),
                    Some(k) => match parse_status(status@) {
                        None => h == g && fails(r, "bad status "@ + status@),
                        Some(st) => match parse_role(role@) {
                            None => h == g && fails(r, "bad role "@ + role@),
                            Some(ro) => match id_or_err(parent@) {
                                Err(e) => h == g && fails(r, e),
                                Ok(p) => match id_or_err(actor@) {
                                    Err(e) => h == g && fails(r, e),
                                    Ok(a) => upsert_made(g, h, w, k, st, ro, p, a, summary@, now, r),
                                },
                            },
                        },
                    },
                },
            }
        },
        Command::Claim { id, assignee, gen } => match id_or_err(id@) {
            Err(e) => h == g && fails(r, e),
            Ok(i) => match id_or_err(assignee@) {
                Err(e) => h == g && fails(r, e),
                Ok(a) => claim_done(g, h, i, a, named_gen(gen), now, r),
            },
        },
        Command::Complete { id, status, summary, actor, gen } => match parse_status(status@) {
            None => h == g && fails(r, "bad status "@ + status@),
            Some(st) => match id_or_err(id@) {
                Err(e) => h == g && fails(r, e),
                Ok(i) => match id_or_err(actor@) {
                    Err(e) => h == g && fails(r, e),
                    Ok(a) => complete_done(g, h, i, st, summary@, a, gen, now, r),
                },
            },
        },
        Command::Renew { id, actor } => match id_or_err(id@) {
            Err(e) => h == g && fails(r, e),
            Ok(i) => match id_or_err(actor@) {
                Err(e) => h == g && fails(r, e),
                Ok(a) => renew_done(g, h, i, a, now, r),
            },
        },
        Command::Reclaim { lease } => reclaim_done(g, h, lease, now, r),
        Command::Link { parent, child, actor } => match id_or_err(parent@) {
            Err(e) => h == g && fails(r, e),
            Ok(p) => match id_or_err(child@) {
                Err(e) => h == g && fails(r, e),
                Ok(c) => match id_or_err(actor@) {
                    Err(e) => h == g && fails(r, e),
                    Ok(a) => link_done(g, h, p, c, a, now, r),
                },
            },
        },
        Command::Unlink { parent, child, actor } => match id_or_err(parent@) {
            Err(e) => h == g && fails(r, e),
            Ok(p) => match id_or_err(child@) {
                Err(e) => h == g && fails(r, e),
                Ok(c) => match id_or_err(actor@) {
                    Err(e) => h == g && fails(r, e),
                    Ok(a) => unlink_done(g, h, p, c, a, now, r),
                },
            },
        },
        Command::Archive { id, actor } => match id_or_err(id@) {
            Err(e) => h == g && fails(r, e),
            Ok(i) => match id_or_err(actor@) {
                Err(e) => h == g && fails(r, e),
                Ok(a) => archive_done(g, h, i, a, now, r),
            },
        },
        Command::Unarchive { id, actor } => match id_or_err(id@) {
            Err(e) => h == g && fails(r, e),
            Ok(i) => match id_or_err(actor@) {
                Err(e) => h == g && fails(r, e),
                Ok(a) => unarchive_done(g, h, i, a, now, r),
            },
        },
    }
}

fn one_line(s: String) -> (r: Vec<String>)
    ensures
        lines_of(r@) == seq![s@],
{
    let mut v: Vec<String> = Vec::new();
    v.push(s);
    assert(lines_of(v@) =~= seq![s@]);
    v
}

fn saying(save: bool, line: String) -> (r: Result<Reply, String>)
    ensures
        says(r, save, seq![line@]),
{
    Ok(Reply { save, lines: one_line(line) })
}

fn gen_line(c: u64) -> (r: String)
    ensures
        r@ == "gen="@ + dec(c as nat),
{
    let mut s = String::new();
    push_str(&mut s, "gen=");
    push_dec(&mut s, c);
    s
}

fn pair_line(a: WorkId, b: WorkId) -> (r: String)
    ensures
        r@ == a.hex() + "  "@ + b.hex(),
{
    let mut s = a.to_hex();
    push_str(&mut s, "  ");
    let t = b.to_hex();
    push_str(&mut s, t.as_str());
    s
}

fn id_line(a: WorkId, tail: &str) -> (r: String)
    ensures
        r@ == a.hex() + tail@,
{
    let mut s = a.to_hex();
    push_str(&mut s, tail);
    s
}

fn run_list(g: &WorkGraph, terminal: bool, archived: bool, all: bool, json: bool) -> (r: Result<Reply, String>)
    requires
        g.wf(),
    ensures
        list_done(g@, all || terminal, all || archived, json, r),
{
    let t = all || terminal;
    let a = all || archived;
    let nodes = g.list_view(t, a);
    let ghost ns = ref_views(nodes@);
    proof {
        assert forall|i: int| 0 <= i < ns.len() implies g@.nodes.contains_key((#[trigger] ns[i]).id) && g@.nodes[ns[i].id] == ns[i] && listed(ns[i], t, a) by {
            assert(ns[i] == nodes@[i]@);
        }
        assert forall|k: WorkId| g@.nodes.contains_key(k) && listed(g@.nodes[k], t, a) implies exists|i: int| 0 <= i < ns.len() && (#[trigger] ns[i]).id == k by {
            let i = choose|i: int| 0 <= i < nodes@.len() && (#[trigger] nodes@[i]).id == k;
            assert(ns[i] == nodes@[i]@);
        }
        assert forall|i: int, j: int| 0 <= i < j < ns.len() implies newer(#[trigger] ns[i], #[trigger] ns[j]) by {
            assert(ns[i] == nodes@[i]@ && ns[j] == nodes@[j]@);
        }
    }
    if json {
        let text = nodes_json(&nodes);
        let r = Ok(Reply { save: false, lines: one_line(text) });
        assert(listing(r, ns, json));
        r
    } else {
        let mut lines: Vec<String> = Vec::new();
        let mut i: usize = 0;
        while i < nodes.len()
            invariant
                ns == ref_views(nodes@),
                i <= nodes@.len(),
                lines_of(lines@) == list_lines(ns.take(i as int)),
            decreases nodes@.len() - i,
        {
            let line = list_line_of(nodes[i]);
            let ghost before = lines@;
            lines.push(line);
            proof {
                assert(ns[i as int] == nodes@[i as int]@);
                assert(lines_of(lines@) =~= lines_of(before).push(list_line(ns[i as int])));
                assert(list_lines(ns.take(i + 1)) =~= list_lines(ns.take(i as int)).push(list_line(ns[i as int])));
            }
            i = i + 1;
        }
        assert(ns.take(ns.len() as int) =~= ns);
        let r = Ok(Reply { save: false, lines });
        assert(listing(r, ns, json));
        r
    }
}

fn run_get(g: &WorkGraph, id: &str) -> (r: Result<Reply, String>)
    requires
        g.wf(),
    ensures
        match id_or_err(id@) {
            Err(e) => fails(r, e),
            Ok(k) => if g@.nodes.contains_key(k) {
                says(r, false, get_lines(g@.nodes[k]))
            } else {
                fails(r, "not found"@)
            },
        },
{
    let k = match parse_id(id) {
        Ok(k) => k,
        Err(e) => {
            return Err(e);
        },
    };
    match g.get(k) {
        Some(n) => {
            let (a, b) = get_lines_of(n);
            let mut lines: Vec<String> = Vec::new();
            lines.push(a);
            lines.push(b);
            assert(lines_of(lines@) =~= get_lines(g@.nodes[k]));
            Ok(Reply { save: false, lines })
        },
        None => Err(String::from_str("not found")),
    }
}

fn parse_upsert_id(id: &Option<String>) -> (r: Result<WorkId, String>)
    ensures
        match id {
            Some(s) => match id_or_err(s@) {
                Ok(w) => r == Ok::<WorkId, String>(w),
                Err(e) => r matches Err(x) && x@ == e,
            },
            None => r == Ok::<WorkId, String>(WorkId { hi: 0, lo: 0 }),
        },
{
    match id {
        Some(s) => parse_id(s.as_str()),
        None => Ok(WorkId::zero()),
    }
}

/// What an upsert verb does; the same as its arm of `executed`.
pub open spec fn upsert_done(g: GraphView, h: GraphView, cmd: Command, now: u64, r: Result<Reply, String>) -> bool {
    match cmd {
        Command::Upsert { id, kind, status, role, parent, summary, actor } => {
            let wid = match id {
                Some(s) => id_or_err(s@),
                None => Ok(WorkId { hi: 0, lo: 0 }),
            };
            match wid {
                Err(e) => h == g && fails(r, e),
                Ok(w) => match parse_kind(kind@) {
                    None => h == g && fails(r, "bad kind "@ + kind@),
                    Some(k) => match parse_status(status@) {
                        None => h == g && fails(r, "bad status "@ + status@),
                        Some(st) => match parse_role(role@) {
                            None => h == g && fails(r, "bad role "@ + role@),
                            Some(ro) => match id_or_err(parent@) {
                                Err(e) => h == g && fails(r, e),
                                Ok(p) => match id_or_err(actor@) {
                                    Err(e) => h == g && fails(r, e),
                                    Ok(a) => upsert_made(g, h, w, k, st, ro, p, a, summary@, now, r),
                                },
                            },
                        },
                    },
                },
            }
        },
        _ => false,
    }
}

fn run_upsert(
    g: &mut WorkGraph,
    id: Option<String>,
    kind: String,
    status: String,
    role: String,
    parent: String,
    summary: String,
    actor: String,
    now: u64,
) -> (r: Result<Reply, String>)
    requires
        old(g).wf(),
    ensures
        final(g).wf(),
        upsert_done(old(g)@, final(g)@, Command::Upsert { id, kind, status, role, parent, summary, actor }, now, r),
{
    let w = match parse_upsert_id(&id) {
        Ok(w) => w,
        Err(e) => {
            return Err(e);
        },
    };
    let k = match WorkKind::parse_str(kind.as_str()) {
        Some(k) => k,
        None => {
            let mut e = String::new();
            push_str(&mut e, "bad kind ");
            push_str(&mut e, kind.as_str());
            return Err(e);
        },
    };
    let st = match WorkStatus::parse_str(status.as_str()) {
        Some(st) => st,
        None => {
            let mut e = String::new();
            push_str(&mut e, "bad status ");
            push_str(&mut e, status.as_str());
            return Err(e);
        },
    };
    let ro = match WorkRole::parse_str(role.as_str()) {
        Some(ro) => ro,
        None => {
            let mut e = String::new();
            push_str(&mut e, "bad role ");
            push_str(&mut e, role.as_str());
            return Err(e);
        },
    };
    let p = match parse_id(parent.as_str()) {
        Ok(p) => p,
        Err(e) => {
            return Err(e);
        },
    };
    let a = match parse_id(actor.as_str()) {
        Ok(a) => a,
        Err(e) => {
            return Err(e);
        },
    };
    let fields = WorkFields { kind: k, status: st, role: ro, parent: p, actor: a, summary: summary.as_str() };
    let res = g.upsert_at(w, fields, now);
    let ghost gres = res;
    let r = match res {
        Ok(out) => saying(true, out.to_hex()),
        Err(e) => Err(e),
    };
    assert(asks(fields, k, st, ro, p, a, summary@) && upsert_answer(gres, r));
    assert(upsert_post(old(g)@, g@, w, fields, now, gres));
    r
}

fn run_claim(g: &mut WorkGraph, id: &str, assignee: &str, gen: Option<u64>, now: u64) -> (r: Result<Reply, String>)
    requires
        old(g).wf(),
    ensures
        final(g).wf(),
        match id_or_err(id@) {
            Err(e) => final(g)@ == old(g)@ && fails(r, e),
            Ok(i) => match id_or_err(assignee@) {
                Err(e) => final(g)@ == old(g)@ && fails(r, e),
                Ok(a) => claim_done(old(g)@, final(g)@, i, a, named_gen(gen), now, r),
            },
        },
{
    let expected = match gen {
        Some(x) => if x == 0 { None } else { Some(x) },
        None => None,
    };
    let i = match parse_id(id) {
        Ok(i) => i,
        Err(e) => {
            return Err(e);
        },
    };
    let a = match parse_id(assignee) {
        Ok(a) => a,
        Err(e) => {
            return Err(e);
        },
    };
    assert(expected == named_gen(gen));
    let res = g.claim_at(i, a, expected, now);
    let ghost gres = res;
    let r = match res {
        Ok(c) => saying(true, gen_line(c)),
        Err(e) => Err(e),
    };
    assert(answered_gen(gres, r));
    r
}

fn run_complete(g: &mut WorkGraph, id: &str, status: &str, summary: &str, actor: &str, gen: Option<u64>, now: u64) -> (r: Result<Reply, String>)
    requires
        old(g).wf(),
    ensures
        final(g).wf(),
        match parse_status(status@) {
            None => final(g)@ == old(g)@ && fails(r, "bad status "@ + status@),
            Some(st) => match id_or_err(id@) {
                Err(e) => final(g)@ == old(g)@ && fails(r, e),
                Ok(i) => match id_or_err(actor@) {
                    Err(e) => final(g)@ == old(g)@ && fails(r, e),
                    Ok(a) => complete_done(old(g)@, final(g)@, i, st, summary@, a, gen, now, r),
                },
            },
        },
{
    let st = match WorkStatus::parse_str(status) {
        Some(st) => st,
        None => {
            let mut e = String::new();
            push_str(&mut e, "bad status ");
            push_str(&mut e, status);
            return Err(e);
        },
    };
    let i = match parse_id(id) {
        Ok(i) => i,
        Err(e) => {
            return Err(e);
        },
    };
    let a = match parse_id(actor) {
        Ok(a) => a,
        Err(e) => {
            return Err(e);
        },
    };
    let res = g.complete_at(i, st, summary, a, gen, now);
    let ghost gres = res;
    let r = match res {
        Ok(()) => {
            let mut line = i.to_hex();
            push_str(&mut line, "  ");
            push_str(&mut line, st.as_str());
            saying(true, line)
        },
        Err(e) => Err(e),
    };
    assert(answered(gres, r, i.hex() + "  "@ + st.name()));
    assert(complete_post(old(g)@, g@, i, st, summary@, a, gen, now, gres));
    r
}

fn run_renew(g: &mut WorkGraph, id: &str, actor: &str, now: u64) -> (r: Result<Reply, String>)
    requires
        old(g).wf(),
    ensures
        final(g).wf(),
        match id_or_err(id@) {
            Err(e) => final(g)@ == old(g)@ && fails(r, e),
            Ok(i) => match id_or_err(actor@) {
                Err(e) => final(g)@ == old(g)@ && fails(r, e),
                Ok(a) => renew_done(old(g)@, final(g)@, i, a, now, r),
            },
        },
{
    match parse_id(id) {
        Err(e) => Err(e),
        Ok(i) => match parse_id(actor) {
            Err(e) => Err(e),
            Ok(a) => {
                let res = g.renew_at(i, a, now);
                let ghost gres = res;
                let r = match res {
                    Ok(c) => saying(true, gen_line(c)),
                    Err(e) => Err(e),
                };
                assert(answered_gen(gres, r));
                assert(renew_post(old(g)@, g@, i, a, now, gres));
                assert(id_or_err(id@)->Ok_0 == i);
                r
            },
        },
    }
}

fn run_reclaim(g: &mut WorkGraph, lease: u64, now: u64) -> (r: Result<Reply, String>)
    requires
        old(g).wf(),
    ensures
        final(g).wf(),
        reclaim_done(old(g)@, final(g)@, lease, now, r),
{
    let handed = g.reclaim_at(lease, now);
    let mut lines: Vec<String> = Vec::new();
    if handed.len() == 0 {
        lines.push(String::from_str("none"));
        assert(lines_of(lines@) =~= reclaim_lines(handed@));
    } else {
        let mut i: usize = 0;
        while i < handed.len()
            invariant
                i <= handed@.len(),
                handed@.len() > 0,
                lines_of(lines@) == handed@.take(i as int).map_values(|k: WorkId| k.hex() + "  reclaimed"@),
            decreases handed@.len() - i,
        {
            let line = id_line(handed[i], "  reclaimed");
            let ghost before = lines@;
            lines.push(line);
            proof {
                assert(lines_of(lines@) =~= lines_of(before).push(handed@[i as int].hex() + "  reclaimed"@));
                assert(handed@.take(i + 1).map_values(|k: WorkId| k.hex() + "  reclaimed"@)
                    =~= handed@.take(i as int).map_values(|k: WorkId| k.hex() + "  reclaimed"@).push(handed@[i as int].hex() + "  reclaimed"@));
            }
            i = i + 1;
        }
        assert(handed@.take(handed@.len() as int) =~= handed@);
    }
    let r = Ok(Reply { save: handed.len() > 0, lines });
    assert(says(r, handed@.len() > 0, reclaim_lines(handed@)));
    r
}

fn run_link(g: &mut WorkGraph, parent: &str, child: &str, actor: &str, now: u64, linking: bool) -> (r: Result<Reply, String>)
    requires
        old(g).wf(),
    ensures
        final(g).wf(),
        match id_or_err(parent@) {
            Err(e) => final(g)@ == old(g)@ && fails(r, e),
            Ok(p) => match id_or_err(child@) {
                Err(e) => final(g)@ == old(g)@ && fails(r, e),
                Ok(c) => match id_or_err(actor@) {
                    Err(e) => final(g)@ == old(g)@ && fails(r, e),
                    Ok(a) => if linking { link_done(old(g)@, final(g)@, p, c, a, now, r) } else { unlink_done(old(g)@, final(g)@, p, c, a, now, r) },
                },
            },
        },
{
    let p = match parse_id(parent) {
        Ok(p) => p,
        Err(e) => {
            return Err(e);
        },
    };
    let c = match parse_id(child) {
        Ok(c) => c,
        Err(e) => {
            return Err(e);
        },
    };
    let a = match parse_id(actor) {
        Ok(a) => a,
        Err(e) => {
            return Err(e);
        },
    };
    let res = if linking { g.link_dep_at(p, c, a, now) } else { g.unlink_dep_at(p, c, a, now) };
    let ghost gres = res;
    let r = match res {
        Ok(()) => saying(true, pair_line(p, c)),
        Err(e) => Err(e),
    };
    assert(answered(gres, r, p.hex() + "  "@ + c.hex()));
    if linking {
        assert(link_post(old(g)@, g@, p, c, a, now, gres));
    } else {
        assert(unlink_post(old(g)@, g@, p, c, a, now, gres));
    }
    r
}

fn run_archive(g: &mut WorkGraph, id: &str, actor: &str, now: u64, archiving: bool) -> (r: Result<Reply, String>)
    requires
        old(g).wf(),
    ensures
        final(g).wf(),
        match id_or_err(id@) {
            Err(e) => final(g)@ == old(g)@ && fails(r, e),
            Ok(i) => match id_or_err(actor@) {
                Err(e) => final(g)@ == old(g)@ && fails(r, e),
                Ok(a) => if archiving { archive_done(old(g)@, final(g)@, i, a, now, r) } else { unarchive_done(old(g)@, final(g)@, i, a, now, r) },
            },
        },
{
    let i = match parse_id(id) {
        Ok(i) => i,
        Err(e) => {
            return Err(e);
        },
    };
    let a = match parse_id(actor) {
        Ok(a) => a,
        Err(e) => {
            return Err(e);
        },
    };
    let res = if archiving { g.archive_at(i, a, now) } else { g.unarchive_at(i, a, now) };
    let ghost gres = res;
    let r = match res {
        Ok(()) => saying(true, id_line(i, if archiving { "  archived" } else { "  live" })),
        Err(e) => Err(e),
    };
    if archiving {
        assert(answered(gres, r, i.hex() + "  archived"@));
        assert(archive_post(old(g)@, g@, i, a, now, gres));
    } else {
        assert(answered(gres, r, i.hex() + "  live"@));
        assert(unarchive_post(old(g)@, g@, i, a, now, gres));
    }
    r
}

/// Carry out a verb on a loaded graph at time `now`.
pub fn execute_at(g: &mut WorkGraph, cmd: Command, now: u64) -> (r: Result<Reply, String>)
    requires
        old(g).wf(),
    ensures
        final(g).wf(),
        executed(old(g)@, final(g)@, cmd, now, r),
{
    let ghost c0 = cmd;
    match cmd {
        Command::List { terminal, archived, all, json } => run_list(g, terminal, archived, all, json),
        Command::Get { id } => run_get(g, id.as_str()),
        Command::Upsert { id, kind, status, role, parent, summary, actor } => run_upsert(g, id, kind, status, role, parent, summary, actor, now),
        Command::Claim { id, assignee, gen } => run_claim(g, id.as_str(), assignee.as_str(), gen, now),
        Command::Complete { id, status, summary, actor, gen } => run_complete(g, id.as_str(), status.as_str(), summary.as_str(), actor.as_str(), gen, now),
        Command::Renew { id, actor } => run_renew(g, id.as_str(), actor.as_str(), now),
        Command::Reclaim { lease } => run_reclaim(g, lease, now),
        Command::Link { parent, child, actor } => run_link(g, parent.as_str(), child.as_str(), actor.as_str(), now, true),
        Command::Unlink { parent, child, actor } => run_link(g, parent.as_str(), child.as_str(), actor.as_str(), now, false),
        Command::Archive { id, actor } => run_archive(g, id.as_str(), actor.as_str(), now, true),
        Command::Unarchive { id, actor } => run_archive(g, id.as_str(), actor.as_str(), now, false),
    }
}

/// Carry out a verb on a loaded graph now.
pub fn execute(g: &mut WorkGraph, cmd: Command) -> (r: Result<Reply, String>)
    requires
        old(g).wf(),
    ensures
        final(g).wf(),
        exists|now: u64| executed(old(g)@, final(g)@, cmd, now, r),
{
    let now = WorkGraph::now();
    execute_at(g, cmd, now)
}

} // verus!
