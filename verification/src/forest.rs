//! The parent tree, and the one line each node draws as.
//!
//! The graph is a DAG over dependencies and a forest over parents. A pane
//! shows the forest, because that is the shape a person navigates, and the
//! dependency count rides along on the label.

use vstd::prelude::*;
use crate::id::WorkId;
use crate::snap::ref_views;
use crate::sort::{keyed_lt, keyed_sorted, sort_keyed, Keyed};
use crate::work::{NodeView, WorkNode, WorkRole};
use crate::handles::Handles;
use crate::graph::{contains_id, WorkGraph};
use crate::text::{chars_of, dec, push_chars, push_dec, push_repeat, push_str, repeat, trim, trim_bounds};

verus! {

/// `a` comes no later than `b` in id order.
pub open spec fn id_le(a: WorkId, b: WorkId) -> bool {
    a.hi < b.hi || (a.hi == b.hi && a.lo <= b.lo)
}

/// Node `i` of the list hangs under a parent that is also in the list.
pub open spec fn hangs(ns: Seq<NodeView>, i: int) -> bool {
    let p = ns[i].parent;
    &&& !p.nil()
    &&& p != ns[i].id
    &&& exists|j: int| 0 <= j < ns.len() && (#[trigger] ns[j]).id == p
}

/// Which nodes a sorted pick takes: the roots, or the children of `p`.
pub open spec fn chosen(ns: Seq<NodeView>, roots: bool, p: WorkId, i: int) -> bool {
    if roots {
        !hangs(ns, i)
    } else {
        hangs(ns, i) && ns[i].parent == p
    }
}

/// `out` holds the ids of the chosen nodes, each chosen position once, in
/// id order; `pos` says which position each came from.
pub open spec fn picked_at(ns: Seq<NodeView>, out: Seq<WorkId>, roots: bool, p: WorkId, pos: Seq<int>) -> bool {
    &&& pos.len() == out.len()
    &&& pos.no_duplicates()
    &&& forall|k: int| 0 <= k < pos.len() ==> 0 <= #[trigger] pos[k] < ns.len() && chosen(ns, roots, p, pos[k]) && out[k] == ns[pos[k]].id
    &&& forall|i: int| 0 <= i < ns.len() && chosen(ns, roots, p, i) ==> #[trigger] pos.contains(i)
    &&& forall|a: int, b: int| 0 <= a < b < out.len() ==> id_le(#[trigger] out[a], #[trigger] out[b])
}

/// `out` is the chosen ids in id order.
pub open spec fn picked(ns: Seq<NodeView>, out: Seq<WorkId>, roots: bool, p: WorkId) -> bool {
    exists|pos: Seq<int>| #[trigger] picked_at(ns, out, roots, p, pos)
}

/// Whether node `i` hangs under a parent in the list.
fn hangs_at(nodes: &Vec<&WorkNode>, i: usize) -> (r: bool)
    requires
        i < nodes@.len(),
    ensures
        r == hangs(ref_views(nodes@), i as int),
{
    let ghost ns = ref_views(nodes@);
    let p = nodes[i].parent;
    assert(ns[i as int] == nodes@[i as int]@);
    if p.is_zero() || p == nodes[i].id {
        return false;
    }
    let mut j: usize = 0;
    while j < nodes.len()
        invariant
            ns == ref_views(nodes@),
            i < nodes@.len(),
            p == ns[i as int].parent,
            !p.nil(),
            p != ns[i as int].id,
            j <= nodes@.len(),
            forall|k: int| 0 <= k < j ==> (#[trigger] ns[k]).id != p,
        decreases nodes@.len() - j,
    {
        if nodes[j].id == p {
            assert(ns[j as int].id == p);
            return true;
        }
        j = j + 1;
    }
    false
}

/// The chosen ids, in id order.
fn sorted_pick(nodes: &Vec<&WorkNode>, roots: bool, p: WorkId) -> (r: Vec<WorkId>)
    ensures
        picked(ref_views(nodes@), r@, roots, p),
{
    let ghost ns = ref_views(nodes@);
    let mut keyed: Vec<Keyed> = Vec::new();
    let mut i: usize = 0;
    while i < nodes.len()
        invariant
            ns == ref_views(nodes@),
            i <= nodes@.len(),
            forall|a: int, b: int| 0 <= a < b < keyed@.len() ==> (#[trigger] keyed@[a]).at < (#[trigger] keyed@[b]).at,
            forall|k: int| 0 <= k < keyed@.len() ==> {
                let e = #[trigger] keyed@[k];
                &&& e.at < i
                &&& e.k0 == ns[e.at as int].id.hi
                &&& e.k1 == ns[e.at as int].id.lo
                &&& e.k2 == 0
                &&& e.k3 == 0
                &&& chosen(ns, roots, p, e.at as int)
            },
            forall|j: int| 0 <= j < i && chosen(ns, roots, p, j) ==> exists|k: int| 0 <= k < keyed@.len() && (#[trigger] keyed@[k]).at == j,
        decreases nodes@.len() - i,
    {
        let h = hangs_at(nodes, i);
        let take = if roots { !h } else { h && nodes[i].parent == p };
        if take {
            let ghost before = keyed@;
            keyed.push(Keyed { k0: nodes[i].id.hi, k1: nodes[i].id.lo, k2: 0, k3: 0, at: i });
            assert(keyed@[before.len() as int].at == i);
            assert forall|j: int| 0 <= j < i && chosen(ns, roots, p, j) implies exists|k: int| 0 <= k < keyed@.len() && (#[trigger] keyed@[k]).at == j by {
                let k = choose|k: int| 0 <= k < before.len() && (#[trigger] before[k]).at == j;
                assert(keyed@[k] == before[k]);
            }
        }
        i = i + 1;
    }
    assert(keyed@.no_duplicates()) by {
        assert forall|a: int, b: int| 0 <= a < keyed@.len() && 0 <= b < keyed@.len() && a != b implies keyed@[a] != keyed@[b] by {
            if a < b {
                assert(keyed@[a].at < keyed@[b].at);
            } else {
                assert(keyed@[b].at < keyed@[a].at);
            }
        }
    }
    let sorted = sort_keyed(keyed);
    let mut out: Vec<WorkId> = Vec::new();
    let mut j: usize = 0;
    while j < sorted.len()
        invariant
            ns == ref_views(nodes@),
            j <= sorted@.len(),
            forall|e: Keyed| sorted@.contains(e) <==> keyed@.contains(e),
            forall|k: int| 0 <= k < keyed@.len() ==> (#[trigger] keyed@[k]).at < nodes@.len(),
            out@.len() == j,
            forall|k: int| 0 <= k < j ==> (#[trigger] out@[k]) == ns[sorted@[k].at as int].id,
        decreases sorted@.len() - j,
    {
        proof {
            assert(sorted@.contains(sorted@[j as int]));
            let kk = choose|kk: int| 0 <= kk < keyed@.len() && keyed@[kk] == sorted@[j as int];
        }
        out.push(nodes[sorted[j].at].id);
        j = j + 1;
    }
    proof {
        let pos = Seq::new(sorted@.len(), |k: int| sorted@[k].at as int);
        assert forall|e: Keyed| #[trigger] sorted@.contains(e) implies {
            &&& e.at < ns.len()
            &&& e.k0 == ns[e.at as int].id.hi
            &&& e.k1 == ns[e.at as int].id.lo
            &&& e.k2 == 0
            &&& e.k3 == 0
            &&& chosen(ns, roots, p, e.at as int)
        } by {
            assert(keyed@.contains(e));
            let k = choose|k: int| 0 <= k < keyed@.len() && keyed@[k] == e;
            assert(keyed@[k] == e);
        }
        assert forall|k: int| 0 <= k < pos.len() implies 0 <= #[trigger] pos[k] < ns.len() && chosen(ns, roots, p, pos[k]) && out@[k] == ns[pos[k]].id by {
            assert(sorted@.contains(sorted@[k]));
        }
        assert(pos.no_duplicates()) by {
            assert forall|a: int, b: int| 0 <= a < pos.len() && 0 <= b < pos.len() && a != b implies pos[a] != pos[b] by {
                assert(sorted@.contains(sorted@[a]));
                assert(sorted@.contains(sorted@[b]));
                if a < b {
                    assert(keyed_lt(sorted@[a], sorted@[b]));
                } else {
                    assert(keyed_lt(sorted@[b], sorted@[a]));
                }
            }
        }
        assert forall|i: int| 0 <= i < ns.len() && chosen(ns, roots, p, i) implies #[trigger] pos.contains(i) by {
            let kk = choose|kk: int| 0 <= kk < keyed@.len() && (#[trigger] keyed@[kk]).at == i;
            assert(keyed@.contains(keyed@[kk]));
            let k = choose|k: int| 0 <= k < sorted@.len() && sorted@[k] == keyed@[kk];
            assert(pos[k] == i);
        }
        assert forall|a: int, b: int| 0 <= a < b < out@.len() implies id_le(#[trigger] out@[a], #[trigger] out@[b]) by {
            assert(sorted@.contains(sorted@[a]));
            assert(sorted@.contains(sorted@[b]));
            assert(keyed_lt(sorted@[a], sorted@[b]));
        }
        assert(picked_at(ns, out@, roots, p, pos));
    }
    out
}

/// Some node of the list hangs under `p`.
pub open spec fn has_kids(ns: Seq<NodeView>, p: WorkId) -> bool {
    exists|i: int| 0 <= i < ns.len() && hangs(ns, i) && (#[trigger] ns[i]).parent == p
}

/// The parents that have children in the list, each once, in id order.
fn parents_of(nodes: &Vec<&WorkNode>) -> (r: Vec<WorkId>)
    ensures
        forall|a: int, b: int| 0 <= a < b < r@.len() ==> (#[trigger] r@[a]).lt(#[trigger] r@[b]),
        forall|p: WorkId| r@.contains(p) <==> has_kids(ref_views(nodes@), p),
{
    let ghost ns = ref_views(nodes@);
    let mut keyed: Vec<Keyed> = Vec::new();
    let mut i: usize = 0;
    while i < nodes.len()
        invariant
            ns == ref_views(nodes@),
            i <= nodes@.len(),
            forall|a: int, b: int| 0 <= a < b < keyed@.len() ==> (#[trigger] keyed@[a]).at < (#[trigger] keyed@[b]).at,
            forall|k: int| 0 <= k < keyed@.len() ==> {
                let e = #[trigger] keyed@[k];
                &&& e.at < i
                &&& e.k0 == ns[e.at as int].parent.hi
                &&& e.k1 == ns[e.at as int].parent.lo
                &&& e.k2 == 0
                &&& e.k3 == 0
                &&& hangs(ns, e.at as int)
            },
            forall|j: int| 0 <= j < i && hangs(ns, j) ==> exists|k: int| 0 <= k < keyed@.len() && (#[trigger] keyed@[k]).at == j,
        decreases nodes@.len() - i,
    {
        if hangs_at(nodes, i) {
            let ghost before = keyed@;
            keyed.push(Keyed { k0: nodes[i].parent.hi, k1: nodes[i].parent.lo, k2: 0, k3: 0, at: i });
            assert(keyed@[before.len() as int].at == i);
            assert forall|j: int| 0 <= j < i && hangs(ns, j) implies exists|k: int| 0 <= k < keyed@.len() && (#[trigger] keyed@[k]).at == j by {
                let k = choose|k: int| 0 <= k < before.len() && (#[trigger] before[k]).at == j;
                assert(keyed@[k] == before[k]);
            }
        }
        i = i + 1;
    }
    assert(keyed@.no_duplicates()) by {
        assert forall|a: int, b: int| 0 <= a < keyed@.len() && 0 <= b < keyed@.len() && a != b implies keyed@[a] != keyed@[b] by {
            if a < b {
                assert(keyed@[a].at < keyed@[b].at);
            } else {
                assert(keyed@[b].at < keyed@[a].at);
            }
        }
    }
    let sorted = sort_keyed(keyed);
    proof {
        assert forall|e: Keyed| #[trigger] sorted@.contains(e) implies {
            &&& e.at < ns.len()
            &&& e.k0 == ns[e.at as int].parent.hi
            &&& e.k1 == ns[e.at as int].parent.lo
            &&& hangs(ns, e.at as int)
        } by {
            assert(keyed@.contains(e));
            let k = choose|k: int| 0 <= k < keyed@.len() && keyed@[k] == e;
            assert(keyed@[k] == e);
        }
    }
    let mut out: Vec<WorkId> = Vec::new();
    let mut j: usize = 0;
    while j < sorted.len()
        invariant
            ns == ref_views(nodes@),
            j <= sorted@.len(),
            keyed_sorted(sorted@),
            forall|e: Keyed| #[trigger] sorted@.contains(e) ==> {
                &&& e.at < ns.len()
                &&& e.k0 == ns[e.at as int].parent.hi
                &&& e.k1 == ns[e.at as int].parent.lo
                &&& hangs(ns, e.at as int)
            },
            forall|a: int, b: int| 0 <= a < b < out@.len() ==> (#[trigger] out@[a]).lt(#[trigger] out@[b]),
            forall|p: WorkId| out@.contains(p) ==> has_kids(ns, p),
            forall|k: int| 0 <= k < j ==> out@.contains(#[trigger] ns[sorted@[k].at as int].parent),
            j > 0 ==> out@.len() > 0 && out@.last() == ns[sorted@[j - 1].at as int].parent,
            j == 0 ==> out@.len() == 0,
        decreases sorted@.len() - j,
    {
        let at = sorted[j].at;
        assert(sorted@.contains(sorted@[j as int]));
        let p = nodes[at].parent;
        assert(p == ns[at as int].parent);
        let ghost before = out@;
        let fresh = out.len() == 0 || out[out.len() - 1] != p;
        if fresh {
            proof {
                if j > 0 {
                    assert(sorted@.contains(sorted@[j - 1]));
                    assert(keyed_lt(sorted@[j - 1], sorted@[j as int]));
                    assert(before.last().lt(p));
                }
            }
            out.push(p);
            proof {
                assert forall|a: int, b: int| 0 <= a < b < out@.len() implies (#[trigger] out@[a]).lt(#[trigger] out@[b]) by {
                    if b == out@.len() - 1 && a < b - 1 {
                        assert(before[a].lt(before.last()));
                    }
                }
                assert forall|q: WorkId| out@.contains(q) implies has_kids(ns, q) by {
                    let k = choose|k: int| 0 <= k < out@.len() && out@[k] == q;
                    if k < before.len() {
                        assert(before.contains(before[k]));
                    } else {
                        assert(ns[at as int].parent == q);
                    }
                }
                assert forall|k: int| 0 <= k < j + 1 implies out@.contains(#[trigger] ns[sorted@[k].at as int].parent) by {
                    if k < j {
                        let q = ns[sorted@[k].at as int].parent;
                        let t = choose|t: int| 0 <= t < before.len() && before[t] == q;
                        assert(out@[t] == q);
                    } else {
                        assert(out@[before.len() as int] == p);
                    }
                }
            }
        }
        j = j + 1;
    }
    proof {
        assert forall|p: WorkId| has_kids(ns, p) implies out@.contains(p) by {
            let i = choose|i: int| 0 <= i < ns.len() && hangs(ns, i) && (#[trigger] ns[i]).parent == p;
            let kk = choose|kk: int| 0 <= kk < keyed@.len() && (#[trigger] keyed@[kk]).at == i;
            assert(keyed@.contains(keyed@[kk]));
            let k = choose|k: int| 0 <= k < sorted@.len() && sorted@[k] == keyed@[kk];
            assert(out@.contains(ns[sorted@[k].at as int].parent));
        }
    }
    out
}

/// Children by parent: each parent that has children in the list, in id
/// order, with its children's ids in id order.
pub struct Children {
    parents: Vec<WorkId>,
    kids: Vec<Vec<WorkId>>,
}

impl View for Children {
    type V = Map<WorkId, Seq<WorkId>>;

    closed spec fn view(&self) -> Map<WorkId, Seq<WorkId>> {
        Map::new(
            |p: WorkId| self.parents@.contains(p),
            |p: WorkId| self.kids@[choose|i: int| 0 <= i < self.parents@.len() && self.parents@[i] == p]@,
        )
    }
}

impl Children {
    /// One list per parent, and no parent twice.
    pub closed spec fn wf(&self) -> bool {
        &&& self.parents@.len() == self.kids@.len()
        &&& forall|a: int, b: int| 0 <= a < b < self.parents@.len() ==> (#[trigger] self.parents@[a]).lt(#[trigger] self.parents@[b])
    }

    /// The children of `p`, if it has any.
    pub fn get(&self, p: &WorkId) -> (r: Option<&Vec<WorkId>>)
        requires
            self.wf(),
        ensures
            r matches Some(v) ==> self@.contains_key(*p) && v@ == self@[*p],
            r is None ==> !self@.contains_key(*p),
    {
        let mut i: usize = 0;
        while i < self.parents.len()
            invariant
                self.wf(),
                i <= self.parents@.len(),
                forall|k: int| 0 <= k < i ==> self.parents@[k] != *p,
            decreases self.parents@.len() - i,
        {
            if self.parents[i] == *p {
                proof {
                    let j = choose|j: int| 0 <= j < self.parents@.len() && self.parents@[j] == *p;
                    if j != i {
                        if j < i {
                            assert(self.parents@[j].lt(self.parents@[i as int]));
                        } else {
                            assert(self.parents@[i as int].lt(self.parents@[j]));
                        }
                    }
                }
                return Some(&self.kids[i]);
            }
            i = i + 1;
        }
        None
    }

    /// How many parents have children.
    pub fn len(&self) -> (r: usize)
        requires
            self.wf(),
        ensures
            r == self@.len(),
    {
        proof {
            assert(self.parents@.no_duplicates()) by {
                assert forall|a: int, b: int| 0 <= a < self.parents@.len() && 0 <= b < self.parents@.len() && a != b implies self.parents@[a] != self.parents@[b] by {
                    if a < b {
                        assert(self.parents@[a].lt(self.parents@[b]));
                    } else {
                        assert(self.parents@[b].lt(self.parents@[a]));
                    }
                }
            }
            self.parents@.unique_seq_to_set();
            assert(self@.dom() =~= self.parents@.to_set());
        }
        self.parents.len()
    }
}

/// `roots` and `ch` are the forest of the list: the roots in id order, and
/// for each parent with children in the list, its children in id order. A
/// node whose parent is not in the list is a root.
pub open spec fn tree_of(ns: Seq<NodeView>, roots: Seq<WorkId>, ch: Map<WorkId, Seq<WorkId>>) -> bool {
    &&& picked(ns, roots, true, WorkId { hi: 0, lo: 0 })
    &&& forall|p: WorkId| #[trigger] ch.contains_key(p) <==> has_kids(ns, p)
    &&& forall|p: WorkId| #[trigger] ch.contains_key(p) ==> picked(ns, ch[p], false, p)
}

/// The forest: the roots, and children by parent, both in id order.
pub fn parent_tree(nodes: &Vec<&WorkNode>) -> (r: (Vec<WorkId>, Children))
    ensures
        r.1.wf(),
        tree_of(ref_views(nodes@), r.0@, r.1@),
{
    let ghost ns = ref_views(nodes@);
    let roots = sorted_pick(nodes, true, WorkId::zero());
    let parents = parents_of(nodes);
    let mut kids: Vec<Vec<WorkId>> = Vec::new();
    let mut i: usize = 0;
    while i < parents.len()
        invariant
            ns == ref_views(nodes@),
            i <= parents@.len(),
            kids@.len() == i,
            forall|k: int| 0 <= k < i ==> picked(ns, (#[trigger] kids@[k])@, false, parents@[k]),
        decreases parents@.len() - i,
    {
        let v = sorted_pick(nodes, false, parents[i]);
        let ghost before = kids@;
        kids.push(v);
        proof {
            assert forall|k: int| 0 <= k < i + 1 implies picked(ns, (#[trigger] kids@[k])@, false, parents@[k]) by {
                if k < i {
                    assert(kids@[k] == before[k]);
                }
            }
        }
        i = i + 1;
    }
    let ch = Children { parents, kids };
    proof {
        assert forall|p: WorkId| #[trigger] ch@.contains_key(p) implies picked(ns, ch@[p], false, p) by {
            let j = choose|j: int| 0 <= j < ch.parents@.len() && ch.parents@[j] == p;
            assert(picked(ns, ch.kids@[j]@, false, ch.parents@[j]));
        }
    }
    (roots, ch)
}

/// The name an id draws as: its handle, or its first eight hex characters.
pub open spec fn name_in(h: Map<WorkId, Seq<char>>, id: WorkId) -> Seq<char> {
    if h.contains_key(id) {
        h[id]
    } else {
        id.hex().take(8)
    }
}

/// Seconds since the node was touched, never below zero.
pub open spec fn quiet_secs(n: NodeView, now: u64) -> nat {
    if now >= n.updated_unix {
        (now - n.updated_unix) as nat
    } else {
        0
    }
}

/// How long a held node has been quiet, in the coarsest unit that is still
/// true; nothing for a node nobody holds.
pub open spec fn quiet_text(n: NodeView, now: u64) -> Option<Seq<char>> {
    if !n.status.live() {
        None
    } else {
        let s = quiet_secs(n, now);
        Some(
            if s < 60 {
                dec(s) + "s"@
            } else if s < 3600 {
                dec(s / 60) + "m"@
            } else if s < 86400 {
                dec(s / 3600) + "h"@
            } else {
                dec(s / 86400) + "d"@
            },
        )
    }
}

/// The line a node draws as: status, who holds it, its role, its summary
/// (or short id), then the dependency count, the archived mark and how long
/// a held node has been quiet.
pub open spec fn label_text(n: NodeView, h: Map<WorkId, Seq<char>>, now: u64) -> Seq<char> {
    let who = if !n.assignee.nil() { "  "@ + name_in(h, n.assignee) } else { Seq::empty() };
    let role = if n.role != WorkRole::Unset { "  "@ + n.role.name() } else { Seq::empty() };
    let text = if trim(n.summary).len() == 0 { n.id.hex().take(8) } else { trim(n.summary) };
    let deps = if n.deps.len() > 0 { "  deps="@ + dec(n.deps.len()) } else { Seq::empty() };
    let arch = if n.archived { "  archived"@ } else { Seq::empty() };
    let quiet = match quiet_text(n, now) {
        Some(q) => "  quiet "@ + q,
        None => Seq::empty(),
    };
    n.status.name() + who + role + "  "@ + text + deps + arch + quiet
}

/// Append the first eight hex characters of an id.
fn push_hex8(s: &mut String, id: WorkId)
    ensures
        final(s)@ == old(s)@ + id.hex().take(8),
{
    let hex = id.to_hex();
    let cs = chars_of(hex.as_str());
    push_chars(s, &cs.as_slice()[0..8]);
    assert(cs@.subrange(0, 8) =~= id.hex().take(8));
}

/// How long a held node has been quiet at time `now`.
pub fn quiet_for_at(node: &WorkNode, now: u64) -> (r: Option<String>)
    ensures
        r matches Some(t) ==> quiet_text(node@, now) == Some(t@),
        r is None ==> quiet_text(node@, now) is None,
{
    if !node.status.is_live() {
        return None;
    }
    let secs = now.saturating_sub(node.updated_unix);
    assert(secs as nat == quiet_secs(node@, now));
    let mut t = String::new();
    if secs < 60 {
        push_dec(&mut t, secs);
        push_str(&mut t, "s");
    } else if secs < 3600 {
        push_dec(&mut t, secs / 60);
        push_str(&mut t, "m");
    } else if secs < 86400 {
        push_dec(&mut t, secs / 3600);
        push_str(&mut t, "h");
    } else {
        push_dec(&mut t, secs / 86400);
        push_str(&mut t, "d");
    }
    assert(t@ =~= quiet_text(node@, now).unwrap());
    Some(t)
}

/// How long a held node has been quiet now, or nothing when it is not held.
pub fn quiet_for(node: &WorkNode) -> (r: Option<String>)
    ensures
        exists|now: u64|
            match r {
                Some(t) => quiet_text(node@, now) == Some(t@),
                None => quiet_text(node@, now) is None,
            },
{
    let now = WorkGraph::now();
    quiet_for_at(node, now)
}

/// The head of a node's line: status, holder, role.
pub open spec fn label_head(n: NodeView, h: Map<WorkId, Seq<char>>) -> Seq<char> {
    let who = if !n.assignee.nil() { "  "@ + name_in(h, n.assignee) } else { Seq::empty() };
    let role = if n.role != WorkRole::Unset { "  "@ + n.role.name() } else { Seq::empty() };
    n.status.name() + who + role
}

/// What a node's line says it is: its trimmed summary, or its short id.
pub open spec fn label_body(n: NodeView) -> Seq<char> {
    if trim(n.summary).len() == 0 {
        n.id.hex().take(8)
    } else {
        trim(n.summary)
    }
}

/// The tail of a node's line: dependency count, archived mark, quiet time.
pub open spec fn label_tail(n: NodeView, now: u64) -> Seq<char> {
    let deps = if n.deps.len() > 0 { "  deps="@ + dec(n.deps.len()) } else { Seq::empty() };
    let arch = if n.archived { "  archived"@ } else { Seq::empty() };
    let quiet = match quiet_text(n, now) {
        Some(q) => "  quiet "@ + q,
        None => Seq::empty(),
    };
    deps + arch + quiet
}

proof fn lemma_label_parts(n: NodeView, h: Map<WorkId, Seq<char>>, now: u64)
    ensures
        label_text(n, h, now) == label_head(n, h) + "  "@ + label_body(n) + label_tail(n, now),
{
    assert(label_text(n, h, now) =~= label_head(n, h) + "  "@ + label_body(n) + label_tail(n, now));
}

fn push_label_head(line: &mut String, node: &WorkNode, handles: &Handles)
    requires
        handles.wf(),
    ensures
        final(line)@ == old(line)@ + label_head(node@, handles@),
{
    push_str(line, node.status.as_str());
    if !node.assignee.is_zero() {
        push_str(line, "  ");
        let name = handles.name_for(node.assignee);
        push_str(line, name.as_str());
    }
    if node.role != WorkRole::Unset {
        push_str(line, "  ");
        push_str(line, node.role.as_str());
    }
    assert(line@ =~= old(line)@ + label_head(node@, handles@));
}

fn push_label_body(line: &mut String, node: &WorkNode)
    ensures
        final(line)@ == old(line)@ + label_body(node@),
{
    let cs = chars_of(node.summary.as_str());
    let (a, b) = trim_bounds(cs.as_slice());
    if a == b {
        push_hex8(line, node.id);
    } else {
        push_chars(line, &cs.as_slice()[a..b]);
    }
}

fn push_label_tail(line: &mut String, node: &WorkNode, now: u64)
    ensures
        final(line)@ == old(line)@ + label_tail(node@, now),
{
    if node.deps.len() > 0 {
        push_str(line, "  deps=");
        push_dec(line, node.deps.len() as u64);
    }
    if node.archived {
        push_str(line, "  archived");
    }
    match quiet_for_at(node, now) {
        Some(q) => {
            push_str(line, "  quiet ");
            push_str(line, q.as_str());
        },
        None => {},
    }
    assert(line@ =~= old(line)@ + label_tail(node@, now));
}

/// The line a node draws as at time `now`.
pub fn label_at(node: &WorkNode, handles: &Handles, now: u64) -> (r: String)
    requires
        handles.wf(),
    ensures
        r@ == label_text(node@, handles@, now),
{
    let mut line = String::new();
    push_label_head(&mut line, node, handles);
    push_str(&mut line, "  ");
    push_label_body(&mut line, node);
    push_label_tail(&mut line, node, now);
    proof {
        lemma_label_parts(node@, handles@, now);
        assert(line@ =~= label_head(node@, handles@) + "  "@ + label_body(node@) + label_tail(node@, now));
    }
    line
}

/// The line a node draws as now.
pub fn label(node: &WorkNode, handles: &Handles) -> (r: String)
    requires
        handles.wf(),
    ensures
        exists|now: u64| r@ == label_text(node@, handles@, now),
{
    let now = WorkGraph::now();
    label_at(node, handles, now)
}

/// One row of the drawn forest.
pub struct Row {
    /// The node this row stands for.
    pub id: WorkId,
    /// How deep under a root it sits.
    pub depth: usize,
    /// The text drawn after the indent.
    pub label: String,
    /// Whether this row is a repeat of an ancestor rather than a node.
    pub cycle: bool,
}

/// The value of a row.
pub struct RowView {
    pub id: WorkId,
    pub depth: nat,
    pub label: Seq<char>,
    pub cycle: bool,
}

impl View for Row {
    type V = RowView;

    open spec fn view(&self) -> RowView {
        RowView { id: self.id, depth: self.depth as nat, label: self.label@, cycle: self.cycle }
    }
}

pub open spec fn row_views(s: Seq<Row>) -> Seq<RowView> {
    s.map_values(|r: Row| r@)
}

/// The node a list holds under `id`: the last one, when it holds several.
pub open spec fn node_at(ns: Seq<NodeView>, id: WorkId) -> Option<NodeView> {
    if exists|i: int| 0 <= i < ns.len() && (#[trigger] ns[i]).id == id {
        let i = choose|i: int| 0 <= i < ns.len() && ns[i].id == id && forall|j: int| i < j < ns.len() ==> (#[trigger] ns[j]).id != id;
        Some(ns[i])
    } else {
        None
    }
}

/// The children of `id`, or none.
pub open spec fn kids_of(ch: Map<WorkId, Seq<WorkId>>, id: WorkId) -> Seq<WorkId> {
    if ch.contains_key(id) {
        ch[id]
    } else {
        Seq::empty()
    }
}

/// The rows of the subtree at `id`, depth first, with `seen` the ids on the
/// way down. An id met again on its own way down draws once as a cycle and
/// is not entered; an id the list does not hold draws nothing.
pub open spec fn walk_rows(
    ns: Seq<NodeView>,
    ch: Map<WorkId, Seq<WorkId>>,
    h: Map<WorkId, Seq<char>>,
    now: u64,
    id: WorkId,
    depth: nat,
    seen: Seq<WorkId>,
) -> Seq<RowView>
    decreases ns.len() - seen.len(), 0int, 0int,
{
    if seen.contains(id) {
        seq![RowView { id, depth, label: id.hex().take(8) + "  (cycle)"@, cycle: true }]
    } else {
        match node_at(ns, id) {
            None => Seq::empty(),
            Some(n) => if seen.len() >= ns.len() {
                Seq::empty()
            } else {
                seq![RowView { id, depth, label: label_text(n, h, now), cycle: false }]
                    + walk_list(ns, ch, h, now, kids_of(ch, id), depth + 1, seen.push(id))
            },
        }
    }
}

/// The rows of several subtrees, one after another.
pub open spec fn walk_list(
    ns: Seq<NodeView>,
    ch: Map<WorkId, Seq<WorkId>>,
    h: Map<WorkId, Seq<char>>,
    now: u64,
    kids: Seq<WorkId>,
    depth: nat,
    seen: Seq<WorkId>,
) -> Seq<RowView>
    decreases ns.len() - seen.len(), 1int, kids.len(),
{
    if kids.len() == 0 {
        Seq::empty()
    } else {
        walk_list(ns, ch, h, now, kids.drop_last(), depth, seen) + walk_rows(ns, ch, h, now, kids.last(), depth, seen)
    }
}

/// Where the last node with this id sits in the list.
fn node_index(nodes: &Vec<&WorkNode>, id: WorkId) -> (r: Option<usize>)
    ensures
        r matches Some(i) ==> i < nodes@.len() && ref_views(nodes@)[i as int].id == id
            && node_at(ref_views(nodes@), id) == Some(ref_views(nodes@)[i as int]),
        r is None ==> node_at(ref_views(nodes@), id) is None,
{
    let ghost ns = ref_views(nodes@);
    let mut i: usize = nodes.len();
    while i > 0
        invariant
            ns == ref_views(nodes@),
            i <= nodes@.len(),
            forall|j: int| i <= j < nodes@.len() ==> (#[trigger] ns[j]).id != id,
        decreases i,
    {
        if nodes[i - 1].id == id {
            proof {
                let k = (i - 1) as int;
                assert(ns[k].id == id);
                let c = choose|c: int| 0 <= c < ns.len() && ns[c].id == id && forall|j: int| c < j < ns.len() ==> (#[trigger] ns[j]).id != id;
                if c != k {
                    if c < k {
                        assert(ns[k].id != id);
                    } else {
                        assert(ns[c].id != id);
                    }
                }
            }
            return Some(i - 1);
        }
        i = i - 1;
    }
    None
}

/// The ids on the way down are distinct ids of the list.
pub open spec fn seen_ok(ns: Seq<NodeView>, seen: Seq<WorkId>) -> bool {
    &&& seen.no_duplicates()
    &&& forall|k: int| 0 <= k < seen.len() ==> exists|j: int| 0 <= j < ns.len() && (#[trigger] ns[j]).id == #[trigger] seen[k]
}

/// A further id of the list, not yet on the way down, leaves room.
proof fn lemma_seen_room(ns: Seq<NodeView>, seen: Seq<WorkId>, id: WorkId, i: int)
    requires
        seen_ok(ns, seen),
        0 <= i < ns.len(),
        ns[i].id == id,
        !seen.contains(id),
    ensures
        seen.len() < ns.len(),
        seen_ok(ns, seen.push(id)),
{
    let ids = ns.map_values(|n: NodeView| n.id);
    let s2 = seen.push(id);
    assert(s2.no_duplicates()) by {
        assert forall|a: int, b: int| 0 <= a < s2.len() && 0 <= b < s2.len() && a != b implies s2[a] != s2[b] by {
            if a < seen.len() && b < seen.len() {
                assert(seen[a] != seen[b]);
            } else if a < seen.len() {
                assert(seen.contains(seen[a]));
            } else {
                assert(seen.contains(seen[b]));
            }
        }
    }
    assert forall|k: int| 0 <= k < s2.len() implies exists|j: int| 0 <= j < ns.len() && (#[trigger] ns[j]).id == #[trigger] s2[k] by {
        if k < seen.len() {
            assert(s2[k] == seen[k]);
        } else {
            assert(ns[i].id == s2[k]);
        }
    }
    s2.unique_seq_to_set();
    ids.lemma_cardinality_of_set();
    assert(s2.to_set().subset_of(ids.to_set())) by {
        assert forall|x: WorkId| s2.to_set().contains(x) implies ids.to_set().contains(x) by {
            let k = choose|k: int| 0 <= k < s2.len() && s2[k] == x;
            let j = choose|j: int| 0 <= j < ns.len() && (#[trigger] ns[j]).id == #[trigger] s2[k];
            assert(ids[j] == x);
        }
    }
    vstd::set_lib::lemma_len_subset(s2.to_set(), ids.to_set());
}

proof fn lemma_walk_node(
    ns: Seq<NodeView>,
    ch: Map<WorkId, Seq<WorkId>>,
    h: Map<WorkId, Seq<char>>,
    now: u64,
    id: WorkId,
    depth: nat,
    seen: Seq<WorkId>,
    i: int,
)
    requires
        !seen.contains(id),
        0 <= i < ns.len(),
        node_at(ns, id) == Some(ns[i]),
        seen.len() < ns.len(),
    ensures
        walk_rows(ns, ch, h, now, id, depth, seen) == seq![RowView { id, depth, label: label_text(ns[i], h, now), cycle: false }]
            + walk_list(ns, ch, h, now, kids_of(ch, id), depth + 1, seen.push(id)),
{
}

proof fn lemma_walk_cycle(ns: Seq<NodeView>, ch: Map<WorkId, Seq<WorkId>>, h: Map<WorkId, Seq<char>>, now: u64, id: WorkId, depth: nat, seen: Seq<WorkId>)
    requires
        seen.contains(id),
    ensures
        walk_rows(ns, ch, h, now, id, depth, seen) == seq![RowView { id, depth, label: id.hex().take(8) + "  (cycle)"@, cycle: true }],
{
}

proof fn lemma_walk_absent(ns: Seq<NodeView>, ch: Map<WorkId, Seq<WorkId>>, h: Map<WorkId, Seq<char>>, now: u64, id: WorkId, depth: nat, seen: Seq<WorkId>)
    requires
        !seen.contains(id),
        node_at(ns, id) is None,
    ensures
        walk_rows(ns, ch, h, now, id, depth, seen) == Seq::<RowView>::empty(),
{
}

/// One more subtree after the first `k`.
proof fn lemma_walk_list_step(ns: Seq<NodeView>, ch: Map<WorkId, Seq<WorkId>>, h: Map<WorkId, Seq<char>>, now: u64, kids: Seq<WorkId>, depth: nat, seen: Seq<WorkId>, k: int)
    requires
        0 <= k < kids.len(),
    ensures
        walk_list(ns, ch, h, now, kids.take(k + 1), depth, seen)
            == walk_list(ns, ch, h, now, kids.take(k), depth, seen) + walk_rows(ns, ch, h, now, kids[k], depth, seen),
        walk_list(ns, ch, h, now, Seq::empty(), depth, seen) == Seq::<RowView>::empty(),
{
    assert(kids.take(k + 1).drop_last() =~= kids.take(k));
    assert(kids.take(k + 1).last() == kids[k]);
}

proof fn lemma_walk_list_empty(ns: Seq<NodeView>, ch: Map<WorkId, Seq<WorkId>>, h: Map<WorkId, Seq<char>>, now: u64, depth: nat, seen: Seq<WorkId>)
    ensures
        walk_list(ns, ch, h, now, Seq::empty(), depth, seen) == Seq::<RowView>::empty(),
{
}

#[verifier::spinoff_prover]
#[verifier::rlimit(60)]
fn walk(
    id: WorkId,
    depth: usize,
    nodes: &Vec<&WorkNode>,
    children: &Children,
    handles: &Handles,
    now: u64,
    seen: &mut Vec<WorkId>,
    out: &mut Vec<Row>,
)
    requires
        children.wf(),
        handles.wf(),
        seen_ok(ref_views(nodes@), old(seen)@),
        depth == old(seen)@.len(),
    ensures
        final(seen)@ == old(seen)@,
        row_views(final(out)@) == row_views(old(out)@) + walk_rows(ref_views(nodes@), children@, handles@, now, id, depth as nat, old(seen)@),
    decreases nodes@.len() - old(seen)@.len(), 0int,
{
    let ghost ns = ref_views(nodes@);
    let ghost seen0 = seen@;
    let ghost out0 = row_views(out@);
    let n = nodes.len();
    if contains_id(seen, id) {
        let mut label = String::new();
        push_hex8(&mut label, id);
        push_str(&mut label, "  (cycle)");
        out.push(Row { id, depth, label, cycle: true });
        proof {
            lemma_walk_cycle(ns, children@, handles@, now, id, depth as nat, seen0);
        }
        assert(row_views(out@) =~= out0 + walk_rows(ns, children@, handles@, now, id, depth as nat, seen0));
        return;
    }
    let i = match node_index(nodes, id) {
        Some(i) => i,
        None => {
            proof {
                lemma_walk_absent(ns, children@, handles@, now, id, depth as nat, seen0);
            }
            assert(row_views(out@) =~= out0 + walk_rows(ns, children@, handles@, now, id, depth as nat, seen0));
            return;
        },
    };
    proof {
        lemma_seen_room(ns, seen0, id, i as int);
        lemma_walk_node(ns, children@, handles@, now, id, depth as nat, seen0, i as int);
    }
    let node: &WorkNode = nodes[i];
    assert(ns[i as int] == node@);
    let label = label_at(node, handles, now);
    out.push(Row { id, depth, label, cycle: false });
    seen.push(id);
    let ghost top = row_views(out@);
    assert(top =~= out0 + seq![RowView { id, depth: depth as nat, label: label_text(node@, handles@, now), cycle: false }]);
    walk_kids(id, depth + 1, nodes, children, handles, now, seen, out);
    seen.pop();
    assert(seen@ =~= seen0);
    let ghost wl = walk_list(ns, children@, handles@, now, kids_of(children@, id), (depth + 1) as nat, seen0.push(id));
    assert(row_views(out@) == top + wl);
    assert(top + wl =~= out0 + (seq![RowView { id, depth: depth as nat, label: label_text(node@, handles@, now), cycle: false }] + wl));
}

/// The subtrees of the children of `id`, one after another.
fn walk_kids(
    id: WorkId,
    depth: usize,
    nodes: &Vec<&WorkNode>,
    children: &Children,
    handles: &Handles,
    now: u64,
    seen: &mut Vec<WorkId>,
    out: &mut Vec<Row>,
)
    requires
        children.wf(),
        handles.wf(),
        seen_ok(ref_views(nodes@), old(seen)@),
        depth == old(seen)@.len(),
    ensures
        final(seen)@ == old(seen)@,
        row_views(final(out)@) == row_views(old(out)@) + walk_list(ref_views(nodes@), children@, handles@, now, kids_of(children@, id), depth as nat, old(seen)@),
    decreases nodes@.len() - old(seen)@.len(), 1int,
{
    let ghost ns = ref_views(nodes@);
    let ghost top = row_views(out@);
    match children.get(&id) {
        Some(kids) => {
            let mut k: usize = 0;
            proof {
                lemma_walk_list_empty(ns, children@, handles@, now, depth as nat, seen@);
                assert(kids@.take(0) =~= Seq::<WorkId>::empty());
            }
            assert(row_views(out@) =~= top + walk_list(ns, children@, handles@, now, kids@.take(0), depth as nat, seen@));
            while k < kids.len()
                invariant
                    children.wf(),
                    handles.wf(),
                    ns == ref_views(nodes@),
                    seen@ == old(seen)@,
                    seen_ok(ns, seen@),
                    depth == seen@.len(),
                    k <= kids@.len(),
                    row_views(out@) == top + walk_list(ns, children@, handles@, now, kids@.take(k as int), depth as nat, seen@),
                decreases kids@.len() - k,
            {
                walk(kids[k], depth, nodes, children, handles, now, seen, out);
                proof {
                    lemma_walk_list_step(ns, children@, handles@, now, kids@, depth as nat, seen@, k as int);
                    assert(row_views(out@) =~= top + walk_list(ns, children@, handles@, now, kids@.take(k + 1), depth as nat, seen@));
                }
                k = k + 1;
            }
            assert(kids@.take(kids@.len() as int) =~= kids@);
        },
        None => {
            proof {
                lemma_walk_list_empty(ns, children@, handles@, now, depth as nat, seen@);
            }
            assert(row_views(out@) =~= top + walk_list(ns, children@, handles@, now, Seq::<WorkId>::empty(), depth as nat, seen@));
        },
    }
}

/// The forest as rows at time `now`, depth first from each root in id order.
pub fn rows_at(nodes: &Vec<&WorkNode>, handles: &Handles, now: u64) -> (r: Vec<Row>)
    requires
        handles.wf(),
    ensures
        exists|roots: Seq<WorkId>, ch: Map<WorkId, Seq<WorkId>>|
            #[trigger] tree_of(ref_views(nodes@), roots, ch)
                && row_views(r@) == walk_list(ref_views(nodes@), ch, handles@, now, roots, 0, Seq::empty()),
{
    let ghost ns = ref_views(nodes@);
    let (roots, children) = parent_tree(nodes);
    let mut out: Vec<Row> = Vec::new();
    let mut seen: Vec<WorkId> = Vec::new();
    let mut k: usize = 0;
    proof {
        lemma_walk_list_empty(ns, children@, handles@, now, 0, seen@);
        assert(roots@.take(0) =~= Seq::<WorkId>::empty());
    }
    assert(row_views(out@) =~= walk_list(ns, children@, handles@, now, roots@.take(0), 0, seen@));
    while k < roots.len()
        invariant
            children.wf(),
            handles.wf(),
            ns == ref_views(nodes@),
            seen@ == Seq::<WorkId>::empty(),
            k <= roots@.len(),
            row_views(out@) == walk_list(ns, children@, handles@, now, roots@.take(k as int), 0, seen@),
        decreases roots@.len() - k,
    {
        assert(seen_ok(ns, seen@));
        let ghost before = row_views(out@);
        walk(roots[k], 0, nodes, &children, handles, now, &mut seen, &mut out);
        proof {
            lemma_walk_list_step(ns, children@, handles@, now, roots@, 0, seen@, k as int);
            assert(row_views(out@) =~= walk_list(ns, children@, handles@, now, roots@.take(k + 1), 0, seen@));
        }
        k = k + 1;
    }
    assert(roots@.take(roots@.len() as int) =~= roots@);
    out
}

/// The forest as rows now.
pub fn rows(nodes: &Vec<&WorkNode>, handles: &Handles) -> (r: Vec<Row>)
    requires
        handles.wf(),
    ensures
        exists|now: u64, roots: Seq<WorkId>, ch: Map<WorkId, Seq<WorkId>>|
            tree_of(ref_views(nodes@), roots, ch)
                && row_views(r@) == #[trigger] walk_list(ref_views(nodes@), ch, handles@, now, roots, 0, Seq::empty()),
{
    let now = WorkGraph::now();
    rows_at(nodes, handles, now)
}

/// The rows as indented text, one per line.
pub open spec fn rows_text(rs: Seq<RowView>) -> Seq<char>
    decreases rs.len(),
{
    if rs.len() == 0 {
        Seq::empty()
    } else {
        rows_text(rs.drop_last()) + repeat("  "@, rs.last().depth) + rs.last().label + "\n"@
    }
}

/// What a dump prints for these rows: the indented forest, or `(empty)`.
pub open spec fn dump_text(rs: Seq<RowView>) -> Seq<char> {
    if rs.len() == 0 {
        "(empty)\n"@
    } else {
        rows_text(rs)
    }
}

/// The forest as plain text at time `now`.
pub fn dump_at(nodes: &Vec<&WorkNode>, handles: &Handles, now: u64) -> (r: String)
    requires
        handles.wf(),
    ensures
        exists|roots: Seq<WorkId>, ch: Map<WorkId, Seq<WorkId>>|
            #[trigger] tree_of(ref_views(nodes@), roots, ch)
                && r@ == dump_text(walk_list(ref_views(nodes@), ch, handles@, now, roots, 0, Seq::empty())),
{
    let drawn = rows_at(nodes, handles, now);
    let mut out = String::new();
    if drawn.len() == 0 {
        push_str(&mut out, "(empty)\n");
        return out;
    }
    let mut k: usize = 0;
    while k < drawn.len()
        invariant
            k <= drawn@.len(),
            out@ == rows_text(row_views(drawn@).take(k as int)),
        decreases drawn@.len() - k,
    {
        let row = &drawn[k];
        push_repeat(&mut out, "  ", row.depth);
        push_str(&mut out, row.label.as_str());
        push_str(&mut out, "\n");
        proof {
            assert(row_views(drawn@).take(k + 1).drop_last() =~= row_views(drawn@).take(k as int));
            assert(row_views(drawn@).take(k + 1).last() == drawn@[k as int]@);
        }
        k = k + 1;
    }
    assert(row_views(drawn@).take(drawn@.len() as int) =~= row_views(drawn@));
    out
}

/// The forest as plain text now.
pub fn dump(nodes: &Vec<&WorkNode>, handles: &Handles) -> (r: String)
    requires
        handles.wf(),
    ensures
        exists|now: u64, roots: Seq<WorkId>, ch: Map<WorkId, Seq<WorkId>>|
            tree_of(ref_views(nodes@), roots, ch)
                && r@ == dump_text(#[trigger] walk_list(ref_views(nodes@), ch, handles@, now, roots, 0, Seq::empty())),
{
    let now = WorkGraph::now();
    dump_at(nodes, handles, now)
}

} // verus!
