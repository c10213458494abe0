//! The critical depth of a node: the longest chain of unfinished work that
//! waits on it. Stated as the equations the depth solves, which have one
//! solution on a graph without dependency loops.

use vstd::prelude::*;
use crate::id::WorkId;
use crate::model::{acyclic, id_seq, ids_distinct, is_path, lemma_dom_len, lemma_map_at, lemma_map_key, node_map, reaches, step, views};
use crate::work::{NodeView, WorkNode};

verus! {

/// `u32::saturating_add(v, 1)`.
pub open spec fn sat1(v: u32) -> u32 {
    if v == u32::MAX {
        v
    } else {
        (v + 1) as u32
    }
}

/// `y` is unfinished, unarchived work that waits on `x`.
pub open spec fn below(m: Map<WorkId, NodeView>, x: WorkId, y: WorkId) -> bool {
    &&& m.contains_key(y)
    &&& !m[y].archived
    &&& !m[y].status.terminal()
    &&& m[y].deps.contains(x)
}

/// `d` gives each node one more than the deepest work waiting on it, or
/// zero when nothing unfinished waits on it.
pub open spec fn bellman(m: Map<WorkId, NodeView>, d: Map<WorkId, u32>) -> bool {
    &&& d.dom() == m.dom()
    &&& forall|x: WorkId, y: WorkId| m.contains_key(x) && #[trigger] below(m, x, y) ==> d[x] >= sat1(d[y])
    &&& forall|x: WorkId| #[trigger] m.contains_key(x) ==> d[x] == 0 || exists|y: WorkId| #[trigger] below(m, x, y) && d[x] == sat1(d[y])
}

/// The critical depth of every node (the one solution on an acyclic graph).
pub open spec fn depth_of(m: Map<WorkId, NodeView>) -> Map<WorkId, u32> {
    choose|d: Map<WorkId, u32>| bellman(m, d)
}

/// Where two solutions differ, they differ at some waiting node too.
proof fn lemma_differ_below(m: Map<WorkId, NodeView>, d1: Map<WorkId, u32>, d2: Map<WorkId, u32>, x: WorkId) -> (y: WorkId)
    requires
        bellman(m, d1),
        bellman(m, d2),
        m.contains_key(x),
        d1[x] != d2[x],
    ensures
        below(m, x, y),
        d1[y] != d2[y],
{
    if forall|y: WorkId| #[trigger] below(m, x, y) ==> d1[y] == d2[y] {
        if d1[x] == 0 {
            if d2[x] != 0 {
                let y = choose|y: WorkId| #[trigger] below(m, x, y) && d2[x] == sat1(d2[y]);
                assert(d1[x] >= sat1(d1[y]));
            }
        } else {
            let y1 = choose|y: WorkId| #[trigger] below(m, x, y) && d1[x] == sat1(d1[y]);
            assert(d2[x] >= sat1(d2[y1]));
            if d2[x] == 0 {
                assert(false);
            } else {
                let y2 = choose|y: WorkId| #[trigger] below(m, x, y) && d2[x] == sat1(d2[y]);
                assert(d1[x] >= sat1(d1[y2]));
            }
        }
        assert(false);
        x
    } else {
        choose|y: WorkId| #[trigger] below(m, x, y) && d1[y] != d2[y]
    }
}

/// A chain of `k + 1` nodes, each waiting on the one before, on which two
/// solutions differ.
proof fn lemma_differ_chain(m: Map<WorkId, NodeView>, d1: Map<WorkId, u32>, d2: Map<WorkId, u32>, x: WorkId, k: nat) -> (p: Seq<WorkId>)
    requires
        bellman(m, d1),
        bellman(m, d2),
        m.contains_key(x),
        d1[x] != d2[x],
    ensures
        p.len() == k + 1,
        p[0] == x,
        forall|i: int| 0 <= i < p.len() ==> m.contains_key(#[trigger] p[i]) && d1[p[i]] != d2[p[i]],
        forall|i: int| 0 <= i < p.len() - 1 ==> below(m, #[trigger] p[i], p[i + 1]),
    decreases k,
{
    if k == 0 {
        seq![x]
    } else {
        let p0 = lemma_differ_chain(m, d1, d2, x, (k - 1) as nat);
        let last = p0[p0.len() - 1];
        let y = lemma_differ_below(m, d1, d2, last);
        let p = p0.push(y);
        assert forall|i: int| 0 <= i < p.len() - 1 implies below(m, #[trigger] p[i], p[i + 1]) by {
            if i < p0.len() - 1 {
                assert(p[i] == p0[i] && p[i + 1] == p0[i + 1]);
            }
        }
        assert forall|i: int| 0 <= i < p.len() implies m.contains_key(#[trigger] p[i]) && d1[p[i]] != d2[p[i]] by {
            if i < p0.len() {
                assert(p[i] == p0[i]);
            }
        }
        p
    }
}

/// A waiting chain that comes back to where it was is a dependency loop.
proof fn lemma_chain_repeat(m: Map<WorkId, NodeView>, p: Seq<WorkId>, i: int, j: int)
    requires
        0 <= i < j < p.len(),
        p[i] == p[j],
        forall|t: int| 0 <= t < p.len() - 1 ==> below(m, #[trigger] p[t], p[t + 1]),
    ensures
        !acyclic(m),
{
    let q = Seq::new((j - i) as nat, |s: int| p[j - s]);
    assert forall|s: int| 0 <= s < q.len() - 1 implies step(m, #[trigger] q[s], q[s + 1]) by {
        let t = j - s - 1;
        assert(below(m, p[t], p[t + 1]));
        assert(q[s] == p[t + 1] && q[s + 1] == p[t]);
    }
    assert(is_path(m, q));
    assert(q[0] == p[j]);
    assert(q[q.len() - 1] == p[i + 1]);
    assert(reaches(m, p[j], p[i + 1]));
    assert(below(m, p[i], p[i + 1]));
    assert(step(m, p[i + 1], p[j]));
}

/// A waiting chain longer than the graph repeats a node, so it closes a loop.
proof fn lemma_long_chain(m: Map<WorkId, NodeView>, p: Seq<WorkId>)
    requires
        m.dom().finite(),
        p.len() == m.dom().len() + 1,
        forall|i: int| 0 <= i < p.len() ==> m.contains_key(#[trigger] p[i]),
        forall|i: int| 0 <= i < p.len() - 1 ==> below(m, #[trigger] p[i], p[i + 1]),
    ensures
        !acyclic(m),
{
    if p.no_duplicates() {
        p.unique_seq_to_set();
        assert forall|k: WorkId| p.to_set().contains(k) implies m.dom().contains(k) by {
            let i = choose|i: int| 0 <= i < p.len() && p[i] == k;
            assert(m.contains_key(p[i]));
        }
        assert(p.to_set().subset_of(m.dom()));
        vstd::set_lib::lemma_len_subset(p.to_set(), m.dom());
    } else {
        let (i, j) = choose|i: int, j: int| 0 <= i < p.len() && 0 <= j < p.len() && i != j && p[i] == p[j];
        if i < j {
            lemma_chain_repeat(m, p, i, j);
        } else {
            lemma_chain_repeat(m, p, j, i);
        }
    }
}

proof fn lemma_agree_at(m: Map<WorkId, NodeView>, d1: Map<WorkId, u32>, d2: Map<WorkId, u32>, x: WorkId)
    requires
        acyclic(m),
        m.dom().finite(),
        bellman(m, d1),
        bellman(m, d2),
        m.contains_key(x),
    ensures
        d1[x] == d2[x],
{
    if d1[x] != d2[x] {
        let p = lemma_differ_chain(m, d1, d2, x, m.dom().len());
        lemma_long_chain(m, p);
    }
}

/// On an acyclic graph the depth equations have one solution.
pub proof fn lemma_bellman_unique(m: Map<WorkId, NodeView>, d1: Map<WorkId, u32>, d2: Map<WorkId, u32>)
    requires
        acyclic(m),
        m.dom().finite(),
        bellman(m, d1),
        bellman(m, d2),
    ensures
        d1 == d2,
{
    assert forall|x: WorkId| #[trigger] d1.contains_key(x) implies d1[x] == d2[x] by {
        lemma_agree_at(m, d1, d2, x);
    }
    assert(d1 =~= d2);
}

/// Critical depth by node id.
pub struct DepthMap {
    ids: Vec<WorkId>,
    depths: Vec<u32>,
}

impl View for DepthMap {
    type V = Map<WorkId, u32>;

    closed spec fn view(&self) -> Map<WorkId, u32> {
        Map::new(
            |k: WorkId| exists|i: int| 0 <= i < self.ids@.len() && self.ids@[i] == k,
            |k: WorkId| self.depths@[choose|i: int| 0 <= i < self.ids@.len() && self.ids@[i] == k],
        )
    }
}

impl DepthMap {
    /// One depth per id, and no id twice.
    #[verifier::type_invariant]
    spec fn inv(self) -> bool {
        &&& self.ids@.len() == self.depths@.len()
        &&& self.ids@.no_duplicates()
    }

    /// A map from distinct ids to depths, position by position.
    pub(crate) fn from_parts(ids: Vec<WorkId>, depths: Vec<u32>) -> (r: DepthMap)
        requires
            ids@.len() == depths@.len(),
            ids@.no_duplicates(),
        ensures
            r@.dom() == ids@.to_set(),
            forall|i: int| 0 <= i < ids@.len() ==> r@[#[trigger] ids@[i]] == depths@[i],
    {
        let r = DepthMap { ids, depths };
        proof {
            assert forall|i: int| 0 <= i < r.ids@.len() implies r@[#[trigger] r.ids@[i]] == r.depths@[i] by {
                let j = choose|j: int| 0 <= j < r.ids@.len() && r.ids@[j] == r.ids@[i];
                assert(j == i);
            }
            assert(r@.dom() =~= r.ids@.to_set());
        }
        r
    }

    /// The depth of a node, if the map holds it.
    pub fn get(&self, id: &WorkId) -> (r: Option<&u32>)
        ensures
            r matches Some(v) ==> self@.contains_key(*id) && *v == self@[*id],
            r is None ==> !self@.contains_key(*id),
    {
        proof {
            use_type_invariant(self);
        }
        let mut i: usize = 0;
        while i < self.ids.len()
            invariant
                self.ids@.len() == self.depths@.len(),
                self.ids@.no_duplicates(),
                i <= self.ids@.len(),
                forall|k: int| 0 <= k < i ==> self.ids@[k] != *id,
            decreases self.ids@.len() - i,
        {
            if self.ids[i] == *id {
                proof {
                    let j = choose|j: int| 0 <= j < self.ids@.len() && self.ids@[j] == *id;
                    assert(j == i);
                }
                return Some(&self.depths[i]);
            }
            i = i + 1;
        }
        None
    }

    /// How many nodes the map holds.
    pub fn len(&self) -> (r: usize)
        ensures
            r == self@.len(),
    {
        proof {
            use_type_invariant(self);
            self.ids@.unique_seq_to_set();
            assert(self@.dom() =~= self.ids@.to_set());
        }
        self.ids.len()
    }
}

/// A solution of the depth equations on an acyclic graph is the critical depth.
pub proof fn lemma_solution_is_depth(m: Map<WorkId, NodeView>, d: Map<WorkId, u32>)
    requires
        acyclic(m),
        m.dom().finite(),
        bellman(m, d),
    ensures
        depth_of(m) == d,
{
    let c = choose|c: Map<WorkId, u32>| bellman(m, c);
    lemma_bellman_unique(m, c, d);
}

/// Node `t` (a position) is unfinished, unarchived work that waits on node `i`.
pub open spec fn kid(vs: Seq<NodeView>, i: int, t: int) -> bool {
    &&& !vs[t].archived
    &&& !vs[t].status.terminal()
    &&& vs[t].deps.contains(vs[i].id)
}

/// `kids[i]` lists exactly the positions of the work waiting on node `i`.
pub open spec fn kids_ok(vs: Seq<NodeView>, kids: Seq<Vec<usize>>) -> bool {
    &&& kids.len() == vs.len()
    &&& vs.len() <= usize::MAX
    &&& forall|i: int, k: int| 0 <= i < kids.len() && 0 <= k < kids[i]@.len() ==>
            (#[trigger] kids[i]@[k]) < vs.len() && kid(vs, i, kids[i]@[k] as int)
    &&& forall|i: int, t: int| 0 <= i < vs.len() && 0 <= t < vs.len() && #[trigger] kid(vs, i, t) ==>
            kids[i]@.contains(t as usize)
}

/// The positions on the walk now under way: distinct, in range, marked, and
/// each waiting on the one before.
pub open spec fn path_ok(vs: Seq<NodeView>, on_path: Seq<bool>, path: Seq<int>) -> bool {
    &&& path.no_duplicates()
    &&& forall|k: int| 0 <= k < path.len() ==> 0 <= #[trigger] path[k] < vs.len()
    &&& forall|i: int| 0 <= i < vs.len() ==> (#[trigger] on_path[i] <==> path.contains(i))
    &&& forall|k: int| 0 <= k < path.len() - 1 ==> kid(vs, #[trigger] path[k], path[k + 1])
}

/// Node `i`'s depth is one more than its deepest waiting node, whose depths
/// are all known.
pub open spec fn settled(vs: Seq<NodeView>, done: Seq<bool>, memo: Seq<u32>, i: int) -> bool {
    &&& forall|t: int| 0 <= t < vs.len() && #[trigger] kid(vs, i, t) ==> done[t] && memo[i] >= sat1(memo[t])
    &&& memo[i] == 0 || exists|t: int| 0 <= t < vs.len() && #[trigger] kid(vs, i, t) && done[t] && memo[i] == sat1(memo[t])
}

/// On an acyclic graph, every finished position is settled.
pub open spec fn memo_ok(vs: Seq<NodeView>, done: Seq<bool>, memo: Seq<u32>) -> bool {
    acyclic(node_map(vs)) ==> forall|i: int| 0 <= i < vs.len() && #[trigger] done[i] ==> settled(vs, done, memo, i)
}

/// What was finished stays finished, with its depth.
pub open spec fn grown(done0: Seq<bool>, memo0: Seq<u32>, done1: Seq<bool>, memo1: Seq<u32>) -> bool {
    forall|i: int| 0 <= i < done0.len() && #[trigger] done0[i] ==> done1[i] && memo1[i] == memo0[i]
}

proof fn lemma_settled_grows(vs: Seq<NodeView>, done0: Seq<bool>, memo0: Seq<u32>, done1: Seq<bool>, memo1: Seq<u32>, i: int)
    requires
        done0.len() == vs.len(),
        0 <= i < vs.len(),
        done0[i],
        settled(vs, done0, memo0, i),
        grown(done0, memo0, done1, memo1),
    ensures
        settled(vs, done1, memo1, i),
{
    assert(memo1[i] == memo0[i]);
    assert forall|t: int| 0 <= t < vs.len() && #[trigger] kid(vs, i, t) implies done1[t] && memo1[i] >= sat1(memo1[t]) by {
        assert(done0[t]);
    }
    if memo0[i] != 0 {
        let t = choose|t: int| 0 <= t < vs.len() && #[trigger] kid(vs, i, t) && done0[t] && memo0[i] == sat1(memo0[t]);
        assert(done0[t]);
        assert(kid(vs, i, t) && done1[t] && memo1[i] == sat1(memo1[t]));
    }
}

/// A walk that comes back to a node on it closes a dependency loop.
proof fn lemma_path_cycle(vs: Seq<NodeView>, p: Seq<int>, i: int)
    requires
        ids_distinct(vs),
        0 <= i < p.len(),
        forall|k: int| 0 <= k < p.len() ==> 0 <= #[trigger] p[k] < vs.len(),
        forall|k: int| 0 <= k < p.len() - 1 ==> kid(vs, #[trigger] p[k], p[k + 1]),
        kid(vs, p.last(), p[i]),
    ensures
        !acyclic(node_map(vs)),
{
    let m = node_map(vs);
    let len = p.len() - i;
    let at = |s: int| if s < len { p[i + s] } else { p[i] };
    let q = Seq::new((len + 1) as nat, |s: int| vs[at(s)].id);
    assert forall|s: int| 0 <= s < q.len() - 1 implies below(m, #[trigger] q[s], q[s + 1]) by {
        let a = at(s);
        let b = at(s + 1);
        if s + 1 < len {
            assert(kid(vs, p[i + s], p[i + s + 1]));
        } else {
            assert(p[i + s] == p.last());
        }
        assert(kid(vs, a, b));
        lemma_map_at(vs, b);
    }
    assert forall|s: int| 0 <= s < q.len() implies m.contains_key(#[trigger] q[s]) by {
        lemma_map_at(vs, at(s));
    }
    lemma_chain_repeat(m, q, 0, len);
}

/// A walk of distinct positions in range has room for one more that is not on it.
proof fn lemma_path_room(n: int, path: Seq<int>, x: int)
    requires
        path.no_duplicates(),
        forall|k: int| 0 <= k < path.len() ==> 0 <= #[trigger] path[k] < n,
        0 <= x < n,
        !path.contains(x),
    ensures
        path.push(x).no_duplicates(),
        path.push(x).len() <= n,
{
    let p = path.push(x);
    assert(p.no_duplicates()) by {
        assert forall|a: int, b: int| 0 <= a < p.len() && 0 <= b < p.len() && a != b implies p[a] != p[b] by {
            if a < path.len() && b < path.len() {
                assert(path[a] != path[b]);
            } else if a < path.len() {
                assert(path.contains(path[a]));
            } else {
                assert(path.contains(path[b]));
            }
        }
    }
    p.unique_seq_to_set();
    vstd::set_lib::lemma_int_range(0, n);
    assert(p.to_set().subset_of(vstd::set_lib::set_int_range(0, n))) by {
        assert forall|v: int| #[trigger] p.to_set().contains(v) implies vstd::set_lib::set_int_range(0, n).contains(v) by {
            let k = choose|k: int| 0 <= k < p.len() && p[k] == v;
            if k < path.len() {
                assert(0 <= path[k] < n);
            }
        }
    }
    vstd::set_lib::lemma_len_subset(p.to_set(), vstd::set_lib::set_int_range(0, n));
}

/// Where the node with this id sits in the list, if anywhere.
fn position_of(nodes: &Vec<WorkNode>, id: WorkId) -> (r: Option<usize>)
    ensures
        r matches Some(i) ==> i < nodes@.len() && nodes@[i as int].id == id,
        r is None ==> forall|i: int| 0 <= i < nodes@.len() ==> (#[trigger] nodes@[i]).id != id,
{
    let mut i: usize = 0;
    while i < nodes.len()
        invariant
            i <= nodes@.len(),
            forall|k: int| 0 <= k < i ==> (#[trigger] nodes@[k]).id != id,
        decreases nodes@.len() - i,
    {
        if nodes[i].id == id {
            return Some(i);
        }
        i = i + 1;
    }
    None
}

/// For each node, the positions of the unfinished work waiting on it.
fn waiting_lists(nodes: &Vec<WorkNode>) -> (kids: Vec<Vec<usize>>)
    requires
        ids_distinct(views(nodes@)),
    ensures
        kids_ok(views(nodes@), kids@),
{
    let ghost vs = views(nodes@);
    let n = nodes.len();
    let mut kids: Vec<Vec<usize>> = Vec::new();
    let mut i: usize = 0;
    while i < n
        invariant
            n == nodes@.len(),
            i <= n,
            kids@.len() == i,
            forall|k: int| 0 <= k < i ==> (#[trigger] kids@[k])@.len() == 0,
        decreases n - i,
    {
        kids.push(Vec::new());
        i = i + 1;
    }
    let mut y: usize = 0;
    while y < n
        invariant
            n == nodes@.len(),
            vs == views(nodes@),
            ids_distinct(vs),
            y <= n,
            kids@.len() == n,
            forall|i: int, k: int| 0 <= i < n && 0 <= k < kids@[i]@.len() ==>
                (#[trigger] kids@[i]@[k]) < n && kid(vs, i, kids@[i]@[k] as int),
            forall|i: int, t: int| 0 <= i < n && 0 <= t < y && #[trigger] kid(vs, i, t) ==> kids@[i]@.contains(t as usize),
        decreases n - y,
    {
        let node = &nodes[y];
        assert(vs[y as int] == nodes@[y as int]@);
        if !node.archived && !node.status.is_terminal() {
            let mut j: usize = 0;
            while j < node.deps.len()
                invariant
                    n == nodes@.len(),
                    vs == views(nodes@),
                    ids_distinct(vs),
                    y < n,
                    *node == nodes@[y as int],
                    vs[y as int] == node@,
                    !node.archived,
                    !node.status.terminal(),
                    j <= node.deps@.len(),
                    kids@.len() == n,
                    forall|i: int, k: int| 0 <= i < n && 0 <= k < kids@[i]@.len() ==>
                        (#[trigger] kids@[i]@[k]) < n && kid(vs, i, kids@[i]@[k] as int),
                    forall|i: int, t: int| 0 <= i < n && 0 <= t < y && #[trigger] kid(vs, i, t) ==> kids@[i]@.contains(t as usize),
                    forall|i: int, k: int| #![trigger node.deps@[k], vs[i]] 0 <= i < n && 0 <= k < j && node.deps@[k] == vs[i].id ==> kids@[i]@.contains(y),
                decreases node.deps@.len() - j,
            {
                match position_of(nodes, node.deps[j]) {
                    Some(x) => {
                        let ghost before = kids@;
                        proof {
                            assert(vs[x as int] == nodes@[x as int]@);
                            assert(node.deps@.contains(vs[x as int].id)) by {
                                assert(node.deps@[j as int] == vs[x as int].id);
                            }
                            assert(kid(vs, x as int, y as int));
                        }
                        kids[x].push(y);
                        proof {
                            assert forall|i: int, k: int| 0 <= i < n && 0 <= k < kids@[i]@.len() implies
                                (#[trigger] kids@[i]@[k]) < n && kid(vs, i, kids@[i]@[k] as int) by {
                                if i != x {
                                    assert(kids@[i] == before[i]);
                                } else if k < before[i]@.len() {
                                    assert(kids@[i]@[k] == before[i]@[k]);
                                }
                            }
                            assert forall|i: int, t: int| 0 <= i < n && 0 <= t < y && #[trigger] kid(vs, i, t) implies kids@[i]@.contains(t as usize) by {
                                assert(before[i]@.contains(t as usize));
                                let k = choose|k: int| 0 <= k < before[i]@.len() && before[i]@[k] == t as usize;
                                if i == x {
                                    assert(kids@[i]@[k] == before[i]@[k]);
                                } else {
                                    assert(kids@[i] == before[i]);
                                }
                            }
                            assert forall|i: int, k: int| #![trigger node.deps@[k], vs[i]] 0 <= i < n && 0 <= k < j + 1 && node.deps@[k] == vs[i].id implies kids@[i]@.contains(y) by {
                                if k < j {
                                    assert(before[i]@.contains(y));
                                    let q = choose|q: int| 0 <= q < before[i]@.len() && before[i]@[q] == y;
                                    if i == x {
                                        assert(kids@[i]@[q] == before[i]@[q]);
                                    } else {
                                        assert(kids@[i] == before[i]);
                                    }
                                } else {
                                    if i != x {
                                        assert(vs[i].id != vs[x as int].id) by {
                                            if i < x {
                                                assert(vs[i].id != vs[x as int].id);
                                            } else {
                                                assert(vs[x as int].id != vs[i].id);
                                            }
                                        }
                                    }
                                    assert(kids@[i]@[kids@[i]@.len() - 1] == y);
                                }
                            }
                        }
                    },
                    None => {
                        proof {
                            assert forall|i: int, k: int| #![trigger node.deps@[k], vs[i]] 0 <= i < n && 0 <= k < j + 1 && node.deps@[k] == vs[i].id implies kids@[i]@.contains(y) by {
                                if k == j {
                                    assert(nodes@[i].id != node.deps@[j as int]);
                                    assert(vs[i] == nodes@[i]@);
                                }
                            }
                        }
                    },
                }
                j = j + 1;
            }
            proof {
                assert forall|i: int, t: int| 0 <= i < n && 0 <= t < y + 1 && #[trigger] kid(vs, i, t) implies kids@[i]@.contains(t as usize) by {
                    if t == y {
                        let k = choose|k: int| 0 <= k < node.deps@.len() && node.deps@[k] == vs[i].id;
                    }
                }
            }
        } else {
            proof {
                assert forall|i: int, t: int| 0 <= i < n && 0 <= t < y + 1 && #[trigger] kid(vs, i, t) implies kids@[i]@.contains(t as usize) by {
                    if t == y {
                        assert(vs[t].archived || vs[t].status.terminal());
                    }
                }
            }
        }
        y = y + 1;
    }
    kids
}

/// The depth of node `x`, computed once and remembered. A walk that comes
/// back to a node on it (a dependency loop, possible only in a damaged
/// graph) counts that node as zero rather than going round forever.
fn depth_below(
    kids: &Vec<Vec<usize>>,
    x: usize,
    memo: &mut Vec<u32>,
    done: &mut Vec<bool>,
    on_path: &mut Vec<bool>,
    Ghost(vs): Ghost<Seq<NodeView>>,
    Ghost(path): Ghost<Seq<int>>,
) -> (r: u32)
    requires
        ids_distinct(vs),
        kids_ok(vs, kids@),
        x < vs.len(),
        old(memo)@.len() == vs.len(),
        old(done)@.len() == vs.len(),
        old(on_path)@.len() == vs.len(),
        path_ok(vs, old(on_path)@, path),
        path.len() > 0 ==> kid(vs, path.last(), x as int),
        memo_ok(vs, old(done)@, old(memo)@),
    ensures
        final(memo)@.len() == vs.len(),
        final(done)@.len() == vs.len(),
        final(on_path)@ == old(on_path)@,
        memo_ok(vs, final(done)@, final(memo)@),
        grown(old(done)@, old(memo)@, final(done)@, final(memo)@),
        forall|i: int| 0 <= i < vs.len() && #[trigger] final(done)@[i] && !old(done)@[i] ==> !old(on_path)@[i],
        !old(on_path)@[x as int] ==> final(done)@[x as int] && r == final(memo)@[x as int],
    decreases vs.len() - path.len(),
{
    if done[x] {
        return memo[x];
    }
    if on_path[x] {
        return 0;
    }
    proof {
        lemma_path_room(vs.len() as int, path, x as int);
    }
    let ghost path2 = path.push(x as int);
    on_path.set(x, true);
    proof {
        assert(path_ok(vs, on_path@, path2)) by {
            assert forall|i: int| 0 <= i < vs.len() implies (#[trigger] on_path@[i] <==> path2.contains(i)) by {
                if i == x {
                    assert(path2[path.len() as int] == x);
                } else {
                    if path2.contains(i) {
                        let k = choose|k: int| 0 <= k < path2.len() && path2[k] == i;
                        assert(path.contains(path[k]));
                    }
                    if path.contains(i) {
                        let k = choose|k: int| 0 <= k < path.len() && path[k] == i;
                        assert(path2[k] == i);
                    }
                }
            }
            assert forall|k: int| 0 <= k < path2.len() - 1 implies kid(vs, #[trigger] path2[k], path2[k + 1]) by {
                if k + 1 < path.len() {
                    assert(kid(vs, path[k], path[k + 1]));
                } else {
                    assert(path2[k] == path.last());
                }
            }
        }
    }
    let row = &kids[x];
    let mut best: u32 = 0;
    let mut k: usize = 0;
    while k < row.len()
        invariant
            ids_distinct(vs),
            kids_ok(vs, kids@),
            x < vs.len(),
            *row == kids@[x as int],
            k <= row@.len(),
            memo@.len() == vs.len(),
            done@.len() == vs.len(),
            on_path@.len() == vs.len(),
            old(on_path)@.len() == vs.len(),
            old(done)@.len() == vs.len(),
            old(memo)@.len() == vs.len(),
            on_path@ == old(on_path)@.update(x as int, true),
            path2 == path.push(x as int),
            path2.len() <= vs.len(),
            path_ok(vs, on_path@, path2),
            !old(on_path)@[x as int],
            !old(done)@[x as int],
            !done@[x as int],
            memo_ok(vs, done@, memo@),
            grown(old(done)@, old(memo)@, done@, memo@),
            forall|i: int| 0 <= i < vs.len() && #[trigger] done@[i] && !old(done)@[i] ==> !old(on_path)@[i] && i != x,
            acyclic(node_map(vs)) ==> forall|q: int| 0 <= q < k ==> done@[#[trigger] row@[q] as int] && best >= sat1(memo@[row@[q] as int]),
            acyclic(node_map(vs)) ==> best == 0 || exists|q: int| 0 <= q < k && best == sat1(memo@[#[trigger] row@[q] as int]),
        decreases row@.len() - k,
    {
        let t = row[k];
        assert(t < vs.len() && kid(vs, x as int, t as int));
        proof {
            if acyclic(node_map(vs)) && on_path@[t as int] {
                let i = choose|i: int| 0 <= i < path2.len() && path2[i] == t;
                lemma_path_cycle(vs, path2, i);
            }
        }
        let ghost done0 = done@;
        let ghost memo0 = memo@;
        let v = depth_below(kids, t, memo, done, on_path, Ghost(vs), Ghost(path2));
        let s = if v == u32::MAX { v } else { v + 1 };
        if s > best {
            best = s;
        }
        proof {
            assert(grown(old(done)@, old(memo)@, done@, memo@)) by {
                assert forall|i: int| 0 <= i < old(done)@.len() && #[trigger] old(done)@[i] implies done@[i] && memo@[i] == old(memo)@[i] by {
                    assert(done0[i]);
                }
            }
            assert forall|i: int| 0 <= i < vs.len() && #[trigger] done@[i] && !old(done)@[i] implies !old(on_path)@[i] && i != x by {
                if !done0[i] {
                    assert(!on_path@[i]);
                }
            }
            if acyclic(node_map(vs)) {
                assert forall|q: int| 0 <= q < k + 1 implies done@[#[trigger] row@[q] as int] && best >= sat1(memo@[row@[q] as int]) by {
                    if q < k {
                        assert(done0[row@[q] as int]);
                    }
                }
                if best != 0 {
                    if s > 0 && best == s {
                        assert(best == sat1(memo@[row@[k as int] as int]));
                    } else {
                        let q = choose|q: int| 0 <= q < k && best == sat1(memo0[#[trigger] row@[q] as int]);
                        assert(done0[row@[q] as int]);
                        assert(best == sat1(memo@[row@[q] as int]));
                    }
                }
            }
        }
        k = k + 1;
    }
    let ghost done1 = done@;
    let ghost memo1 = memo@;
    on_path.set(x, false);
    memo.set(x, best);
    done.set(x, true);
    proof {
        assert(on_path@ =~= old(on_path)@);
        assert(grown(done1, memo1, done@, memo@));
        assert(grown(old(done)@, old(memo)@, done@, memo@)) by {
            assert forall|i: int| 0 <= i < old(done)@.len() && #[trigger] old(done)@[i] implies done@[i] && memo@[i] == old(memo)@[i] by {
                assert(done1[i]);
            }
        }
        if acyclic(node_map(vs)) {
            assert forall|i: int| 0 <= i < vs.len() && #[trigger] done@[i] implies settled(vs, done@, memo@, i) by {
                if i == x {
                    assert forall|t: int| 0 <= t < vs.len() && #[trigger] kid(vs, i, t) implies done@[t] && memo@[i] >= sat1(memo@[t]) by {
                        assert(row@.contains(t as usize));
                        let q = choose|q: int| 0 <= q < row@.len() && row@[q] == t as usize;
                        assert(done1[row@[q] as int]);
                    }
                    if best != 0 {
                        let q = choose|q: int| 0 <= q < row@.len() && best == sat1(memo1[#[trigger] row@[q] as int]);
                        let t = row@[q] as int;
                        assert(done1[t]);
                        assert(kid(vs, i, t) && done@[t] && memo@[i] == sat1(memo@[t]));
                    }
                } else {
                    assert(done1[i]);
                    lemma_settled_grows(vs, done1, memo1, done@, memo@, i);
                }
            }
        }
        assert forall|i: int| 0 <= i < vs.len() && #[trigger] done@[i] && !old(done)@[i] implies !old(on_path)@[i] by {
            if i != x {
                assert(done1[i]);
            }
        }
    }
    best
}

/// The critical depth of every node of a list with distinct ids.
pub(crate) fn depths_of(nodes: &Vec<WorkNode>) -> (r: DepthMap)
    requires
        ids_distinct(views(nodes@)),
    ensures
        r@.dom() == node_map(views(nodes@)).dom(),
        acyclic(node_map(views(nodes@))) ==> r@ == depth_of(node_map(views(nodes@))),
{
    let ghost vs = views(nodes@);
    let ghost m = node_map(vs);
    let kids = waiting_lists(nodes);
    let n = nodes.len();
    let mut memo: Vec<u32> = Vec::new();
    let mut done: Vec<bool> = Vec::new();
    let mut on_path: Vec<bool> = Vec::new();
    let mut i: usize = 0;
    while i < n
        invariant
            n == vs.len(),
            i <= n,
            memo@.len() == i,
            done@.len() == i,
            on_path@.len() == i,
            forall|k: int| 0 <= k < i ==> !(#[trigger] done@[k]),
            forall|k: int| 0 <= k < i ==> !(#[trigger] on_path@[k]),
        decreases n - i,
    {
        memo.push(0);
        done.push(false);
        on_path.push(false);
        i = i + 1;
    }
    i = 0;
    while i < n
        invariant
            n == vs.len(),
            vs == views(nodes@),
            ids_distinct(vs),
            kids_ok(vs, kids@),
            i <= n,
            memo@.len() == n,
            done@.len() == n,
            on_path@.len() == n,
            forall|k: int| 0 <= k < n ==> !(#[trigger] on_path@[k]),
            forall|k: int| 0 <= k < i ==> #[trigger] done@[k],
            memo_ok(vs, done@, memo@),
        decreases n - i,
    {
        let ghost done0 = done@;
        let ghost memo0 = memo@;
        assert(path_ok(vs, on_path@, Seq::<int>::empty()));
        depth_below(&kids, i, &mut memo, &mut done, &mut on_path, Ghost(vs), Ghost(Seq::<int>::empty()));
        proof {
            assert forall|k: int| 0 <= k < i + 1 implies #[trigger] done@[k] by {
                if k < i {
                    assert(done0[k]);
                }
            }
        }
        i = i + 1;
    }
    let mut ids: Vec<WorkId> = Vec::new();
    i = 0;
    while i < n
        invariant
            n == nodes@.len(),
            vs == views(nodes@),
            i <= n,
            ids@ == id_seq(vs).take(i as int),
        decreases n - i,
    {
        ids.push(nodes[i].id);
        proof {
            assert(vs[i as int] == nodes@[i as int]@);
            assert(ids@ =~= id_seq(vs).take(i as int + 1));
        }
        i = i + 1;
    }
    proof {
        assert(ids@ =~= id_seq(vs));
        assert(ids@.no_duplicates()) by {
            assert forall|a: int, b: int| 0 <= a < ids@.len() && 0 <= b < ids@.len() && a != b implies ids@[a] != ids@[b] by {
                if a < b {
                    assert(vs[a].id != vs[b].id);
                } else {
                    assert(vs[b].id != vs[a].id);
                }
            }
        }
    }
    let ghost memo_final = memo@;
    let r = DepthMap::from_parts(ids, memo);
    proof {
        lemma_dom_len(vs);
        assert(r@.dom() == m.dom());
        if acyclic(m) {
            let d = r@;
            assert forall|x: WorkId, y: WorkId| m.contains_key(x) && #[trigger] below(m, x, y) implies d[x] >= sat1(d[y]) by {
                let a = lemma_map_key(vs, x);
                let b = lemma_map_key(vs, y);
                assert(kid(vs, a, b));
                assert(ids@[a] == x && ids@[b] == y);
                assert(done@[a]);
                assert(settled(vs, done@, memo_final, a));
            }
            assert forall|x: WorkId| #[trigger] m.contains_key(x) implies d[x] == 0 || exists|y: WorkId| #[trigger] below(m, x, y) && d[x] == sat1(d[y]) by {
                let a = lemma_map_key(vs, x);
                assert(ids@[a] == x);
                assert(done@[a]);
                assert(settled(vs, done@, memo_final, a));
                if memo_final[a] != 0 {
                    let t = choose|t: int| 0 <= t < vs.len() && #[trigger] kid(vs, a, t) && done@[t] && memo_final[a] == sat1(memo_final[t]);
                    lemma_map_at(vs, t);
                    assert(ids@[t] == vs[t].id);
                    assert(below(m, x, vs[t].id));
                }
            }
            assert(bellman(m, d));
            lemma_solution_is_depth(m, d);
        }
    }
    r
}

} // verus!
