//! One ordering routine for every list the library hands out in order: each
//! entry carries four `u64` keys and the position it came from, compared in
//! that order.

use vstd::prelude::*;

verus! {

/// A sort entry: four keys, most significant first, and a payload index.
#[derive(Clone, Copy, Debug, PartialEq, Eq, Structural)]
pub struct Keyed {
    pub k0: u64,
    pub k1: u64,
    pub k2: u64,
    pub k3: u64,
    pub at: usize,
}

/// Lexicographic order on the keys, then the index.
pub open spec fn keyed_lt(a: Keyed, b: Keyed) -> bool {
    if a.k0 != b.k0 {
        a.k0 < b.k0
    } else if a.k1 != b.k1 {
        a.k1 < b.k1
    } else if a.k2 != b.k2 {
        a.k2 < b.k2
    } else if a.k3 != b.k3 {
        a.k3 < b.k3
    } else {
        a.at < b.at
    }
}

/// Strictly increasing under `keyed_lt`.
pub open spec fn keyed_sorted(s: Seq<Keyed>) -> bool {
    forall|i: int, j: int| 0 <= i < j < s.len() ==> keyed_lt(#[trigger] s[i], #[trigger] s[j])
}

pub fn keyed_less(a: &Keyed, b: &Keyed) -> (r: bool)
    ensures
        r == keyed_lt(*a, *b),
{
    if a.k0 != b.k0 {
        a.k0 < b.k0
    } else if a.k1 != b.k1 {
        a.k1 < b.k1
    } else if a.k2 != b.k2 {
        a.k2 < b.k2
    } else if a.k3 != b.k3 {
        a.k3 < b.k3
    } else {
        a.at < b.at
    }
}

proof fn lemma_keyed_trans(a: Keyed, b: Keyed, c: Keyed)
    requires
        keyed_lt(a, b),
        keyed_lt(b, c),
    ensures
        keyed_lt(a, c),
{
}

proof fn lemma_keyed_total(a: Keyed, b: Keyed)
    ensures
        a == b || keyed_lt(a, b) || keyed_lt(b, a),
        !(keyed_lt(a, b) && keyed_lt(b, a)),
        !keyed_lt(a, a),
{
}

/// The entries in increasing order. The input holds no entry twice.
pub fn sort_keyed(v: Vec<Keyed>) -> (out: Vec<Keyed>)
    requires
        v@.no_duplicates(),
    ensures
        out@.len() == v@.len(),
        keyed_sorted(out@),
        forall|e: Keyed| out@.contains(e) <==> v@.contains(e),
{
    let mut out: Vec<Keyed> = Vec::new();
    let mut i: usize = 0;
    while i < v.len()
        invariant
            i <= v@.len(),
            v@.no_duplicates(),
            out@.len() == i,
            keyed_sorted(out@),
            forall|e: Keyed| out@.contains(e) <==> v@.take(i as int).contains(e),
        decreases v@.len() - i,
    {
        let x = v[i];
        let mut pos: usize = 0;
        while pos < out.len() && keyed_less(&out[pos], &x)
            invariant
                pos <= out@.len(),
                forall|k: int| 0 <= k < pos ==> keyed_lt(#[trigger] out@[k], x),
            decreases out@.len() - pos,
        {
            pos = pos + 1;
        }
        let ghost before = out@;
        assert(!v@.take(i as int).contains(x)) by {
            if v@.take(i as int).contains(x) {
                let k = choose|k: int| 0 <= k < i && v@.take(i as int)[k] == x;
                assert(v@[k] == v@[i as int]);
            }
        }
        assert(forall|k: int| pos <= k < before.len() ==> keyed_lt(x, #[trigger] before[k])) by {
            assert forall|k: int| pos <= k < before.len() implies keyed_lt(x, #[trigger] before[k]) by {
                lemma_keyed_total(x, before[pos as int]);
                assert(before[pos as int] != x) by {
                    assert(before.contains(before[pos as int]));
                }
                if k > pos {
                    lemma_keyed_trans(x, before[pos as int], before[k]);
                }
            }
        }
        out.insert(pos, x);
        proof {
            let after = out@;
            assert(after =~= before.take(pos as int).push(x) + before.skip(pos as int));
            assert forall|a: int, b: int| 0 <= a < b < after.len() implies keyed_lt(#[trigger] after[a], #[trigger] after[b]) by {
                if b < pos {
                } else if b == pos {
                    assert(after[a] == before[a]);
                } else if a < pos {
                    assert(after[a] == before[a]);
                    assert(after[b] == before[b - 1]);
                    lemma_keyed_trans(before[a], x, before[b - 1]);
                } else if a == pos {
                    assert(after[b] == before[b - 1]);
                } else {
                    assert(after[a] == before[a - 1]);
                    assert(after[b] == before[b - 1]);
                }
            }
            assert(v@.take(i + 1) =~= v@.take(i as int).push(x));
            assert forall|e: Keyed| after.contains(e) <==> v@.take(i + 1).contains(e) by {
                if after.contains(e) {
                    let k = choose|k: int| 0 <= k < after.len() && after[k] == e;
                    if k < pos {
                        assert(before[k] == e);
                        assert(before.contains(e));
                    } else if k > pos {
                        assert(before[k - 1] == e);
                        assert(before.contains(e));
                    } else {
                        assert(v@.take(i + 1)[i as int] == x);
                    }
                    if e != x {
                        assert(v@.take(i as int).contains(e));
                        let m = choose|m: int| 0 <= m < i && v@.take(i as int)[m] == e;
                        assert(v@.take(i + 1)[m] == e);
                    }
                }
                if v@.take(i + 1).contains(e) {
                    if e == x {
                        assert(after[pos as int] == x);
                    } else {
                        assert(v@.take(i as int).contains(e));
                        assert(before.contains(e));
                        let k = choose|k: int| 0 <= k < before.len() && before[k] == e;
                        if k < pos {
                            assert(after[k] == e);
                        } else {
                            assert(after[k + 1] == e);
                        }
                    }
                }
            }
        }
        i = i + 1;
    }
    assert(v@.take(v@.len() as int) =~= v@);
    out
}

} // verus!
