//! The snapshot file: the format name, the two counters and every node, as
//! little-endian fields; each list and text is preceded by its length as a
//! `u32`. Reading gives back exactly what writing wrote, and refuses any
//! bytes that no snapshot encodes to.

use vstd::prelude::*;
use vstd::utf8::{decode_utf8, encode_utf8, valid_utf8};
use crate::id::{append_bytes, le32, le_bytes, u64_le, WorkId};
use crate::work::{NodeView, WorkKind, WorkNode, WorkRole, WorkStatus};
use crate::model::{lemma_views_push, views};

verus! {

broadcast use vstd::utf8::encode_utf8_valid_utf8, vstd::utf8::encode_utf8_decode_utf8;

/// The snapshot's file name inside the graph directory.
pub const SNAP_BIN: &'static str = "work.bin";

/// The file name an older, load-only format used.
pub const SNAP_JSON_V0: &'static str = "work.json";

/// The byte a kind is written as.
pub open spec fn kind_code(k: WorkKind) -> u8 {
    match k {
        WorkKind::Unset => 0,
        WorkKind::Goal => 1,
        WorkKind::Step => 2,
        WorkKind::Task => 3,
        WorkKind::Molecule => 4,
    }
}

/// The byte a status is written as.
pub open spec fn status_code(s: WorkStatus) -> u8 {
    match s {
        WorkStatus::Todo => 0,
        WorkStatus::Ready => 1,
        WorkStatus::Claimed => 2,
        WorkStatus::Running => 3,
        WorkStatus::Blocked => 4,
        WorkStatus::Done => 5,
        WorkStatus::Failed => 6,
        WorkStatus::Cancelled => 7,
    }
}

/// The byte a role is written as.
pub open spec fn role_code(r: WorkRole) -> u8 {
    match r {
        WorkRole::Unset => 0,
        WorkRole::Explore => 1,
        WorkRole::Architect => 2,
        WorkRole::Implementor => 3,
        WorkRole::Verifier => 4,
        WorkRole::Orchestrator => 5,
        WorkRole::General => 6,
    }
}

/// An id: high half, then low half.
pub open spec fn id_bytes(id: WorkId) -> Seq<u8> {
    le_bytes(id.hi) + le_bytes(id.lo)
}

/// The items of a list, each written by `f`, one after another.
pub open spec fn list_bytes<A>(s: Seq<A>, f: spec_fn(A) -> Seq<u8>) -> Seq<u8>
    decreases s.len(),
{
    if s.len() == 0 {
        Seq::empty()
    } else {
        f(s[0]) + list_bytes(s.drop_first(), f)
    }
}

pub open spec fn id_piece() -> spec_fn(WorkId) -> Seq<u8> {
    |x: WorkId| id_bytes(x)
}

/// A list of ids, one after another.
pub open spec fn ids_bytes(ids: Seq<WorkId>) -> Seq<u8> {
    list_bytes(ids, id_piece())
}

/// A text: its UTF-8 length, then its UTF-8 bytes.
pub open spec fn text_bytes(s: Seq<char>) -> Seq<u8> {
    le32(encode_utf8(s).len() as u32) + encode_utf8(s)
}

/// The kind, status and role bytes.
pub open spec fn codes_bytes(n: NodeView) -> Seq<u8> {
    seq![kind_code(n.kind), status_code(n.status), role_code(n.role)]
}

/// The archived flag as one byte.
pub open spec fn flag_byte(b: bool) -> Seq<u8> {
    seq![if b { 1u8 } else { 0u8 }]
}

/// One node.
pub open spec fn node_bytes(n: NodeView) -> Seq<u8> {
    id_bytes(n.id) + (codes_bytes(n) + (id_bytes(n.assignee) + (id_bytes(n.parent) + (le32(n.deps.len() as u32)
        + (ids_bytes(n.deps) + (le_bytes(n.cas_gen) + (le_bytes(n.created_unix) + (le_bytes(n.updated_unix)
        + (le_bytes(n.finished_unix) + (text_bytes(n.summary) + flag_byte(n.archived)))))))))))
}

pub open spec fn node_piece() -> spec_fn(NodeView) -> Seq<u8> {
    |n: NodeView| node_bytes(n)
}

/// A list of nodes, one after another.
pub open spec fn nodes_bytes(ns: Seq<NodeView>) -> Seq<u8> {
    list_bytes(ns, node_piece())
}

/// A whole snapshot.
pub open spec fn snapshot_bytes(format: Seq<char>, next_seq: u64, mint_seq: u64, ns: Seq<NodeView>) -> Seq<u8> {
    text_bytes(format) + (le_bytes(next_seq) + (le_bytes(mint_seq) + (le32(ns.len() as u32) + nodes_bytes(ns))))
}

/// A text whose length a `u32` can carry.
pub open spec fn text_fits(s: Seq<char>) -> bool {
    encode_utf8(s).len() <= u32::MAX
}

/// A node whose lists and text a `u32` can count.
pub open spec fn node_fits(n: NodeView) -> bool {
    &&& n.deps.len() <= u32::MAX
    &&& text_fits(n.summary)
}

/// `piece` stands in `b` from position `p` on.
pub open spec fn at(b: Seq<u8>, p: int, piece: Seq<u8>) -> bool {
    &&& 0 <= p
    &&& p + piece.len() <= b.len()
    &&& b.subrange(p, p + piece.len()) == piece
}

pub proof fn lemma_at_split(b: Seq<u8>, p: int, s1: Seq<u8>, s2: Seq<u8>)
    ensures
        at(b, p, s1 + s2) <==> at(b, p, s1) && at(b, p + s1.len(), s2),
{
    if at(b, p, s1 + s2) {
        assert(b.subrange(p, p + s1.len()) =~= (s1 + s2).subrange(0, s1.len() as int));
        assert((s1 + s2).subrange(0, s1.len() as int) =~= s1);
        assert(b.subrange(p + s1.len(), p + s1.len() + s2.len()) =~= (s1 + s2).subrange(s1.len() as int, (s1.len() + s2.len()) as int));
        assert((s1 + s2).subrange(s1.len() as int, (s1.len() + s2.len()) as int) =~= s2);
    }
    if at(b, p, s1) && at(b, p + s1.len(), s2) {
        assert(b.subrange(p, p + (s1 + s2).len()) =~= s1 + s2) by {
            assert forall|i: int| 0 <= i < (s1 + s2).len() implies b.subrange(p, p + (s1 + s2).len())[i] == (s1 + s2)[i] by {
                if i < s1.len() {
                    assert(b.subrange(p, p + s1.len())[i] == s1[i]);
                } else {
                    assert(b.subrange(p + s1.len(), p + s1.len() + s2.len())[i - s1.len()] == s2[i - s1.len()]);
                }
            }
        }
    }
}

proof fn lemma_le64_split(x: u64, b0: u8, b1: u8, b2: u8, b3: u8, b4: u8, b5: u8, b6: u8, b7: u8)
    by (bit_vector)
    requires
        x == (b0 as u64) | ((b1 as u64) << 8u64) | ((b2 as u64) << 16u64) | ((b3 as u64) << 24u64)
            | ((b4 as u64) << 32u64) | ((b5 as u64) << 40u64) | ((b6 as u64) << 48u64) | ((b7 as u64) << 56u64),
    ensures
        ((x >> 0u64) & 0xff) as u8 == b0,
        ((x >> 8u64) & 0xff) as u8 == b1,
        ((x >> 16u64) & 0xff) as u8 == b2,
        ((x >> 24u64) & 0xff) as u8 == b3,
        ((x >> 32u64) & 0xff) as u8 == b4,
        ((x >> 40u64) & 0xff) as u8 == b5,
        ((x >> 48u64) & 0xff) as u8 == b6,
        ((x >> 56u64) & 0xff) as u8 == b7,
{
}

proof fn lemma_le64_same(x: u64, y: u64)
    by (bit_vector)
    requires
        ((x >> 0u64) & 0xff) as u8 == ((y >> 0u64) & 0xff) as u8,
        ((x >> 8u64) & 0xff) as u8 == ((y >> 8u64) & 0xff) as u8,
        ((x >> 16u64) & 0xff) as u8 == ((y >> 16u64) & 0xff) as u8,
        ((x >> 24u64) & 0xff) as u8 == ((y >> 24u64) & 0xff) as u8,
        ((x >> 32u64) & 0xff) as u8 == ((y >> 32u64) & 0xff) as u8,
        ((x >> 40u64) & 0xff) as u8 == ((y >> 40u64) & 0xff) as u8,
        ((x >> 48u64) & 0xff) as u8 == ((y >> 48u64) & 0xff) as u8,
        ((x >> 56u64) & 0xff) as u8 == ((y >> 56u64) & 0xff) as u8,
    ensures
        x == y,
{
}

proof fn lemma_le32_split(x: u32, b0: u8, b1: u8, b2: u8, b3: u8)
    by (bit_vector)
    requires
        x == (b0 as u32) | ((b1 as u32) << 8u32) | ((b2 as u32) << 16u32) | ((b3 as u32) << 24u32),
    ensures
        ((x >> 0u32) & 0xff) as u8 == b0,
        ((x >> 8u32) & 0xff) as u8 == b1,
        ((x >> 16u32) & 0xff) as u8 == b2,
        ((x >> 24u32) & 0xff) as u8 == b3,
{
}

proof fn lemma_le32_same(x: u32, y: u32)
    by (bit_vector)
    requires
        ((x >> 0u32) & 0xff) as u8 == ((y >> 0u32) & 0xff) as u8,
        ((x >> 8u32) & 0xff) as u8 == ((y >> 8u32) & 0xff) as u8,
        ((x >> 16u32) & 0xff) as u8 == ((y >> 16u32) & 0xff) as u8,
        ((x >> 24u32) & 0xff) as u8 == ((y >> 24u32) & 0xff) as u8,
    ensures
        x == y,
{
}

/// Two `u64` with the same bytes are the same.
pub proof fn lemma_le64_unique(x: u64, y: u64)
    requires
        le_bytes(x) == le_bytes(y),
    ensures
        x == y,
{
    assert(le_bytes(x)[0] == ((x >> 0u64) & 0xff) as u8 && le_bytes(y)[0] == ((y >> 0u64) & 0xff) as u8);
    assert(le_bytes(x)[1] == ((x >> 8u64) & 0xff) as u8 && le_bytes(y)[1] == ((y >> 8u64) & 0xff) as u8);
    assert(le_bytes(x)[2] == ((x >> 16u64) & 0xff) as u8 && le_bytes(y)[2] == ((y >> 16u64) & 0xff) as u8);
    assert(le_bytes(x)[3] == ((x >> 24u64) & 0xff) as u8 && le_bytes(y)[3] == ((y >> 24u64) & 0xff) as u8);
    assert(le_bytes(x)[4] == ((x >> 32u64) & 0xff) as u8 && le_bytes(y)[4] == ((y >> 32u64) & 0xff) as u8);
    assert(le_bytes(x)[5] == ((x >> 40u64) & 0xff) as u8 && le_bytes(y)[5] == ((y >> 40u64) & 0xff) as u8);
    assert(le_bytes(x)[6] == ((x >> 48u64) & 0xff) as u8 && le_bytes(y)[6] == ((y >> 48u64) & 0xff) as u8);
    assert(le_bytes(x)[7] == ((x >> 56u64) & 0xff) as u8 && le_bytes(y)[7] == ((y >> 56u64) & 0xff) as u8);
    lemma_le64_same(x, y);
}

/// Two `u32` with the same bytes are the same.
pub proof fn lemma_le32_unique(x: u32, y: u32)
    requires
        le32(x) == le32(y),
    ensures
        x == y,
{
    assert(le32(x)[0] == ((x >> 0u32) & 0xff) as u8 && le32(y)[0] == ((y >> 0u32) & 0xff) as u8);
    assert(le32(x)[1] == ((x >> 8u32) & 0xff) as u8 && le32(y)[1] == ((y >> 8u32) & 0xff) as u8);
    assert(le32(x)[2] == ((x >> 16u32) & 0xff) as u8 && le32(y)[2] == ((y >> 16u32) & 0xff) as u8);
    assert(le32(x)[3] == ((x >> 24u32) & 0xff) as u8 && le32(y)[3] == ((y >> 24u32) & 0xff) as u8);
    lemma_le32_same(x, y);
}

fn put_u64(buf: &mut Vec<u8>, x: u64)
    ensures
        final(buf)@ == old(buf)@ + le_bytes(x),
{
    let b = u64_le(x);
    append_bytes(buf, b.as_slice());
}

fn put_u32(buf: &mut Vec<u8>, x: u32)
    ensures
        final(buf)@ == old(buf)@ + le32(x),
{
    let b = [
        ((x >> 0u32) & 0xff) as u8,
        ((x >> 8u32) & 0xff) as u8,
        ((x >> 16u32) & 0xff) as u8,
        ((x >> 24u32) & 0xff) as u8,
    ];
    assert(b@ =~= le32(x));
    append_bytes(buf, b.as_slice());
}

fn put_id(buf: &mut Vec<u8>, id: WorkId)
    ensures
        final(buf)@ == old(buf)@ + id_bytes(id),
{
    put_u64(buf, id.hi);
    put_u64(buf, id.lo);
    assert(buf@ =~= old(buf)@ + id_bytes(id));
}

fn put_text(buf: &mut Vec<u8>, s: &str)
    requires
        text_fits(s@),
    ensures
        final(buf)@ == old(buf)@ + text_bytes(s@),
{
    let b = s.as_bytes();
    put_u32(buf, b.len() as u32);
    append_bytes(buf, b);
    assert(buf@ =~= old(buf)@ + text_bytes(s@));
}

/// The `u32` at position `p`, if four bytes stand there.
fn get_u32(b: &[u8], p: usize) -> (r: Option<u32>)
    ensures
        r matches Some(x) ==> at(b@, p as int, le32(x)),
        r matches Some(x) ==> forall|y: u32| #[trigger] at(b@, p as int, le32(y)) ==> y == x,
        r is None ==> p + 4 > b@.len(),
        r is None ==> forall|y: u32| !(#[trigger] at(b@, p as int, le32(y))),
{
    if p > b.len() || b.len() - p < 4 {
        return None;
    }
    let b0 = b[p];
    let b1 = b[p + 1];
    let b2 = b[p + 2];
    let b3 = b[p + 3];
    let x: u32 = (b0 as u32) | ((b1 as u32) << 8u32) | ((b2 as u32) << 16u32) | ((b3 as u32) << 24u32);
    proof {
        lemma_le32_split(x, b0, b1, b2, b3);
        assert(b@.subrange(p as int, p + 4) =~= le32(x));
        assert forall|y: u32| #[trigger] at(b@, p as int, le32(y)) implies y == x by {
            lemma_le32_unique(y, x);
        }
    }
    Some(x)
}

/// The `u64` at position `p`, if eight bytes stand there.
fn get_u64(b: &[u8], p: usize) -> (r: Option<u64>)
    ensures
        r matches Some(x) ==> at(b@, p as int, le_bytes(x)),
        r matches Some(x) ==> forall|y: u64| #[trigger] at(b@, p as int, le_bytes(y)) ==> y == x,
        r is None ==> p + 8 > b@.len(),
        r is None ==> forall|y: u64| !(#[trigger] at(b@, p as int, le_bytes(y))),
{
    if p > b.len() || b.len() - p < 8 {
        return None;
    }
    let b0 = b[p];
    let b1 = b[p + 1];
    let b2 = b[p + 2];
    let b3 = b[p + 3];
    let b4 = b[p + 4];
    let b5 = b[p + 5];
    let b6 = b[p + 6];
    let b7 = b[p + 7];
    let x: u64 = (b0 as u64) | ((b1 as u64) << 8u64) | ((b2 as u64) << 16u64) | ((b3 as u64) << 24u64)
        | ((b4 as u64) << 32u64) | ((b5 as u64) << 40u64) | ((b6 as u64) << 48u64) | ((b7 as u64) << 56u64);
    proof {
        lemma_le64_split(x, b0, b1, b2, b3, b4, b5, b6, b7);
        assert(b@.subrange(p as int, p + 8) =~= le_bytes(x));
        assert forall|y: u64| #[trigger] at(b@, p as int, le_bytes(y)) implies y == x by {
            lemma_le64_unique(y, x);
        }
    }
    Some(x)
}

/// The id at position `p`, if sixteen bytes stand there.
fn get_id(b: &[u8], p: usize) -> (r: Option<WorkId>)
    ensures
        r matches Some(x) ==> at(b@, p as int, id_bytes(x)),
        r matches Some(x) ==> forall|y: WorkId| #[trigger] at(b@, p as int, id_bytes(y)) ==> y == x,
        r is None ==> forall|y: WorkId| !(#[trigger] at(b@, p as int, id_bytes(y))),
{
    if p > b.len() || b.len() - p < 16 {
        return None;
    }
    let hi = get_u64(b, p).unwrap();
    let lo = get_u64(b, p + 8).unwrap();
    let id = WorkId { hi, lo };
    proof {
        lemma_at_split(b@, p as int, le_bytes(hi), le_bytes(lo));
        assert forall|y: WorkId| #[trigger] at(b@, p as int, id_bytes(y)) implies y == id by {
            lemma_at_split(b@, p as int, le_bytes(y.hi), le_bytes(y.lo));
            lemma_le64_unique(y.hi, hi);
            lemma_le64_unique(y.lo, lo);
        }
    }
    Some(id)
}

/// `std::str::from_utf8`: the text the bytes spell, when they are UTF-8.
#[verifier::external_body]
fn utf8_text(bytes: &[u8]) -> (r: Option<String>)
    ensures
        r matches Some(s) ==> valid_utf8(bytes@) && s@ == decode_utf8(bytes@),
        r is None ==> !valid_utf8(bytes@),
{
    match std::str::from_utf8(bytes) {
        Ok(s) => Some(s.to_string()),
        Err(_) => None,
    }
}

/// The text at position `p` and where it ends, if a text stands there.
fn get_text(b: &[u8], p: usize) -> (r: Option<(String, usize)>)
    ensures
        r matches Some((s, q)) ==> q == p + text_bytes(s@).len() && at(b@, p as int, text_bytes(s@)) && text_fits(s@),
        r matches Some((s, q)) ==> forall|t: Seq<char>| text_fits(t) && #[trigger] at(b@, p as int, text_bytes(t)) ==> t == s@,
        r is None ==> forall|t: Seq<char>| text_fits(t) ==> !(#[trigger] at(b@, p as int, text_bytes(t))),
{
    let len = match get_u32(b, p) {
        Some(n) => n,
        None => {
            proof {
                assert forall|t: Seq<char>| text_fits(t) implies !(#[trigger] at(b@, p as int, text_bytes(t))) by {
                    lemma_at_split(b@, p as int, le32(encode_utf8(t).len() as u32), encode_utf8(t));
                }
            }
            return None;
        },
    };
    assert(le32(len).len() == 4);
    let blen = b.len();
    let start = p + 4;
    if blen - start < len as usize {
        proof {
            assert forall|t: Seq<char>| text_fits(t) implies !(#[trigger] at(b@, p as int, text_bytes(t))) by {
                lemma_at_split(b@, p as int, le32(encode_utf8(t).len() as u32), encode_utf8(t));
                if at(b@, p as int, text_bytes(t)) {
                    lemma_le32_unique(encode_utf8(t).len() as u32, len);
                }
            }
        }
        return None;
    }
    let end = start + len as usize;
    let slice = &b[start..end];
    match utf8_text(slice) {
        Some(s) => {
            proof {
                vstd::utf8::decode_utf8_encode_utf8(slice@);
                assert(encode_utf8(s@) == slice@);
                assert(at(b@, start as int, encode_utf8(s@)));
                lemma_at_split(b@, p as int, le32(encode_utf8(s@).len() as u32), encode_utf8(s@));
                assert forall|t: Seq<char>| text_fits(t) && #[trigger] at(b@, p as int, text_bytes(t)) implies t == s@ by {
                    lemma_at_split(b@, p as int, le32(encode_utf8(t).len() as u32), encode_utf8(t));
                    lemma_le32_unique(encode_utf8(t).len() as u32, len);
                    assert(encode_utf8(t) == slice@);
                }
            }
            Some((s, end))
        },
        None => {
            proof {
                assert forall|t: Seq<char>| text_fits(t) implies !(#[trigger] at(b@, p as int, text_bytes(t))) by {
                    lemma_at_split(b@, p as int, le32(encode_utf8(t).len() as u32), encode_utf8(t));
                    if at(b@, p as int, text_bytes(t)) {
                        lemma_le32_unique(encode_utf8(t).len() as u32, len);
                        assert(encode_utf8(t) == slice@);
                    }
                }
            }
            None
        },
    }
}

/// Appending one item appends its bytes.
pub proof fn lemma_list_push<A>(s: Seq<A>, x: A, f: spec_fn(A) -> Seq<u8>)
    ensures
        list_bytes(s.push(x), f) == list_bytes(s, f) + f(x),
    decreases s.len(),
{
    if s.len() == 0 {
        assert(s.push(x).drop_first() =~= Seq::<A>::empty());
        assert(list_bytes(Seq::<A>::empty(), f) == Seq::<u8>::empty());
        assert(s.push(x)[0] == x);
        assert(list_bytes(s.push(x), f) =~= list_bytes(s, f) + f(x));
    } else {
        assert(s.push(x).drop_first() =~= s.drop_first().push(x));
        lemma_list_push(s.drop_first(), x, f);
        assert(list_bytes(s.push(x), f) =~= list_bytes(s, f) + f(x));
    }
}

/// A list's bytes are those of its first `k` items, then those of the rest.
pub proof fn lemma_list_skip<A>(s: Seq<A>, f: spec_fn(A) -> Seq<u8>, k: int)
    requires
        0 <= k <= s.len(),
    ensures
        list_bytes(s, f) == list_bytes(s.take(k), f) + list_bytes(s.skip(k), f),
    decreases k,
{
    if k == 0 {
        assert(s.take(0) =~= Seq::<A>::empty());
        assert(s.skip(0) =~= s);
        assert(list_bytes(s, f) =~= list_bytes(s.take(k), f) + list_bytes(s.skip(k), f));
    } else {
        lemma_list_skip(s, f, k - 1);
        assert(s.skip(k - 1).drop_first() =~= s.skip(k));
        assert(s.take(k) =~= s.take(k - 1).push(s[k - 1]));
        lemma_list_push(s.take(k - 1), s[k - 1], f);
        assert(list_bytes(s, f) =~= list_bytes(s.take(k), f) + list_bytes(s.skip(k), f));
    }
}

/// The bytes from item `k` on: item `k`, then the rest.
pub proof fn lemma_list_next<A>(s: Seq<A>, f: spec_fn(A) -> Seq<u8>, k: int)
    requires
        0 <= k < s.len(),
    ensures
        list_bytes(s.skip(k), f) == f(s[k]) + list_bytes(s.skip(k + 1), f),
{
    assert(s.skip(k).drop_first() =~= s.skip(k + 1));
}

pub proof fn lemma_ids_len(s: Seq<WorkId>)
    ensures
        ids_bytes(s).len() == 16 * s.len(),
    decreases s.len(),
{
    if s.len() > 0 {
        lemma_ids_len(s.drop_first());
    }
}

/// The ids at position `p`, `count` of them, and where they end.
fn get_ids(b: &[u8], p: usize, count: u32) -> (r: Option<(Vec<WorkId>, usize)>)
    ensures
        r matches Some((v, q)) ==> v@.len() == count && q == p + ids_bytes(v@).len() && at(b@, p as int, ids_bytes(v@)),
        r matches Some((v, q)) ==> forall|s: Seq<WorkId>| s.len() == count && #[trigger] at(b@, p as int, ids_bytes(s)) ==> s == v@,
        r is None ==> forall|s: Seq<WorkId>| s.len() == count ==> !(#[trigger] at(b@, p as int, ids_bytes(s))),
{
    let ghost f = id_piece();
    let blen = b.len();
    if p > blen {
        return None;
    }
    let mut v: Vec<WorkId> = Vec::new();
    let mut pos = p;
    let mut k: u32 = 0;
    proof {
        assert(ids_bytes(v@) =~= Seq::<u8>::empty());
        assert(b@.subrange(p as int, p as int) =~= Seq::<u8>::empty());
        assert forall|s: Seq<WorkId>| s.len() == count && #[trigger] at(b@, p as int, ids_bytes(s)) implies s.take(0) == v@ by {
            assert(s.take(0) =~= v@);
        }
    }
    while k < count
        invariant
            f == id_piece(),
            k <= count,
            v@.len() == k,
            pos == p + ids_bytes(v@).len(),
            p <= pos <= b@.len(),
            at(b@, p as int, ids_bytes(v@)),
            forall|s: Seq<WorkId>| s.len() == count && #[trigger] at(b@, p as int, ids_bytes(s)) ==> s.take(k as int) == v@,
            blen == b@.len(),
        decreases count - k,
    {
        match get_id(b, pos) {
            Some(id) => {
                proof {
                    lemma_list_push(v@, id, f);
                    lemma_at_split(b@, p as int, ids_bytes(v@), id_bytes(id));
                    assert forall|s: Seq<WorkId>| s.len() == count && #[trigger] at(b@, p as int, ids_bytes(s)) implies s.take(k + 1) == v@.push(id) by {
                        lemma_list_skip(s, f, k as int);
                        lemma_at_split(b@, p as int, ids_bytes(s.take(k as int)), list_bytes(s.skip(k as int), f));
                        lemma_list_next(s, f, k as int);
                        lemma_at_split(b@, pos as int, id_bytes(s[k as int]), list_bytes(s.skip(k + 1), f));
                        assert(s.take(k + 1) =~= s.take(k as int).push(s[k as int]));
                    }
                }
                assert(id_bytes(id).len() == 16);
                v.push(id);
                pos = pos + 16;
                k = k + 1;
            },
            None => {
                proof {
                    assert forall|s: Seq<WorkId>| s.len() == count implies !(#[trigger] at(b@, p as int, ids_bytes(s))) by {
                        if at(b@, p as int, ids_bytes(s)) {
                            lemma_list_skip(s, f, k as int);
                            lemma_at_split(b@, p as int, ids_bytes(s.take(k as int)), list_bytes(s.skip(k as int), f));
                            lemma_list_next(s, f, k as int);
                            lemma_at_split(b@, pos as int, id_bytes(s[k as int]), list_bytes(s.skip(k + 1), f));
                        }
                    }
                }
                return None;
            },
        }
    }
    proof {
        assert forall|s: Seq<WorkId>| s.len() == count && #[trigger] at(b@, p as int, ids_bytes(s)) implies s == v@ by {
            assert(s.take(count as int) =~= s);
        }
    }
    Some((v, pos))
}

fn put_ids(buf: &mut Vec<u8>, ids: &Vec<WorkId>)
    ensures
        final(buf)@ == old(buf)@ + ids_bytes(ids@),
{
    let ghost f = id_piece();
    let mut i: usize = 0;
    proof {
        assert(ids@.take(0) =~= Seq::<WorkId>::empty());
        assert(buf@ =~= old(buf)@ + ids_bytes(ids@.take(0)));
    }
    while i < ids.len()
        invariant
            f == id_piece(),
            i <= ids@.len(),
            buf@ == old(buf)@ + ids_bytes(ids@.take(i as int)),
        decreases ids@.len() - i,
    {
        put_id(buf, ids[i]);
        proof {
            assert(ids@.take(i + 1) =~= ids@.take(i as int).push(ids@[i as int]));
            lemma_list_push(ids@.take(i as int), ids@[i as int], f);
            assert(buf@ =~= old(buf)@ + ids_bytes(ids@.take(i + 1)));
        }
        i = i + 1;
    }
    assert(ids@.take(ids@.len() as int) =~= ids@);
}

fn kind_byte(k: WorkKind) -> (r: u8)
    ensures
        r == kind_code(k),
{
    match k {
        WorkKind::Unset => 0,
        WorkKind::Goal => 1,
        WorkKind::Step => 2,
        WorkKind::Task => 3,
        WorkKind::Molecule => 4,
    }
}

fn status_byte(s: WorkStatus) -> (r: u8)
    ensures
        r == status_code(s),
{
    match s {
        WorkStatus::Todo => 0,
        WorkStatus::Ready => 1,
        WorkStatus::Claimed => 2,
        WorkStatus::Running => 3,
        WorkStatus::Blocked => 4,
        WorkStatus::Done => 5,
        WorkStatus::Failed => 6,
        WorkStatus::Cancelled => 7,
    }
}

fn role_byte(r: WorkRole) -> (c: u8)
    ensures
        c == role_code(r),
{
    match r {
        WorkRole::Unset => 0,
        WorkRole::Explore => 1,
        WorkRole::Architect => 2,
        WorkRole::Implementor => 3,
        WorkRole::Verifier => 4,
        WorkRole::Orchestrator => 5,
        WorkRole::General => 6,
    }
}

fn kind_of_byte(c: u8) -> (r: Option<WorkKind>)
    ensures
        r matches Some(k) ==> kind_code(k) == c,
        r is None ==> forall|k: WorkKind| kind_code(k) != c,
{
    match c {
        0 => Some(WorkKind::Unset),
        1 => Some(WorkKind::Goal),
        2 => Some(WorkKind::Step),
        3 => Some(WorkKind::Task),
        4 => Some(WorkKind::Molecule),
        _ => None,
    }
}

fn status_of_byte(c: u8) -> (r: Option<WorkStatus>)
    ensures
        r matches Some(s) ==> status_code(s) == c,
        r is None ==> forall|s: WorkStatus| status_code(s) != c,
{
    match c {
        0 => Some(WorkStatus::Todo),
        1 => Some(WorkStatus::Ready),
        2 => Some(WorkStatus::Claimed),
        3 => Some(WorkStatus::Running),
        4 => Some(WorkStatus::Blocked),
        5 => Some(WorkStatus::Done),
        6 => Some(WorkStatus::Failed),
        7 => Some(WorkStatus::Cancelled),
        _ => None,
    }
}

fn role_of_byte(c: u8) -> (r: Option<WorkRole>)
    ensures
        r matches Some(x) ==> role_code(x) == c,
        r is None ==> forall|x: WorkRole| role_code(x) != c,
{
    match c {
        0 => Some(WorkRole::Unset),
        1 => Some(WorkRole::Explore),
        2 => Some(WorkRole::Architect),
        3 => Some(WorkRole::Implementor),
        4 => Some(WorkRole::Verifier),
        5 => Some(WorkRole::Orchestrator),
        6 => Some(WorkRole::General),
        _ => None,
    }
}

/// The kind, status and role bytes at position `p`.
fn get_codes(b: &[u8], p: usize) -> (r: Option<(WorkKind, WorkStatus, WorkRole)>)
    ensures
        r matches Some((k, s, x)) ==> at(b@, p as int, seq![kind_code(k), status_code(s), role_code(x)]),
        r matches Some((k, s, x)) ==> forall|v: NodeView| #[trigger] at(b@, p as int, codes_bytes(v)) ==> v.kind == k && v.status == s && v.role == x,
        r is None ==> forall|v: NodeView| !(#[trigger] at(b@, p as int, codes_bytes(v))),
{
    if p > b.len() || b.len() - p < 3 {
        return None;
    }
    let k = kind_of_byte(b[p]);
    let s = status_of_byte(b[p + 1]);
    let x = role_of_byte(b[p + 2]);
    proof {
        assert forall|v: NodeView| #[trigger] at(b@, p as int, codes_bytes(v)) implies
            kind_code(v.kind) == b@[p as int] && status_code(v.status) == b@[p + 1] && role_code(v.role) == b@[p + 2] by {
            assert(b@.subrange(p as int, p + 3)[0] == b@[p as int]);
            assert(b@.subrange(p as int, p + 3)[1] == b@[p + 1]);
            assert(b@.subrange(p as int, p + 3)[2] == b@[p + 2]);
        }
    }
    match (k, s, x) {
        (Some(k), Some(s), Some(x)) => {
            proof {
                assert(b@.subrange(p as int, p + 3) =~= seq![kind_code(k), status_code(s), role_code(x)]);
            }
            Some((k, s, x))
        },
        _ => None,
    }
}

/// The archived flag at position `p`.
fn get_flag(b: &[u8], p: usize) -> (r: Option<bool>)
    ensures
        r matches Some(x) ==> at(b@, p as int, flag_byte(x)),
        r matches Some(x) ==> forall|y: bool| #[trigger] at(b@, p as int, flag_byte(y)) ==> y == x,
        r is None ==> forall|y: bool| !(#[trigger] at(b@, p as int, flag_byte(y))),
{
    if p >= b.len() {
        return None;
    }
    let c = b[p];
    proof {
        assert forall|y: bool| #[trigger] at(b@, p as int, flag_byte(y)) implies c == (if y { 1u8 } else { 0u8 }) by {
            assert(b@.subrange(p as int, p + 1)[0] == c);
        }
    }
    if c == 0 {
        assert(b@.subrange(p as int, p + 1) =~= flag_byte(false));
        Some(false)
    } else if c == 1 {
        assert(b@.subrange(p as int, p + 1) =~= flag_byte(true));
        Some(true)
    } else {
        None
    }
}

/// Where each part of node `v` stands when the node stands at `p`.
pub open spec fn node_parts_at(b: Seq<u8>, p: int, v: NodeView) -> bool {
    let o1 = p + 16;
    let o2 = o1 + 3;
    let o3 = o2 + 16;
    let o4 = o3 + 16;
    let o5 = o4 + 4;
    let o6 = o5 + ids_bytes(v.deps).len();
    let o7 = o6 + 8;
    let o8 = o7 + 8;
    let o9 = o8 + 8;
    let o10 = o9 + 8;
    let o11 = o10 + text_bytes(v.summary).len();
    &&& at(b, p, id_bytes(v.id))
    &&& at(b, o1, codes_bytes(v))
    &&& at(b, o2, id_bytes(v.assignee))
    &&& at(b, o3, id_bytes(v.parent))
    &&& at(b, o4, le32(v.deps.len() as u32))
    &&& at(b, o5, ids_bytes(v.deps))
    &&& at(b, o6, le_bytes(v.cas_gen))
    &&& at(b, o7, le_bytes(v.created_unix))
    &&& at(b, o8, le_bytes(v.updated_unix))
    &&& at(b, o9, le_bytes(v.finished_unix))
    &&& at(b, o10, text_bytes(v.summary))
    &&& at(b, o11, flag_byte(v.archived))
}

/// A node stands at `p` exactly when each of its parts stands in its place.
pub proof fn lemma_node_at(b: Seq<u8>, p: int, v: NodeView)
    ensures
        at(b, p, node_bytes(v)) <==> node_parts_at(b, p, v),
        node_bytes(v).len() == 16 + 3 + 16 + 16 + 4 + ids_bytes(v.deps).len() + 32 + text_bytes(v.summary).len() + 1,
{
    let o1 = p + 16;
    let o2 = o1 + 3;
    let o3 = o2 + 16;
    let o4 = o3 + 16;
    let o5 = o4 + 4;
    let o6 = o5 + ids_bytes(v.deps).len();
    let o7 = o6 + 8;
    let o8 = o7 + 8;
    let o9 = o8 + 8;
    let o10 = o9 + 8;
    let o11 = o10 + text_bytes(v.summary).len();
    let r10 = text_bytes(v.summary) + flag_byte(v.archived);
    let r9 = le_bytes(v.finished_unix) + r10;
    let r8 = le_bytes(v.updated_unix) + r9;
    let r7 = le_bytes(v.created_unix) + r8;
    let r6 = le_bytes(v.cas_gen) + r7;
    let r5 = ids_bytes(v.deps) + r6;
    let r4 = le32(v.deps.len() as u32) + r5;
    let r3 = id_bytes(v.parent) + r4;
    let r2 = id_bytes(v.assignee) + r3;
    let r1 = codes_bytes(v) + r2;
    assert(node_bytes(v) == id_bytes(v.id) + r1);
    lemma_at_split(b, p, id_bytes(v.id), r1);
    lemma_at_split(b, o1, codes_bytes(v), r2);
    lemma_at_split(b, o2, id_bytes(v.assignee), r3);
    lemma_at_split(b, o3, id_bytes(v.parent), r4);
    lemma_at_split(b, o4, le32(v.deps.len() as u32), r5);
    lemma_at_split(b, o5, ids_bytes(v.deps), r6);
    lemma_at_split(b, o6, le_bytes(v.cas_gen), r7);
    lemma_at_split(b, o7, le_bytes(v.created_unix), r8);
    lemma_at_split(b, o8, le_bytes(v.updated_unix), r9);
    lemma_at_split(b, o9, le_bytes(v.finished_unix), r10);
    lemma_at_split(b, o10, text_bytes(v.summary), flag_byte(v.archived));
}

/// The node at position `p` and where it ends, if a node stands there.
#[verifier::spinoff_prover]
#[verifier::rlimit(60)]
fn get_node(b: &[u8], p: usize) -> (r: Option<(WorkNode, usize)>)
    ensures
        r matches Some((n, q)) ==> q == p + node_bytes(n@).len() && at(b@, p as int, node_bytes(n@)) && node_fits(n@),
        r matches Some((n, q)) ==> forall|v: NodeView| node_fits(v) && #[trigger] at(b@, p as int, node_bytes(v)) ==> v == n@,
        r is None ==> forall|v: NodeView| node_fits(v) ==> !(#[trigger] at(b@, p as int, node_bytes(v))),
{
    let blen = b.len();
    let id = match get_id(b, p) {
        Some(x) => x,
        None => {
            proof {
                    assert forall|v: NodeView| node_fits(v) implies !(#[trigger] at(b@, p as int, node_bytes(v))) by {
                        lemma_node_at(b@, p as int, v);
                    }
                }
                return None;
        },
    };
    assert(id_bytes(id).len() == 16);
    let p1 = p + 16;
    let (kind, status, role) = match get_codes(b, p1) {
        Some(x) => x,
        None => {
            proof {
                    assert forall|v: NodeView| node_fits(v) implies !(#[trigger] at(b@, p as int, node_bytes(v))) by {
                        lemma_node_at(b@, p as int, v);
                    }
                }
                return None;
        },
    };
    let p2 = p1 + 3;
    let assignee = match get_id(b, p2) {
        Some(x) => x,
        None => {
            proof {
                    assert forall|v: NodeView| node_fits(v) implies !(#[trigger] at(b@, p as int, node_bytes(v))) by {
                        lemma_node_at(b@, p as int, v);
                    }
                }
                return None;
        },
    };
    assert(id_bytes(assignee).len() == 16);
    let p3 = p2 + 16;
    let parent = match get_id(b, p3) {
        Some(x) => x,
        None => {
            proof {
                    assert forall|v: NodeView| node_fits(v) implies !(#[trigger] at(b@, p as int, node_bytes(v))) by {
                        lemma_node_at(b@, p as int, v);
                    }
                }
                return None;
        },
    };
    assert(id_bytes(parent).len() == 16);
    let p4 = p3 + 16;
    let count = match get_u32(b, p4) {
        Some(x) => x,
        None => {
            proof {
                    assert forall|v: NodeView| node_fits(v) implies !(#[trigger] at(b@, p as int, node_bytes(v))) by {
                        lemma_node_at(b@, p as int, v);
                    }
                }
                return None;
        },
    };
    assert(le32(count).len() == 4);
    let p5 = p4 + 4;
    let (deps, p6) = match get_ids(b, p5, count) {
        Some(x) => x,
        None => {
            proof {
                    assert forall|v: NodeView| node_fits(v) implies !(#[trigger] at(b@, p as int, node_bytes(v))) by {
                        lemma_node_at(b@, p as int, v);
                    }
                }
                return None;
        },
    };
    let cas_gen = match get_u64(b, p6) {
        Some(x) => x,
        None => {
            proof {
                    assert forall|v: NodeView| node_fits(v) implies !(#[trigger] at(b@, p as int, node_bytes(v))) by {
                        lemma_node_at(b@, p as int, v);
                    }
                }
                return None;
        },
    };
    assert(le_bytes(cas_gen).len() == 8);
    let p7 = p6 + 8;
    let created_unix = match get_u64(b, p7) {
        Some(x) => x,
        None => {
            proof {
                    assert forall|v: NodeView| node_fits(v) implies !(#[trigger] at(b@, p as int, node_bytes(v))) by {
                        lemma_node_at(b@, p as int, v);
                    }
                }
                return None;
        },
    };
    assert(le_bytes(created_unix).len() == 8);
    let p8 = p7 + 8;
    let updated_unix = match get_u64(b, p8) {
        Some(x) => x,
        None => {
            proof {
                    assert forall|v: NodeView| node_fits(v) implies !(#[trigger] at(b@, p as int, node_bytes(v))) by {
                        lemma_node_at(b@, p as int, v);
                    }
                }
                return None;
        },
    };
    assert(le_bytes(updated_unix).len() == 8);
    let p9 = p8 + 8;
    let finished_unix = match get_u64(b, p9) {
        Some(x) => x,
        None => {
            proof {
                    assert forall|v: NodeView| node_fits(v) implies !(#[trigger] at(b@, p as int, node_bytes(v))) by {
                        lemma_node_at(b@, p as int, v);
                    }
                }
                return None;
        },
    };
    assert(le_bytes(finished_unix).len() == 8);
    let p10 = p9 + 8;
    let (summary, p11) = match get_text(b, p10) {
        Some(x) => x,
        None => {
            proof {
                    assert forall|v: NodeView| node_fits(v) implies !(#[trigger] at(b@, p as int, node_bytes(v))) by {
                        lemma_node_at(b@, p as int, v);
                    }
                }
                return None;
        },
    };
    let archived = match get_flag(b, p11) {
        Some(x) => x,
        None => {
            proof {
                    assert forall|v: NodeView| node_fits(v) implies !(#[trigger] at(b@, p as int, node_bytes(v))) by {
                        lemma_node_at(b@, p as int, v);
                    }
                }
                return None;
        },
    };
    assert(flag_byte(archived).len() == 1);
    let q = p11 + 1;
    let n = WorkNode {
        id,
        kind,
        status,
        role,
        assignee,
        parent,
        deps,
        cas_gen,
        created_unix,
        updated_unix,
        finished_unix,
        summary,
        archived,
    };
    proof {
        assert(codes_bytes(n@) == seq![kind_code(kind), status_code(status), role_code(role)]);
        lemma_node_at(b@, p as int, n@);
        assert(node_parts_at(b@, p as int, n@));
        assert forall|v: NodeView| node_fits(v) && #[trigger] at(b@, p as int, node_bytes(v)) implies v == n@ by {
            lemma_node_at(b@, p as int, v);
            assert(v.deps.len() == count);
            assert(v.deps == deps@);
            assert(v.summary == summary@);
        }
    }
    Some((n, q))
}

#[verifier::spinoff_prover]
#[verifier::rlimit(40)]
fn put_node(buf: &mut Vec<u8>, n: &WorkNode)
    requires
        node_fits(n@),
    ensures
        final(buf)@ == old(buf)@ + node_bytes(n@),
{
    let mut nb: Vec<u8> = Vec::new();
    put_id(&mut nb, n.id);
    let codes = [kind_byte(n.kind), status_byte(n.status), role_byte(n.role)];
    assert(codes@ =~= codes_bytes(n@));
    append_bytes(&mut nb, codes.as_slice());
    put_id(&mut nb, n.assignee);
    put_id(&mut nb, n.parent);
    put_u32(&mut nb, n.deps.len() as u32);
    put_ids(&mut nb, &n.deps);
    put_u64(&mut nb, n.cas_gen);
    put_u64(&mut nb, n.created_unix);
    put_u64(&mut nb, n.updated_unix);
    put_u64(&mut nb, n.finished_unix);
    put_text(&mut nb, n.summary.as_str());
    let flag = [if n.archived { 1u8 } else { 0u8 }];
    assert(flag@ =~= flag_byte(n.archived));
    append_bytes(&mut nb, flag.as_slice());
    assert(nb@ =~= node_bytes(n@));
    append_bytes(buf, nb.as_slice());
}

/// Every node of the list fits the format.
pub open spec fn all_fit(s: Seq<NodeView>) -> bool {
    forall|i: int| 0 <= i < s.len() ==> node_fits(#[trigger] s[i])
}

/// The nodes at position `p`, `count` of them, and where they end.
fn get_nodes(b: &[u8], p: usize, count: u32) -> (r: Option<(Vec<WorkNode>, usize)>)
    ensures
        r matches Some((v, q)) ==> views(v@).len() == count && q == p + nodes_bytes(views(v@)).len()
            && at(b@, p as int, nodes_bytes(views(v@))) && all_fit(views(v@)),
        r matches Some((v, q)) ==> forall|s: Seq<NodeView>| s.len() == count && all_fit(s) && #[trigger] at(b@, p as int, nodes_bytes(s)) ==> s == views(v@),
        r is None ==> forall|s: Seq<NodeView>| s.len() == count && all_fit(s) ==> !(#[trigger] at(b@, p as int, nodes_bytes(s))),
{
    let ghost f = node_piece();
    let blen = b.len();
    if p > blen {
        return None;
    }
    let mut v: Vec<WorkNode> = Vec::new();
    let mut pos = p;
    let mut k: u32 = 0;
    proof {
        assert(views(v@) =~= Seq::<NodeView>::empty());
        assert(nodes_bytes(views(v@)) =~= Seq::<u8>::empty());
        assert(b@.subrange(p as int, p as int) =~= Seq::<u8>::empty());
        assert forall|s: Seq<NodeView>| s.len() == count && all_fit(s) && #[trigger] at(b@, p as int, nodes_bytes(s)) implies s.take(0) == views(v@) by {
            assert(s.take(0) =~= views(v@));
        }
    }
    while k < count
        invariant
            f == node_piece(),
            blen == b@.len(),
            k <= count,
            views(v@).len() == k,
            pos == p + nodes_bytes(views(v@)).len(),
            p <= pos <= b@.len(),
            at(b@, p as int, nodes_bytes(views(v@))),
            all_fit(views(v@)),
            forall|s: Seq<NodeView>| s.len() == count && all_fit(s) && #[trigger] at(b@, p as int, nodes_bytes(s)) ==> s.take(k as int) == views(v@),
        decreases count - k,
    {
        match get_node(b, pos) {
            Some((n, q)) => {
                proof {
                    lemma_views_push(v@, n);
                    lemma_list_push(views(v@), n@, f);
                    lemma_at_split(b@, p as int, nodes_bytes(views(v@)), node_bytes(n@));
                    assert forall|s: Seq<NodeView>| s.len() == count && all_fit(s) && #[trigger] at(b@, p as int, nodes_bytes(s)) implies s.take(k + 1) == views(v@).push(n@) by {
                        lemma_list_skip(s, f, k as int);
                        lemma_at_split(b@, p as int, nodes_bytes(s.take(k as int)), list_bytes(s.skip(k as int), f));
                        lemma_list_next(s, f, k as int);
                        lemma_at_split(b@, pos as int, node_bytes(s[k as int]), list_bytes(s.skip(k + 1), f));
                        assert(node_fits(s[k as int]));
                        assert(s.take(k + 1) =~= s.take(k as int).push(s[k as int]));
                    }
                    assert(all_fit(views(v@).push(n@))) by {
                        assert forall|i: int| 0 <= i < views(v@).push(n@).len() implies node_fits(#[trigger] views(v@).push(n@)[i]) by {
                            if i < views(v@).len() {
                                assert(views(v@).push(n@)[i] == views(v@)[i]);
                            }
                        }
                    }
                }
                v.push(n);
                pos = q;
                k = k + 1;
            },
            None => {
                proof {
                    assert forall|s: Seq<NodeView>| s.len() == count && all_fit(s) implies !(#[trigger] at(b@, p as int, nodes_bytes(s))) by {
                        if at(b@, p as int, nodes_bytes(s)) {
                            lemma_list_skip(s, f, k as int);
                            lemma_at_split(b@, p as int, nodes_bytes(s.take(k as int)), list_bytes(s.skip(k as int), f));
                            lemma_list_next(s, f, k as int);
                            lemma_at_split(b@, pos as int, node_bytes(s[k as int]), list_bytes(s.skip(k + 1), f));
                            assert(node_fits(s[k as int]));
                        }
                    }
                }
                return None;
            },
        }
    }
    proof {
        assert forall|s: Seq<NodeView>| s.len() == count && all_fit(s) && #[trigger] at(b@, p as int, nodes_bytes(s)) implies s == views(v@) by {
            assert(s.take(count as int) =~= s);
        }
    }
    Some((v, pos))
}

/// The node values of a list of node references.
pub open spec fn ref_views<'a>(s: Seq<&'a WorkNode>) -> Seq<NodeView> {
    s.map_values(|n: &'a WorkNode| n@)
}

/// A decoded snapshot.
pub struct Snapshot {
    pub format: String,
    pub next_seq: u64,
    pub mint_seq: u64,
    pub nodes: Vec<WorkNode>,
}

/// A snapshot the format can carry.
pub open spec fn snapshot_fits(format: Seq<char>, ns: Seq<NodeView>) -> bool {
    &&& text_fits(format)
    &&& ns.len() <= u32::MAX
    &&& all_fit(ns)
}

/// The bytes of a snapshot of these counters and nodes, under format name `format`.
pub fn encode_snapshot(format: &str, next_seq: u64, mint_seq: u64, nodes: &Vec<&WorkNode>) -> (r: Vec<u8>)
    requires
        snapshot_fits(format@, ref_views(nodes@)),
    ensures
        r@ == snapshot_bytes(format@, next_seq, mint_seq, ref_views(nodes@)),
{
    let ghost f = node_piece();
    let mut out: Vec<u8> = Vec::new();
    put_text(&mut out, format);
    put_u64(&mut out, next_seq);
    put_u64(&mut out, mint_seq);
    put_u32(&mut out, nodes.len() as u32);
    let ghost head = out@;
    let mut i: usize = 0;
    proof {
        assert(ref_views(nodes@).take(0) =~= Seq::<NodeView>::empty());
        assert(out@ =~= head + nodes_bytes(ref_views(nodes@).take(0)));
    }
    while i < nodes.len()
        invariant
            f == node_piece(),
            snapshot_fits(format@, ref_views(nodes@)),
            i <= nodes@.len(),
            out@ == head + nodes_bytes(ref_views(nodes@).take(i as int)),
        decreases nodes@.len() - i,
    {
        let n: &WorkNode = nodes[i];
        assert(ref_views(nodes@)[i as int] == n@);
        assert(node_fits(ref_views(nodes@)[i as int]));
        put_node(&mut out, n);
        proof {
            assert(ref_views(nodes@).take(i + 1) =~= ref_views(nodes@).take(i as int).push(n@));
            lemma_list_push(ref_views(nodes@).take(i as int), n@, f);
            assert(out@ =~= head + nodes_bytes(ref_views(nodes@).take(i + 1)));
        }
        i = i + 1;
    }
    proof {
        assert(ref_views(nodes@).take(nodes@.len() as int) =~= ref_views(nodes@));
        assert(out@ =~= snapshot_bytes(format@, next_seq, mint_seq, ref_views(nodes@)));
    }
    out
}

/// What decoding answers for bytes that are no snapshot.
pub open spec fn not_a_snapshot() -> Seq<char> {
    "work.bin: not a claimdag snapshot"@
}

/// Read a snapshot back. Succeeds exactly on the bytes that some snapshot
/// encodes to, and gives back that snapshot.
pub fn decode_snapshot(b: &[u8]) -> (r: Result<Snapshot, String>)
    ensures
        r matches Ok(s) ==> snapshot_fits(s.format@, views(s.nodes@))
            && b@ == snapshot_bytes(s.format@, s.next_seq, s.mint_seq, views(s.nodes@)),
        r matches Ok(s) ==> forall|f: Seq<char>, a: u64, c: u64, ns: Seq<NodeView>|
            snapshot_fits(f, ns) && b@ == #[trigger] snapshot_bytes(f, a, c, ns)
                ==> f == s.format@ && a == s.next_seq && c == s.mint_seq && ns == views(s.nodes@),
        r matches Err(e) ==> e@ == not_a_snapshot(),
        r is Err ==> forall|f: Seq<char>, a: u64, c: u64, ns: Seq<NodeView>|
            snapshot_fits(f, ns) ==> b@ != #[trigger] snapshot_bytes(f, a, c, ns),
{
    let blen = b.len();
    let ghost no = forall|f: Seq<char>, a: u64, c: u64, ns: Seq<NodeView>|
            snapshot_fits(f, ns) ==> b@ != #[trigger] snapshot_bytes(f, a, c, ns);
    let (format, p1) = match get_text(b, 0) {
        Some(x) => x,
        None => {
            proof {
                assert forall|f: Seq<char>, a: u64, c: u64, ns: Seq<NodeView>| snapshot_fits(f, ns) implies b@ != #[trigger] snapshot_bytes(f, a, c, ns) by {
                    if b@ == snapshot_bytes(f, a, c, ns) {
                        lemma_snapshot_at(b@, f, a, c, ns);
                    }
                }
            }
            return Err("work.bin: not a claimdag snapshot".to_string());
        },
    };
    let next_seq = match get_u64(b, p1) {
        Some(x) => x,
        None => {
            proof {
                assert forall|f: Seq<char>, a: u64, c: u64, ns: Seq<NodeView>| snapshot_fits(f, ns) implies b@ != #[trigger] snapshot_bytes(f, a, c, ns) by {
                    if b@ == snapshot_bytes(f, a, c, ns) {
                        lemma_snapshot_at(b@, f, a, c, ns);
                    }
                }
            }
            return Err("work.bin: not a claimdag snapshot".to_string());
        },
    };
    assert(le_bytes(next_seq).len() == 8);
    let p2 = p1 + 8;
    let mint_seq = match get_u64(b, p2) {
        Some(x) => x,
        None => {
            proof {
                assert forall|f: Seq<char>, a: u64, c: u64, ns: Seq<NodeView>| snapshot_fits(f, ns) implies b@ != #[trigger] snapshot_bytes(f, a, c, ns) by {
                    if b@ == snapshot_bytes(f, a, c, ns) {
                        lemma_snapshot_at(b@, f, a, c, ns);
                    }
                }
            }
            return Err("work.bin: not a claimdag snapshot".to_string());
        },
    };
    assert(le_bytes(mint_seq).len() == 8);
    let p3 = p2 + 8;
    let count = match get_u32(b, p3) {
        Some(x) => x,
        None => {
            proof {
                assert forall|f: Seq<char>, a: u64, c: u64, ns: Seq<NodeView>| snapshot_fits(f, ns) implies b@ != #[trigger] snapshot_bytes(f, a, c, ns) by {
                    if b@ == snapshot_bytes(f, a, c, ns) {
                        lemma_snapshot_at(b@, f, a, c, ns);
                    }
                }
            }
            return Err("work.bin: not a claimdag snapshot".to_string());
        },
    };
    assert(le32(count).len() == 4);
    let p4 = p3 + 4;
    let (nodes, q) = match get_nodes(b, p4, count) {
        Some(x) => x,
        None => {
            proof {
                assert forall|f: Seq<char>, a: u64, c: u64, ns: Seq<NodeView>| snapshot_fits(f, ns) implies b@ != #[trigger] snapshot_bytes(f, a, c, ns) by {
                    if b@ == snapshot_bytes(f, a, c, ns) {
                        lemma_snapshot_at(b@, f, a, c, ns);
                        assert(ns.len() == count);
                    }
                }
            }
            return Err("work.bin: not a claimdag snapshot".to_string());
        },
    };
    if q != blen {
        proof {
            assert forall|f: Seq<char>, a: u64, c: u64, ns: Seq<NodeView>| snapshot_fits(f, ns) implies b@ != #[trigger] snapshot_bytes(f, a, c, ns) by {
                if b@ == snapshot_bytes(f, a, c, ns) {
                    lemma_snapshot_at(b@, f, a, c, ns);
                    assert(ns.len() == count);
                    assert(ns == views(nodes@));
                }
            }
        }
        return Err("work.bin: not a claimdag snapshot".to_string());
    }
    let s = Snapshot { format, next_seq, mint_seq, nodes };
    proof {
        lemma_snapshot_at(b@, s.format@, next_seq, mint_seq, views(s.nodes@));
        assert(b@ =~= b@.subrange(0, b@.len() as int));
        assert forall|f: Seq<char>, a: u64, c: u64, ns: Seq<NodeView>|
            snapshot_fits(f, ns) && b@ == #[trigger] snapshot_bytes(f, a, c, ns)
                implies f == s.format@ && a == s.next_seq && c == s.mint_seq && ns == views(s.nodes@) by {
            lemma_snapshot_at(b@, f, a, c, ns);
            assert(ns.len() == count);
        }
    }
    Ok(s)
}

/// Where each part of a snapshot stands, when `b` is that snapshot.
pub open spec fn snapshot_parts_at(b: Seq<u8>, f: Seq<char>, a: u64, c: u64, ns: Seq<NodeView>) -> bool {
    let o1 = text_bytes(f).len() as int;
    &&& at(b, 0, text_bytes(f))
    &&& at(b, o1, le_bytes(a))
    &&& at(b, o1 + 8, le_bytes(c))
    &&& at(b, o1 + 16, le32(ns.len() as u32))
    &&& at(b, o1 + 20, nodes_bytes(ns))
    &&& b.len() == o1 + 20 + nodes_bytes(ns).len()
}

pub proof fn lemma_snapshot_at(b: Seq<u8>, f: Seq<char>, a: u64, c: u64, ns: Seq<NodeView>)
    ensures
        b == snapshot_bytes(f, a, c, ns) <==> snapshot_parts_at(b, f, a, c, ns),
{
    let o1 = text_bytes(f).len() as int;
    let r3 = le32(ns.len() as u32) + nodes_bytes(ns);
    let r2 = le_bytes(c) + r3;
    let r1 = le_bytes(a) + r2;
    let whole = text_bytes(f) + r1;
    assert(snapshot_bytes(f, a, c, ns) == whole);
    lemma_at_split(b, 0, text_bytes(f), r1);
    lemma_at_split(b, o1, le_bytes(a), r2);
    lemma_at_split(b, o1 + 8, le_bytes(c), r3);
    lemma_at_split(b, o1 + 16, le32(ns.len() as u32), nodes_bytes(ns));
    if b == whole {
        assert(b.subrange(0, whole.len() as int) =~= whole);
    }
    if at(b, 0, whole) && b.len() == whole.len() {
        assert(b =~= b.subrange(0, whole.len() as int));
    }
}

/// Two pieces of one length at one place are the same.
pub proof fn lemma_at_same(b: Seq<u8>, p: int, x: Seq<u8>, y: Seq<u8>)
    requires
        at(b, p, x),
        at(b, p, y),
        x.len() == y.len(),
    ensures
        x == y,
{
}

proof fn lemma_id_unique(b: Seq<u8>, p: int, x: WorkId, y: WorkId)
    requires
        at(b, p, id_bytes(x)),
        at(b, p, id_bytes(y)),
    ensures
        x == y,
{
    lemma_at_split(b, p, le_bytes(x.hi), le_bytes(x.lo));
    lemma_at_split(b, p, le_bytes(y.hi), le_bytes(y.lo));
    lemma_at_same(b, p, le_bytes(x.hi), le_bytes(y.hi));
    lemma_at_same(b, p + 8, le_bytes(x.lo), le_bytes(y.lo));
    lemma_le64_unique(x.hi, y.hi);
    lemma_le64_unique(x.lo, y.lo);
}

proof fn lemma_text_unique(b: Seq<u8>, p: int, t1: Seq<char>, t2: Seq<char>)
    requires
        text_fits(t1),
        text_fits(t2),
        at(b, p, text_bytes(t1)),
        at(b, p, text_bytes(t2)),
    ensures
        t1 == t2,
{
    lemma_at_split(b, p, le32(encode_utf8(t1).len() as u32), encode_utf8(t1));
    lemma_at_split(b, p, le32(encode_utf8(t2).len() as u32), encode_utf8(t2));
    lemma_at_same(b, p, le32(encode_utf8(t1).len() as u32), le32(encode_utf8(t2).len() as u32));
    lemma_le32_unique(encode_utf8(t1).len() as u32, encode_utf8(t2).len() as u32);
    lemma_at_same(b, p + 4, encode_utf8(t1), encode_utf8(t2));
    vstd::utf8::encode_utf8_decode_utf8(t1);
    vstd::utf8::encode_utf8_decode_utf8(t2);
}

proof fn lemma_ids_unique(b: Seq<u8>, p: int, s1: Seq<WorkId>, s2: Seq<WorkId>)
    requires
        s1.len() == s2.len(),
        at(b, p, ids_bytes(s1)),
        at(b, p, ids_bytes(s2)),
    ensures
        s1 == s2,
    decreases s1.len(),
{
    if s1.len() > 0 {
        lemma_at_split(b, p, id_bytes(s1[0]), ids_bytes(s1.drop_first()));
        lemma_at_split(b, p, id_bytes(s2[0]), ids_bytes(s2.drop_first()));
        lemma_id_unique(b, p, s1[0], s2[0]);
        lemma_ids_unique(b, p + 16, s1.drop_first(), s2.drop_first());
        assert(s1 =~= s2) by {
            assert forall|i: int| 0 <= i < s1.len() implies s1[i] == s2[i] by {
                if i > 0 {
                    assert(s1[i] == s1.drop_first()[i - 1]);
                    assert(s2[i] == s2.drop_first()[i - 1]);
                }
            }
        }
    } else {
        assert(s1 =~= s2);
    }
}

/// One place holds at most one node.
pub proof fn lemma_node_unique(b: Seq<u8>, p: int, v1: NodeView, v2: NodeView)
    requires
        node_fits(v1),
        node_fits(v2),
        at(b, p, node_bytes(v1)),
        at(b, p, node_bytes(v2)),
    ensures
        v1 == v2,
        node_bytes(v1).len() == node_bytes(v2).len(),
{
    lemma_node_at(b, p, v1);
    lemma_node_at(b, p, v2);
    lemma_id_unique(b, p, v1.id, v2.id);
    lemma_at_same(b, p + 16, codes_bytes(v1), codes_bytes(v2));
    assert(codes_bytes(v1)[0] == codes_bytes(v2)[0]);
    assert(codes_bytes(v1)[1] == codes_bytes(v2)[1]);
    assert(codes_bytes(v1)[2] == codes_bytes(v2)[2]);
    lemma_id_unique(b, p + 19, v1.assignee, v2.assignee);
    lemma_id_unique(b, p + 35, v1.parent, v2.parent);
    lemma_at_same(b, p + 51, le32(v1.deps.len() as u32), le32(v2.deps.len() as u32));
    lemma_le32_unique(v1.deps.len() as u32, v2.deps.len() as u32);
    lemma_ids_unique(b, p + 55, v1.deps, v2.deps);
    let o6 = p + 55 + ids_bytes(v1.deps).len();
    lemma_at_same(b, o6, le_bytes(v1.cas_gen), le_bytes(v2.cas_gen));
    lemma_le64_unique(v1.cas_gen, v2.cas_gen);
    lemma_at_same(b, o6 + 8, le_bytes(v1.created_unix), le_bytes(v2.created_unix));
    lemma_le64_unique(v1.created_unix, v2.created_unix);
    lemma_at_same(b, o6 + 16, le_bytes(v1.updated_unix), le_bytes(v2.updated_unix));
    lemma_le64_unique(v1.updated_unix, v2.updated_unix);
    lemma_at_same(b, o6 + 24, le_bytes(v1.finished_unix), le_bytes(v2.finished_unix));
    lemma_le64_unique(v1.finished_unix, v2.finished_unix);
    lemma_text_unique(b, o6 + 32, v1.summary, v2.summary);
    let o11 = o6 + 32 + text_bytes(v1.summary).len();
    lemma_at_same(b, o11, flag_byte(v1.archived), flag_byte(v2.archived));
    assert(flag_byte(v1.archived)[0] == flag_byte(v2.archived)[0]);
}

proof fn lemma_nodes_unique(b: Seq<u8>, p: int, s1: Seq<NodeView>, s2: Seq<NodeView>)
    requires
        s1.len() == s2.len(),
        all_fit(s1),
        all_fit(s2),
        at(b, p, nodes_bytes(s1)),
        at(b, p, nodes_bytes(s2)),
    ensures
        s1 == s2,
    decreases s1.len(),
{
    if s1.len() > 0 {
        lemma_at_split(b, p, node_bytes(s1[0]), nodes_bytes(s1.drop_first()));
        lemma_at_split(b, p, node_bytes(s2[0]), nodes_bytes(s2.drop_first()));
        assert(node_fits(s1[0]) && node_fits(s2[0]));
        lemma_node_unique(b, p, s1[0], s2[0]);
        assert(all_fit(s1.drop_first())) by {
            assert forall|i: int| 0 <= i < s1.drop_first().len() implies node_fits(#[trigger] s1.drop_first()[i]) by {
                assert(node_fits(s1[i + 1]));
            }
        }
        assert(all_fit(s2.drop_first())) by {
            assert forall|i: int| 0 <= i < s2.drop_first().len() implies node_fits(#[trigger] s2.drop_first()[i]) by {
                assert(node_fits(s2[i + 1]));
            }
        }
        lemma_nodes_unique(b, p + node_bytes(s1[0]).len(), s1.drop_first(), s2.drop_first());
        assert(s1 =~= s2) by {
            assert forall|i: int| 0 <= i < s1.len() implies s1[i] == s2[i] by {
                if i > 0 {
                    assert(s1[i] == s1.drop_first()[i - 1]);
                    assert(s2[i] == s2.drop_first()[i - 1]);
                }
            }
        }
    } else {
        assert(s1 =~= s2);
    }
}

/// Different snapshots are different bytes: what was written is what is
/// read back.
pub proof fn lemma_snapshot_unique(f1: Seq<char>, a1: u64, c1: u64, ns1: Seq<NodeView>, f2: Seq<char>, a2: u64, c2: u64, ns2: Seq<NodeView>)
    requires
        snapshot_fits(f1, ns1),
        snapshot_fits(f2, ns2),
        snapshot_bytes(f1, a1, c1, ns1) == snapshot_bytes(f2, a2, c2, ns2),
    ensures
        f1 == f2,
        a1 == a2,
        c1 == c2,
        ns1 == ns2,
{
    let b = snapshot_bytes(f1, a1, c1, ns1);
    lemma_snapshot_at(b, f1, a1, c1, ns1);
    lemma_snapshot_at(b, f2, a2, c2, ns2);
    lemma_text_unique(b, 0, f1, f2);
    let o1 = text_bytes(f1).len() as int;
    lemma_at_same(b, o1, le_bytes(a1), le_bytes(a2));
    lemma_le64_unique(a1, a2);
    lemma_at_same(b, o1 + 8, le_bytes(c1), le_bytes(c2));
    lemma_le64_unique(c1, c2);
    lemma_at_same(b, o1 + 16, le32(ns1.len() as u32), le32(ns2.len() as u32));
    lemma_le32_unique(ns1.len() as u32, ns2.len() as u32);
    lemma_nodes_unique(b, o1 + 20, ns1, ns2);
}

} // verus!
