use claimdag::snap::{decode_snapshot, encode_snapshot};
use claimdag::{mint_work_id, WorkFields, WorkGraph, WorkId, WorkKind, WorkNode, WorkRole, WorkStatus, SNAP_BIN, SNAP_JSON_V0};

#[test]
fn an_id_reads_back_from_its_hex() {
    let id = WorkId { hi: 0x0123456789abcdef, lo: 0xfedcba9876543210 };
    assert_eq!(id.to_hex(), "0123456789abcdeffedcba9876543210");
    assert_eq!(WorkId::from_hex(&id.to_hex()), Some(id));
    assert_eq!(WorkId::from_hex("  0123456789abcdeffedcba9876543210\n"), Some(id));
    assert_eq!(WorkId::from_hex("0123456789ABCDEFFEDCBA9876543210"), Some(id));
    assert_eq!(WorkId::from_hex("0123"), None);
    assert_eq!(WorkId::from_hex("0123456789abcdefxedcba9876543210"), None);
    assert_eq!(WorkId::from_hex("+123456789abcdeffedcba9876543210"), None);
    assert_eq!(WorkId::from_hex("+000000000000000+000000000000000"), None);
    assert_eq!(WorkId::from_hex("-123456789abcdeffedcba9876543210"), None);
    // Thirty-two bytes whose sixteenth splits a character: no id, no fault.
    let split = format!("{}é{}", "0".repeat(15), "0".repeat(15));
    assert_eq!(split.len(), 32);
    assert_eq!(WorkId::from_hex(&split), None);
    assert!(WorkId::zero().is_zero());
    assert_eq!(WorkId::zero().to_hex(), "00000000000000000000000000000000");
}

#[test]
fn an_id_is_a_big_endian_u128() {
    let id = WorkId { hi: 1, lo: 2 };
    assert_eq!(id.to_u128(), (1u128 << 64) | 2);
    assert_eq!(WorkId::from_u128((1u128 << 64) | 2), id);
    let b = id.to_be_bytes();
    assert_eq!(b[7], 1);
    assert_eq!(b[15], 2);
    assert_eq!(b[0], 0);
    assert!(WorkId { hi: 0, lo: 9 }.less(WorkId { hi: 1, lo: 0 }));
    assert!(!WorkId { hi: 1, lo: 0 }.less(WorkId { hi: 1, lo: 0 }));
}

#[test]
fn a_minted_id_depends_on_every_input() {
    let p = WorkId { hi: 1, lo: 1 };
    let r = WorkId { hi: 2, lo: 2 };
    let base = mint_work_id(p, r, "task", "land the adapter", 1, b"salt");
    assert_eq!(base, mint_work_id(p, r, "task", "land the adapter", 1, b"salt"));
    assert_ne!(base, mint_work_id(p, r, "task", "land the adapter.", 1, b"salt"));
    assert_ne!(base, mint_work_id(p, r, "task", "land the adapter", 2, b"salt"));
    assert_ne!(base, mint_work_id(p, r, "goal", "land the adapter", 1, b"salt"));
    assert_ne!(base, mint_work_id(r, p, "task", "land the adapter", 1, b"salt"));
    assert_ne!(base, mint_work_id(p, r, "task", "land the adapter", 1, b"pepper"));
    assert!(!base.is_zero());
}

fn sample() -> WorkGraph {
    let mut g = WorkGraph::default();
    let a = WorkId { hi: 1, lo: 1 };
    let b = WorkId { hi: 2, lo: 2 };
    let f = |status, summary| WorkFields {
        kind: WorkKind::Step,
        status,
        role: WorkRole::Explore,
        parent: WorkId::zero(),
        actor: WorkId { hi: 9, lo: 9 },
        summary,
    };
    g.upsert(a, f(WorkStatus::Ready, "first, ünïcode")).unwrap();
    g.upsert(b, f(WorkStatus::Todo, "second")).unwrap();
    g.link_dep(a, b, WorkId::zero()).unwrap();
    g.claim(a, WorkId { hi: 5, lo: 5 }, None).unwrap();
    g
}

fn same(x: &WorkNode, y: &WorkNode) {
    assert_eq!(x.id, y.id);
    assert_eq!(x.kind, y.kind);
    assert_eq!(x.status, y.status);
    assert_eq!(x.role, y.role);
    assert_eq!(x.assignee, y.assignee);
    assert_eq!(x.parent, y.parent);
    assert_eq!(x.deps, y.deps);
    assert_eq!(x.cas_gen, y.cas_gen);
    assert_eq!(x.created_unix, y.created_unix);
    assert_eq!(x.updated_unix, y.updated_unix);
    assert_eq!(x.finished_unix, y.finished_unix);
    assert_eq!(x.summary, y.summary);
    assert_eq!(x.archived, y.archived);
}

#[test]
fn a_saved_graph_loads_back_node_for_node() {
    let g = sample();
    let bytes = g.save_dir().unwrap();
    let back = WorkGraph::load_dir(Some(bytes.as_slice()));
    let before = g.list();
    let after = back.list();
    assert_eq!(before.len(), after.len());
    for n in &before {
        same(n, back.get(n.id).unwrap());
    }
    assert_eq!(back.save_dir().unwrap(), bytes, "the same graph writes the same bytes");
}

#[test]
fn a_snapshot_decodes_to_what_was_encoded() {
    let g = sample();
    let nodes = g.list();
    let bytes = encode_snapshot("claimdag/v1", 7, 3, &nodes);
    let s = decode_snapshot(&bytes).unwrap();
    assert_eq!(s.format, "claimdag/v1");
    assert_eq!(s.next_seq, 7);
    assert_eq!(s.mint_seq, 3);
    assert_eq!(s.nodes.len(), nodes.len());
    for (x, y) in nodes.iter().zip(s.nodes.iter()) {
        same(x, y);
    }
}

#[test]
fn anything_else_is_not_a_snapshot() {
    assert_eq!(decode_snapshot(b"not a snapshot").err().unwrap(), "work.bin: not a claimdag snapshot");
    assert_eq!(decode_snapshot(b"").err().unwrap(), "work.bin: not a claimdag snapshot");
    let g = sample();
    let mut bytes = g.save_dir().unwrap();
    bytes.push(0);
    assert!(decode_snapshot(&bytes).is_err(), "trailing bytes are refused");
    bytes.truncate(bytes.len() - 2);
    assert!(decode_snapshot(&bytes).is_err(), "a short snapshot is refused");
    assert!(WorkGraph::load_dir(Some(b"junk".as_slice())).list().is_empty());
}

#[test]
fn the_file_names_are_fixed() {
    assert_eq!(SNAP_BIN, "work.bin");
    assert_eq!(SNAP_JSON_V0, "work.json");
}

#[test]
fn an_id_and_its_number_undo_each_other() {
    for v in [0u128, 1, u128::MAX, (7u128 << 64) | 9] {
        let w = WorkId::from_u128(v);
        assert_eq!(w.to_u128(), v);
        assert_eq!(w.hi, (v >> 64) as u64);
        assert_eq!(w.lo, v as u64);
        assert_eq!(w.is_zero(), v == 0);
        assert_eq!(WorkId::from_u128(w.to_u128()), w);
        assert_eq!(u128::from_be_bytes(w.to_be_bytes()), v);
    }
}

#[test]
fn an_id_writes_back_trimmed_and_lowercase() {
    let text = "  0123456789ABCDEFfedcba9876543210\t";
    let w = WorkId::from_hex(text).unwrap();
    assert_eq!(w.to_hex(), text.trim().to_ascii_lowercase());
    assert_eq!(WorkId { hi: 0x0123456789abcdef, lo: 0x0123456789abcdef }.to_hex(), "0123456789abcdef0123456789abcdef");
}
