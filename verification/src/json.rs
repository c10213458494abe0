//! The JSON a host reads: the node listing `list --json` prints, and the
//! names file the pane reads. Strings are written and objects are read by
//! `serde_json`; what goes around them is this module's.

use vstd::prelude::*;
use crate::id::hex_digit;
use crate::snap::ref_views;
use crate::text::{dec, push_dec, push_str};
use crate::work::{NodeView, WorkNode};

verus! {

/// How `serde_json` writes one character inside a string: a quote or a
/// backslash behind a backslash; backspace, tab, line feed, form feed and
/// carriage return as a backslash and `b`, `t`, `n`, `f` or `r`; any other
/// character below U+0020 as a backslash, `u00` and two lowercase hex
/// digits; everything else as it is.
pub open spec fn escaped(c: char) -> Seq<char> {
    let u = c as u32;
    if c == '"' {
        seq!['\\', '"']
    } else if c == '\\' {
        seq!['\\', '\\']
    } else if u == 0x08 {
        seq!['\\', 'b']
    } else if u == 0x09 {
        seq!['\\', 't']
    } else if u == 0x0a {
        seq!['\\', 'n']
    } else if u == 0x0c {
        seq!['\\', 'f']
    } else if u == 0x0d {
        seq!['\\', 'r']
    } else if u < 0x20 {
        seq!['\\', 'u', '0', '0', hex_digit((u / 16) as u64), hex_digit((u % 16) as u64)]
    } else {
        seq![c]
    }
}

/// The characters of a string, each written as `serde_json` writes it.
pub open spec fn escape(s: Seq<char>) -> Seq<char>
    decreases s.len(),
{
    if s.len() == 0 {
        Seq::empty()
    } else {
        escape(s.drop_last()) + escaped(s.last())
    }
}

/// A string as `serde_json` writes it: quoted, with its characters escaped.
pub open spec fn spec_json_str(s: Seq<char>) -> Seq<char> {
    seq!['"'] + escape(s) + seq!['"']
}

/// `serde_json::to_string` on a `&str`: the string between quotes, each
/// character escaped as `escaped` says. Writing a string into memory
/// cannot fail.
#[verifier::external_body]
fn json_str(s: &str) -> (r: String)
    ensures
        r@ == spec_json_str(s@),
{
    match serde_json::to_string(s) {
        Ok(t) => t,
        Err(_) => String::new(),
    }
}

/// Items separated by commas.
pub open spec fn joined(items: Seq<Seq<char>>) -> Seq<char>
    decreases items.len(),
{
    if items.len() == 0 {
        Seq::empty()
    } else if items.len() == 1 {
        items[0]
    } else {
        joined(items.drop_last()) + ","@ + items.last()
    }
}

/// A JSON array of these items, written compactly.
pub open spec fn json_array(items: Seq<Seq<char>>) -> Seq<char> {
    "["@ + joined(items) + "]"@
}

/// A JSON boolean.
pub open spec fn json_bool(b: bool) -> Seq<char> {
    if b {
        "true"@
    } else {
        "false"@
    }
}

/// A node as a JSON object. `serde_json` keeps an object's keys sorted, so
/// the fields come in that order.
pub open spec fn node_object(n: NodeView) -> Seq<char> {
    "{\"archived\":"@ + json_bool(n.archived)
        + ",\"assignee\":"@ + spec_json_str(n.assignee.hex())
        + ",\"cas_gen\":"@ + dec(n.cas_gen as nat)
        + ",\"created_unix\":"@ + dec(n.created_unix as nat)
        + ",\"deps\":"@ + json_array(n.deps.map_values(|d: crate::id::WorkId| spec_json_str(d.hex())))
        + ",\"finished_unix\":"@ + dec(n.finished_unix as nat)
        + ",\"id\":"@ + spec_json_str(n.id.hex())
        + ",\"kind\":"@ + spec_json_str(n.kind.name())
        + ",\"parent\":"@ + spec_json_str(n.parent.hex())
        + ",\"role\":"@ + spec_json_str(n.role.name())
        + ",\"status\":"@ + spec_json_str(n.status.name())
        + ",\"summary\":"@ + spec_json_str(n.summary)
        + ",\"updated_unix\":"@ + dec(n.updated_unix as nat)
        + "}"@
}

/// What `list --json` prints for these nodes, in their order.
pub open spec fn nodes_text(ns: Seq<NodeView>) -> Seq<char> {
    json_array(ns.map_values(|n: NodeView| node_object(n)))
}

fn push_json_str(out: &mut String, s: &str)
    ensures
        final(out)@ == old(out)@ + spec_json_str(s@),
{
    let t = json_str(s);
    push_str(out, t.as_str());
}

fn push_deps(out: &mut String, deps: &Vec<crate::id::WorkId>)
    ensures
        final(out)@ == old(out)@ + json_array(deps@.map_values(|d: crate::id::WorkId| spec_json_str(d.hex()))),
{
    let ghost items = deps@.map_values(|d: crate::id::WorkId| spec_json_str(d.hex()));
    let ghost start = out@;
    push_str(out, "[");
    let mut i: usize = 0;
    assert(items.take(0) =~= Seq::<Seq<char>>::empty());
    while i < deps.len()
        invariant
            i <= deps@.len(),
            items == deps@.map_values(|d: crate::id::WorkId| spec_json_str(d.hex())),
            out@ == start + "["@ + joined(items.take(i as int)),
        decreases deps@.len() - i,
    {
        if i > 0 {
            push_str(out, ",");
        }
        let h = deps[i].to_hex();
        push_json_str(out, h.as_str());
        proof {
            let t = items.take(i + 1);
            assert(t.drop_last() =~= items.take(i as int));
            assert(t.last() == items[i as int]);
        }
        i = i + 1;
    }
    assert(items.take(deps@.len() as int) =~= items);
    push_str(out, "]");
}

/// A node as a JSON object.
pub fn node_json(n: &WorkNode) -> (r: String)
    ensures
        r@ == node_object(n@),
{
    let mut s = String::new();
    push_str(&mut s, "{\"archived\":");
    push_str(&mut s, if n.archived { "true" } else { "false" });
    push_str(&mut s, ",\"assignee\":");
    let h = n.assignee.to_hex();
    push_json_str(&mut s, h.as_str());
    push_str(&mut s, ",\"cas_gen\":");
    push_dec(&mut s, n.cas_gen);
    push_str(&mut s, ",\"created_unix\":");
    push_dec(&mut s, n.created_unix);
    push_str(&mut s, ",\"deps\":");
    push_deps(&mut s, &n.deps);
    push_str(&mut s, ",\"finished_unix\":");
    push_dec(&mut s, n.finished_unix);
    push_str(&mut s, ",\"id\":");
    let h = n.id.to_hex();
    push_json_str(&mut s, h.as_str());
    push_str(&mut s, ",\"kind\":");
    push_json_str(&mut s, n.kind.as_str());
    push_str(&mut s, ",\"parent\":");
    let h = n.parent.to_hex();
    push_json_str(&mut s, h.as_str());
    push_str(&mut s, ",\"role\":");
    push_json_str(&mut s, n.role.as_str());
    push_str(&mut s, ",\"status\":");
    push_json_str(&mut s, n.status.as_str());
    push_str(&mut s, ",\"summary\":");
    push_json_str(&mut s, n.summary.as_str());
    push_str(&mut s, ",\"updated_unix\":");
    push_dec(&mut s, n.updated_unix);
    push_str(&mut s, "}");
    assert(s@ =~= node_object(n@));
    s
}

/// The nodes as one JSON array, in their order, as `list --json` prints them.
pub fn nodes_json(nodes: &Vec<&WorkNode>) -> (r: String)
    ensures
        r@ == nodes_text(ref_views(nodes@)),
{
    let ghost items = ref_views(nodes@).map_values(|n: NodeView| node_object(n));
    let mut out = String::new();
    push_str(&mut out, "[");
    let mut i: usize = 0;
    assert(items.take(0) =~= Seq::<Seq<char>>::empty());
    while i < nodes.len()
        invariant
            i <= nodes@.len(),
            items == ref_views(nodes@).map_values(|n: NodeView| node_object(n)),
            out@ == "["@ + joined(items.take(i as int)),
        decreases nodes@.len() - i,
    {
        if i > 0 {
            push_str(&mut out, ",");
        }
        let o = node_json(nodes[i]);
        push_str(&mut out, o.as_str());
        proof {
            let t = items.take(i + 1);
            assert(t.drop_last() =~= items.take(i as int));
            assert(items[i as int] == node_object(nodes@[i as int]@));
            assert(t.last() == items[i as int]);
        }
        i = i + 1;
    }
    assert(items.take(nodes@.len() as int) =~= items);
    push_str(&mut out, "]");
    out
}

/// Names what a names file holds when `serde_json` reads it as an object:
/// each key with its value when that is a string, in the object's key order;
/// none when the text is not a JSON object.
pub uninterp spec fn spec_json_entries(text: Seq<char>) -> Option<Seq<(Seq<char>, Option<Seq<char>>)>>;

/// `serde_json::from_str` on a names file: the object's entries, each value
/// kept when it is a string; none when the text is not a JSON object.
#[verifier::external_body]
pub(crate) fn json_entries(text: &str) -> (r: Option<Vec<(String, Option<String>)>>)
    ensures
        match r {
            Some(v) => spec_json_entries(text@) == Some(v@.map_values(|e: (String, Option<String>)| (e.0@, crate::seat::opt_view(e.1)))),
            None => spec_json_entries(text@) is None,
        },
{
    match serde_json::from_str::<serde_json::Value>(text) {
        Ok(serde_json::Value::Object(map)) => {
            Some(map.into_iter().map(|(k, v)| (k, v.as_str().map(|s| s.to_string()))).collect())
        },
        _ => None,
    }
}

} // verus!
