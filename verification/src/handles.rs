//! Short names for actor ids, so a claim says who rather than what. An id
//! with no name draws as its first eight hex characters, as the command line
//! prints it.

use vstd::prelude::*;
use crate::id::{parse_hex, WorkId};
use crate::json::{json_entries, spec_json_entries};
use crate::seat::opt_view;
use crate::text::{chars_of, string_of, trim, trim_bounds};

verus! {

/// Actor id to the name a person recognises.
pub struct Handles {
    entries: Vec<(WorkId, String)>,
}

/// Some entry names this id.
pub open spec fn names_id(e: Seq<(WorkId, String)>, k: WorkId) -> bool {
    exists|i: int| 0 <= i < e.len() && (#[trigger] e[i]).0 == k
}

impl View for Handles {
    type V = Map<WorkId, Seq<char>>;

    closed spec fn view(&self) -> Map<WorkId, Seq<char>> {
        Map::new(
            |k: WorkId| names_id(self.entries@, k),
            |k: WorkId| self.entries@[choose|i: int| 0 <= i < self.entries@.len() && (#[trigger] self.entries@[i]).0 == k].1@,
        )
    }
}

impl Default for Handles {
    fn default() -> (r: Handles)
        ensures
            r.wf(),
            r@ == Map::<WorkId, Seq<char>>::empty(),
    {
        let r = Handles { entries: Vec::new() };
        assert(r@ =~= Map::<WorkId, Seq<char>>::empty());
        r
    }
}

impl Handles {
    /// No id named twice.
    pub closed spec fn wf(&self) -> bool {
        forall|a: int, b: int| 0 <= a < b < self.entries@.len() ==> (#[trigger] self.entries@[a]).0 != (#[trigger] self.entries@[b]).0
    }

    fn position(&self, id: WorkId) -> (r: Option<usize>)
        ensures
            r matches Some(i) ==> i < self.entries@.len() && self.entries@[i as int].0 == id,
            r is None ==> !names_id(self.entries@, id),
    {
        let mut i: usize = 0;
        while i < self.entries.len()
            invariant
                i <= self.entries@.len(),
                forall|k: int| 0 <= k < i ==> (#[trigger] self.entries@[k]).0 != id,
            decreases self.entries@.len() - i,
        {
            if self.entries[i].0 == id {
                return Some(i);
            }
            i = i + 1;
        }
        None
    }

    /// Name an id, replacing any name it had.
    pub fn insert(&mut self, id: WorkId, name: String)
        requires
            old(self).wf(),
        ensures
            final(self).wf(),
            final(self)@ == old(self)@.insert(id, name@),
    {
        let ghost e0 = self.entries@;
        let ghost m0 = self@;
        let ghost nm = name@;
        match self.position(id) {
            Some(i) => {
                self.entries.set(i, (id, name));
                proof {
                    let e1 = self.entries@;
                    assert forall|k: WorkId| #[trigger] names_id(e1, k) <==> m0.insert(id, nm).contains_key(k) by {
                        if names_id(e1, k) {
                            let j = choose|j: int| 0 <= j < e1.len() && (#[trigger] e1[j]).0 == k;
                            if j != i {
                                assert(e0[j].0 == k);
                            }
                        }
                        if names_id(e0, k) {
                            let j = choose|j: int| 0 <= j < e0.len() && (#[trigger] e0[j]).0 == k;
                            if j != i {
                                assert(e1[j].0 == k);
                            }
                        }
                    }
                    assert forall|k: WorkId| #[trigger] names_id(e1, k) implies self@[k] == m0.insert(id, nm)[k] by {
                        let j = choose|j: int| 0 <= j < e1.len() && (#[trigger] e1[j]).0 == k;
                        if k == id {
                            if j != i {
                                assert(e0[j].0 == e0[i as int].0);
                                if j < i {
                                    assert(e0[j].0 != e0[i as int].0);
                                } else {
                                    assert(e0[i as int].0 != e0[j].0);
                                }
                            }
                        } else {
                            let j0 = choose|j0: int| 0 <= j0 < e0.len() && (#[trigger] e0[j0]).0 == k;
                            assert(e1[j0].0 == k);
                            if j != j0 {
                                if j < j0 {
                                    assert(e1[j].0 != e1[j0].0);
                                } else {
                                    assert(e1[j0].0 != e1[j].0);
                                }
                            }
                        }
                    }
                    assert(self@ =~= m0.insert(id, nm));
                }
            },
            None => {
                self.entries.push((id, name));
                proof {
                    let e1 = self.entries@;
                    assert forall|k: WorkId| #[trigger] names_id(e1, k) <==> m0.insert(id, nm).contains_key(k) by {
                        if names_id(e1, k) {
                            let j = choose|j: int| 0 <= j < e1.len() && (#[trigger] e1[j]).0 == k;
                            if j < e0.len() {
                                assert(e0[j].0 == k);
                            }
                        }
                        if names_id(e0, k) {
                            let j = choose|j: int| 0 <= j < e0.len() && (#[trigger] e0[j]).0 == k;
                            assert(e1[j].0 == k);
                        }
                        if k == id {
                            assert(e1[e0.len() as int].0 == k);
                        }
                    }
                    assert forall|k: WorkId| #[trigger] names_id(e1, k) implies self@[k] == m0.insert(id, nm)[k] by {
                        let j = choose|j: int| 0 <= j < e1.len() && (#[trigger] e1[j]).0 == k;
                        if k == id {
                            if j < e0.len() {
                                assert(e0[j].0 == id);
                            }
                        } else {
                            let j0 = choose|j0: int| 0 <= j0 < e0.len() && (#[trigger] e0[j0]).0 == k;
                            assert(e1[j0].0 == k);
                            if j != j0 {
                                if j < j0 {
                                    assert(e0[j].0 != e0[j0].0);
                                } else if j < e0.len() {
                                    assert(e0[j0].0 != e0[j].0);
                                }
                            }
                        }
                    }
                    assert(self@ =~= m0.insert(id, nm));
                }
            },
        }
    }

    /// Take one entry of a handles file: a 32-hex id and a name. An entry
    /// whose key is no id, or whose name is blank, is left out.
    pub fn add_entry(&mut self, key: &str, value: &str)
        requires
            old(self).wf(),
        ensures
            final(self).wf(),
            final(self)@ == match parse_hex(key@) {
                Some(id) => if trim(value@).len() > 0 {
                    old(self)@.insert(id, trim(value@))
                } else {
                    old(self)@
                },
                None => old(self)@,
            },
    {
        let id = match WorkId::from_hex(key) {
            Some(id) => id,
            None => {
                return;
            },
        };
        let cs = chars_of(value);
        let (a, b) = trim_bounds(cs.as_slice());
        if a == b {
            return;
        }
        let name = string_of(&cs.as_slice()[a..b]);
        assert(name@ == trim(value@));
        self.insert(id, name);
    }

    /// The name for an id, or its first eight hex characters.
    pub fn name_for(&self, id: WorkId) -> (r: String)
        requires
            self.wf(),
        ensures
            r@ == if self@.contains_key(id) {
                self@[id]
            } else {
                id.hex().take(8)
            },
    {
        match self.position(id) {
            Some(i) => {
                proof {
                    let j = choose|j: int| 0 <= j < self.entries@.len() && (#[trigger] self.entries@[j]).0 == id;
                    if j != i {
                        if j < i {
                            assert(self.entries@[j].0 != self.entries@[i as int].0);
                        } else {
                            assert(self.entries@[i as int].0 != self.entries@[j].0);
                        }
                    }
                }
                let name = self.entries[i].1.clone();
                name
            },
            None => {
                let hex = id.to_hex();
                let cs = chars_of(hex.as_str());
                let first = string_of(&cs.as_slice()[0..8]);
                assert(first@ =~= id.hex().take(8));
                first
            },
        }
    }
}

/// The names after one entry of a names file: a 32-hex key with a string
/// value that is not blank names that id with the trimmed value; any other
/// entry changes nothing.
pub open spec fn entry_added(m: Map<WorkId, Seq<char>>, e: (Seq<char>, Option<Seq<char>>)) -> Map<WorkId, Seq<char>> {
    match e.1 {
        Some(v) => match parse_hex(e.0) {
            Some(id) => if trim(v).len() > 0 {
                m.insert(id, trim(v))
            } else {
                m
            },
            None => m,
        },
        None => m,
    }
}

/// The names after each entry in turn.
pub open spec fn entries_added(m: Map<WorkId, Seq<char>>, es: Seq<(Seq<char>, Option<Seq<char>>)>) -> Map<WorkId, Seq<char>>
    decreases es.len(),
{
    if es.len() == 0 {
        m
    } else {
        entry_added(entries_added(m, es.drop_last()), es.last())
    }
}

impl Handles {
    /// Take the entries of a names file's text. A text that is not a JSON
    /// object is ignored rather than fatal, as is any entry that names no id
    /// or no name.
    pub fn from_json_text(&mut self, text: &str)
        requires
            old(self).wf(),
        ensures
            final(self).wf(),
            final(self)@ == match spec_json_entries(text@) {
                Some(es) => entries_added(old(self)@, es),
                None => old(self)@,
            },
    {
        let entries = match json_entries(text) {
            Some(v) => v,
            None => {
                return;
            },
        };
        let ghost es = entries@.map_values(|e: (String, Option<String>)| (e.0@, opt_view(e.1)));
        let ghost start = self@;
        let mut i: usize = 0;
        assert(es.take(0) =~= Seq::<(Seq<char>, Option<Seq<char>>)>::empty());
        while i < entries.len()
            invariant
                self.wf(),
                i <= entries@.len(),
                es == entries@.map_values(|e: (String, Option<String>)| (e.0@, opt_view(e.1))),
                self@ == entries_added(start, es.take(i as int)),
            decreases entries@.len() - i,
        {
            let (key, value) = &entries[i];
            let ghost before = self@;
            match value {
                Some(v) => self.add_entry(key.as_str(), v.as_str()),
                None => {},
            }
            proof {
                let t = es.take(i + 1);
                assert(t.drop_last() =~= es.take(i as int));
                assert(t.last() == es[i as int]);
                assert(es[i as int] == (key@, opt_view(*value)));
            }
            i = i + 1;
        }
        assert(es.take(entries@.len() as int) =~= es);
    }
}

} // verus!
