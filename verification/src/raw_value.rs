//! The library's own model of an already parsed JSON or YAML document: a
//! tree of plain values that the verified reader logic walks. The outside
//! parsers hand their results over in this shape.
use crate::node::node_view;
use crate::node::nodes_view;
use crate::node::spec_merge_forest;
use crate::node::spec_parse_value;
use crate::node::strings_view;
use crate::node::Node;
use crate::node::NodeType;
use crate::node::NodeV;
use crate::node::ValueV;
use crate::nodes::Nodes;
use vstd::prelude::*;

verus! {

broadcast use vstd::std_specs::vec::group_vec_axioms;

/// One already parsed document value: scalars carry their rendered text,
/// sequences carry their elements as text, and `Skip` stands for a value the
/// tree omits (a null, or a tagged node).
#[derive(Debug)]
pub enum RawValue {
    Bool(bool),
    Num(String),
    Str(String),
    List(Vec<String>),
    Mapping(Vec<RawEntry>),
    Skip,
}

/// One key of a parsed mapping with its value.
#[derive(Debug)]
pub struct RawEntry {
    pub key: String,
    pub value: RawValue,
}

/// The mathematical model of a `RawValue`.
#[verifier::ext_equal]
pub enum RawV {
    Bool(bool),
    Num(Seq<char>),
    Str(Seq<char>),
    List(Seq<Seq<char>>),
    Mapping(Seq<(Seq<char>, RawV)>),
    Skip,
}

pub open spec fn raw_view(v: RawValue) -> RawV
    decreases v,
{
    match v {
        RawValue::Bool(b) => RawV::Bool(b),
        RawValue::Num(s) => RawV::Num(s@),
        RawValue::Str(s) => RawV::Str(s@),
        RawValue::List(items) => RawV::List(strings_view(items@)),
        RawValue::Mapping(entries) => RawV::Mapping(raw_entries_view(entries@)),
        RawValue::Skip => RawV::Skip,
    }
}

pub open spec fn raw_entries_view(es: Seq<RawEntry>) -> Seq<(Seq<char>, RawV)>
    decreases es,
{
    if es.len() == 0 {
        Seq::<(Seq<char>, RawV)>::empty()
    } else {
        seq![(es[0].key@, raw_view(es[0].value))] + raw_entries_view(es.drop_first())
    }
}

impl View for RawValue {
    type V = RawV;

    open spec fn view(&self) -> RawV {
        raw_view(*self)
    }
}

pub broadcast proof fn lemma_raw_entries_view(es: Seq<RawEntry>)
    ensures
        (#[trigger] raw_entries_view(es)).len() == es.len(),
        forall|i: int| 0 <= i < es.len() ==> raw_entries_view(es)[i] == (
            es[i].key@,
            raw_view(es[i].value),
        ),
    decreases es,
{
    if es.len() > 0 {
        lemma_raw_entries_view(es.drop_first());
        assert forall|i: int| 0 <= i < es.len() implies raw_entries_view(es)[i] == (
            es[i].key@,
            raw_view(es[i].value),
        ) by {
            if i > 0 {
                assert(es.drop_first()[i - 1] == es[i]);
            }
        }
    }
}

/// The nesting depth of a parsed document; the outside parsers bound it.
pub open spec fn raw_height(v: RawV) -> nat
    decreases v,
{
    match v {
        RawV::Mapping(entries) => 1 + raw_entries_height(entries),
        _ => 1,
    }
}

pub open spec fn raw_entries_height(es: Seq<(Seq<char>, RawV)>) -> nat
    decreases es,
{
    if es.len() == 0 {
        0
    } else {
        let h = raw_height(es[0].1);
        let rest = raw_entries_height(es.drop_first());
        if h > rest {
            h
        } else {
            rest
        }
    }
}

proof fn lemma_entry_height(es: Seq<(Seq<char>, RawV)>, i: int)
    requires
        0 <= i < es.len(),
    ensures
        raw_height(es[i].1) <= raw_entries_height(es),
    decreases es,
{
    if i > 0 {
        assert(es.drop_first()[i - 1] == es[i]);
        lemma_entry_height(es.drop_first(), i - 1);
    }
}

/// The text of a boolean in a parsed document.
pub open spec fn spec_bool_text(b: bool) -> Seq<char> {
    if b {
        seq!['t', 'r', 'u', 'e']
    } else {
        seq!['f', 'a', 'l', 's', 'e']
    }
}

/// The node that one key of a parsed document becomes at the given depth:
/// scalars run through the same type inference as properties values, a
/// sequence becomes an array leaf, a mapping becomes an internal node, and a
/// skipped value becomes no node at all.
pub open spec fn spec_raw_to_node(key: Seq<char>, v: RawV, lvl: int) -> Option<NodeV>
    decreases v, 1int,
{
    match v {
        RawV::Bool(b) => Some(
            NodeV {
                name: key,
                level: lvl,
                children: Seq::<NodeV>::empty(),
                value: spec_parse_value(spec_bool_text(b)),
            },
        ),
        RawV::Num(t) => Some(
            NodeV {
                name: key,
                level: lvl,
                children: Seq::<NodeV>::empty(),
                value: spec_parse_value(t),
            },
        ),
        RawV::Str(t) => Some(
            NodeV {
                name: key,
                level: lvl,
                children: Seq::<NodeV>::empty(),
                value: spec_parse_value(t),
            },
        ),
        RawV::List(items) => Some(
            NodeV {
                name: key,
                level: lvl,
                children: Seq::<NodeV>::empty(),
                value: ValueV::ARRAY(items),
            },
        ),
        RawV::Mapping(entries) => Some(
            NodeV {
                name: key,
                level: lvl,
                children: spec_raw_children(entries, lvl + 1),
                value: ValueV::NONE,
            },
        ),
        RawV::Skip => None,
    }
}

/// The children that the entries of a mapping become, in order, skipped
/// values omitted.
pub open spec fn spec_raw_children(entries: Seq<(Seq<char>, RawV)>, lvl: int) -> Seq<NodeV>
    decreases entries, 0int,
{
    if entries.len() == 0 {
        Seq::<NodeV>::empty()
    } else {
        let prev = spec_raw_children(entries.drop_last(), lvl);
        match spec_raw_to_node(entries.last().0, entries.last().1, lvl) {
            Some(n) => prev.push(n),
            None => prev,
        }
    }
}

/// Whether a parsed document's top level can carry roots: a mapping or a
/// sequence, as opposed to a bare scalar or null.
pub open spec fn spec_rooted(v: RawV) -> bool {
    v is Mapping || v is List
}

/// The forest a whole parsed document becomes: one root per key of a
/// top-level mapping, a single nameless array root for a top-level sequence,
/// and the empty forest for anything else.
pub open spec fn spec_raw_to_forest(v: RawV) -> Seq<NodeV> {
    match v {
        RawV::Mapping(entries) => spec_raw_roots(entries),
        RawV::List(items) => seq![
            NodeV {
                name: Seq::<char>::empty(),
                level: 0,
                children: Seq::<NodeV>::empty(),
                value: ValueV::ARRAY(items),
            },
        ],
        _ => Seq::<NodeV>::empty(),
    }
}

/// The roots of a top-level mapping, each merged into the forest in turn.
pub open spec fn spec_raw_roots(entries: Seq<(Seq<char>, RawV)>) -> Seq<NodeV>
    decreases entries,
{
    if entries.len() == 0 {
        Seq::<NodeV>::empty()
    } else {
        let prev = spec_raw_roots(entries.drop_last());
        match spec_raw_to_node(entries.last().0, entries.last().1, 0) {
            Some(n) => spec_merge_forest(prev, n),
            None => prev,
        }
    }
}

/// Builds the node for one key of a parsed document; see
/// `spec_raw_to_node`.
#[verifier::loop_isolation(false)]
pub fn raw_to_node(key: &String, v: &RawValue, lvl: usize) -> (r: Option<Node>)
    requires
        lvl + raw_height(v@) <= usize::MAX,
    ensures
        match r {
            Some(n) => spec_raw_to_node(key@, v@, lvl as int) == Some(n@),
            None => spec_raw_to_node(key@, v@, lvl as int) is None,
        },
    decreases v,
{
    match v {
        RawValue::Bool(b) => {
            let text = if *b {
                let w: Vec<char> = vec!['t', 'r', 'u', 'e'];
                crate::text::chars_to_string(&w)
            } else {
                let w: Vec<char> = vec!['f', 'a', 'l', 's', 'e'];
                crate::text::chars_to_string(&w)
            };
            let n = Node {
                level: lvl,
                children: Vec::new(),
                name: key.clone(),
                value: NodeType::parse(text.as_str()),
            };
            proof {
                assert(nodes_view(n.children@) =~= Seq::<NodeV>::empty());
            }
            Some(n)
        },
        RawValue::Num(t) => {
            let n = Node {
                level: lvl,
                children: Vec::new(),
                name: key.clone(),
                value: NodeType::parse(t.as_str()),
            };
            proof {
                assert(nodes_view(n.children@) =~= Seq::<NodeV>::empty());
            }
            Some(n)
        },
        RawValue::Str(t) => {
            let n = Node {
                level: lvl,
                children: Vec::new(),
                name: key.clone(),
                value: NodeType::parse(t.as_str()),
            };
            proof {
                assert(nodes_view(n.children@) =~= Seq::<NodeV>::empty());
            }
            Some(n)
        },
        RawValue::List(items) => {
            let n = Node {
                level: lvl,
                children: Vec::new(),
                name: key.clone(),
                value: NodeType::ARRAY(crate::node::clone_strings(items)),
            };
            proof {
                assert(nodes_view(n.children@) =~= Seq::<NodeV>::empty());
            }
            Some(n)
        },
        RawValue::Mapping(entries) => {
            proof {
                lemma_raw_entries_view(entries@);
            }
            let ghost ev = raw_entries_view(entries@);
            let mut kids: Vec<Node> = Vec::new();
            let mut i: usize = 0;
            let n_entries: usize = entries.len();
            proof {
                assert(ev.take(0) =~= Seq::<(Seq<char>, RawV)>::empty());
                assert(nodes_view(kids@) =~= Seq::<NodeV>::empty());
            }
            while i < n_entries
                invariant
                    n_entries == entries@.len(),
                    i <= n_entries,
                    lvl + raw_height(RawV::Mapping(ev)) <= usize::MAX,
                    ev == raw_entries_view(entries@),
                    ev.len() == n_entries,
                    forall|j: int| 0 <= j < n_entries ==> ev[j] == (
                        entries@[j].key@,
                        raw_view(entries@[j].value),
                    ),
                    nodes_view(kids@) == spec_raw_children(ev.take(i as int), lvl + 1),
                decreases n_entries - i,
            {
                let entry = &entries[i];
                proof {
                    lemma_entry_height(ev, i as int);
                    assert(decreases_to!(*v => (*v)->Mapping_0));
                    assert((*v)->Mapping_0 == *entries);
                    assert(decreases_to!(*entries => entries@));
                    assert(decreases_to!(entries@ => entries@[i as int]));
                    assert(decreases_to!(entries@[i as int] => entries@[i as int].value));
                }
                let child = raw_to_node(&entry.key, &entry.value, lvl + 1);
                proof {
                    assert(ev.take(i + 1).drop_last() =~= ev.take(i as int));
                    assert(ev.take(i + 1).last() == ev[i as int]);
                }
                match child {
                    Some(c) => {
                        let ghost before = kids@;
                        kids.push(c);
                        proof {
                            crate::node::lemma_nodes_view(before);
                            crate::node::lemma_nodes_view(kids@);
                            assert forall|j: int| 0 <= j < kids@.len() implies nodes_view(
                                kids@,
                            )[j] == nodes_view(before).push(node_view(kids@[kids@.len() - 1]))[j]
                                by {
                                if j < before.len() {
                                    assert(kids@[j] == before[j]);
                                }
                            }
                            assert(nodes_view(kids@) =~= nodes_view(before).push(
                                node_view(kids@[kids@.len() - 1]),
                            ));
                        }
                    },
                    None => {},
                }
                i = i + 1;
            }
            proof {
                assert(ev.take(n_entries as int) =~= ev);
            }
            let n = Node {
                level: lvl,
                children: kids,
                name: key.clone(),
                value: NodeType::NONE,
            };
            Some(n)
        },
        RawValue::Skip => None,
    }
}

/// Builds the whole forest for a parsed document; see
/// `spec_raw_to_forest`.
pub fn raw_to_nodes(v: &RawValue) -> (r: Nodes)
    requires
        raw_height(v@) < usize::MAX,
    ensures
        r@ == spec_raw_to_forest(v@),
{
    let mut nodes = Nodes::new();
    match v {
        RawValue::Mapping(entries) => {
            proof {
                lemma_raw_entries_view(entries@);
            }
            let ghost ev = raw_entries_view(entries@);
            let mut i: usize = 0;
            let n_entries: usize = entries.len();
            proof {
                assert(ev.take(0) =~= Seq::<(Seq<char>, RawV)>::empty());
            }
            while i < n_entries
                invariant
                    n_entries == entries@.len(),
                    i <= n_entries,
                    raw_height(RawV::Mapping(ev)) < usize::MAX,
                    ev == raw_entries_view(entries@),
                    ev.len() == n_entries,
                    forall|j: int| 0 <= j < n_entries ==> ev[j] == (
                        entries@[j].key@,
                        raw_view(entries@[j].value),
                    ),
                    nodes@ == spec_raw_roots(ev.take(i as int)),
                decreases n_entries - i,
            {
                let entry = &entries[i];
                proof {
                    lemma_entry_height(ev, i as int);
                }
                let parent = raw_to_node(&entry.key, &entry.value, 0);
                proof {
                    assert(ev.take(i + 1).drop_last() =~= ev.take(i as int));
                    assert(ev.take(i + 1).last() == ev[i as int]);
                }
                match parent {
                    Some(mut p) => {
                        nodes.merge(&mut p);
                    },
                    None => {},
                }
                i = i + 1;
            }
            proof {
                assert(ev.take(n_entries as int) =~= ev);
            }
        },
        RawValue::List(items) => {
            let mut parent = Node::new_from_name("");
            let p2 = Node {
                value: NodeType::ARRAY(crate::node::clone_strings(items)),
                ..parent
            };
            let mut p2m = p2;
            nodes.merge(&mut p2m);
            proof {
                reveal_strlit("");
                assert(""@ =~= Seq::<char>::empty());
                assert(nodes@.len() == 1);
                assert(nodes@[0] =~= (NodeV {
                    name: Seq::<char>::empty(),
                    level: 0,
                    children: Seq::<NodeV>::empty(),
                    value: ValueV::ARRAY(strings_view(items@)),
                }));
                assert(spec_raw_to_forest(v@) =~= nodes@);
            }
        },
        _ => {},
    }
    nodes
}

} // verus!
