//! The format writers: every one first maps the forest to a small document
//! model by verified code; the properties text is built directly, and the
//! JSON, YAML and TOML documents are handed to their outside serializers
//! through trusted wrappers.
use crate::errors::ProconError;
use crate::node::node_view;
use crate::node::nodes_view;
use crate::node::spec_render;
use crate::node::strings_view;
use crate::node::Node;
use crate::node::NodeType;
use crate::node::NodeV;
use crate::node::ValueV;
use crate::nodes::Nodes;
use crate::text::chars_to_string;
use vstd::prelude::*;
use vstd::string::StringExecFns;

verus! {

broadcast use vstd::std_specs::vec::group_vec_axioms;

/// The dotted path of a node under an accumulated prefix: the prefix, a dot
/// and the name, or the bare name at a root.
pub open spec fn spec_full_path(prefix: Seq<char>, name: Seq<char>) -> Seq<char> {
    if prefix.len() == 0 {
        name
    } else {
        prefix + seq!['.'] + name
    }
}

/// The properties lines of one subtree: a valued node emits
/// `path=value` and a line feed, a valueless node emits its children's
/// lines.
pub open spec fn spec_node_props(n: NodeV, prefix: Seq<char>) -> Seq<char>
    decreases n, 1int,
{
    let full = spec_full_path(prefix, n.name);
    match n.value {
        ValueV::NONE => spec_children_props(n.children, full),
        _ => full + seq!['='] + spec_render(n.value) + seq!['\n'],
    }
}

pub open spec fn spec_children_props(cs: Seq<NodeV>, prefix: Seq<char>) -> Seq<char>
    decreases cs, 0int,
{
    if cs.len() == 0 {
        Seq::<char>::empty()
    } else {
        spec_node_props(cs[0], prefix) + spec_children_props(cs.drop_first(), prefix)
    }
}

/// The properties text of a whole forest, root by root.
pub open spec fn spec_props_write(roots: Seq<NodeV>) -> Seq<char>
    decreases roots,
{
    if roots.len() == 0 {
        Seq::<char>::empty()
    } else {
        spec_props_write(roots.drop_last()) + spec_node_props(roots.last(), Seq::<char>::empty())
    }
}

fn push_str_chars(out: &mut String, c: char)
    ensures
        final(out)@ == old(out)@.push(c),
{
    let w: Vec<char> = vec![c];
    out.append(chars_to_string(&w).as_str());
    proof {
        assert(old(out)@ + w@ =~= old(out)@.push(c));
    }
}

/// Writes one subtree's properties lines onto `out`.
fn write_node_props(out: &mut String, n: &Node, prefix: &String)
    ensures
        final(out)@ == old(out)@ + spec_node_props(n@, prefix@),
    decreases n,
{
    let full: String = if prefix.as_str().is_empty() {
        let name_chars = crate::text::str_to_chars(n.name.as_str());
        chars_to_string(&name_chars)
    } else {
        let mut f = prefix.clone();
        push_str_chars(&mut f, '.');
        f.append(n.name.as_str());
        f
    };
    proof {
        assert(full@ == spec_full_path(prefix@, n.name@));
    }
    match &n.value {
        NodeType::NONE => {
            proof {
                crate::node::lemma_nodes_view(n.children@);
            }
            let ghost cs = nodes_view(n.children@);
            let mut i: usize = 0;
            let n_children: usize = n.children.len();
            proof {
                assert(old(out)@ + spec_children_props(cs.take(0), full@) =~= old(out)@);
            }
            while i < n_children
                invariant
                    n_children == n.children@.len(),
                    i <= n_children,
                    cs == nodes_view(n.children@),
                    cs.len() == n_children,
                    forall|j: int| 0 <= j < n_children ==> cs[j] == node_view(n.children@[j]),
                    full@ == spec_full_path(prefix@, n.name@),
                    out@ == old(out)@ + spec_children_props_upto(cs, full@, i as int),
                decreases n_children - i,
            {
                write_node_props(out, &n.children[i], &full);
                i = i + 1;
                proof {
                    lemma_children_props_upto(cs, full@, i as int);
                }
            }
            proof {
                lemma_children_props_full(cs, full@);
            }
        },
        _ => {
            out.append(full.as_str());
            push_str_chars(out, '=');
            let rendered = n.value.to_string();
            out.append(rendered.as_str());
            push_str_chars(out, '\n');
            proof {
                assert(out@ =~= old(out)@ + (full@ + seq!['='] + spec_render(n@.value) + seq![
                    '\n',
                ]));
            }
        },
    }
}

/// The lines of the first `k` children.
pub open spec fn spec_children_props_upto(cs: Seq<NodeV>, prefix: Seq<char>, k: int) -> Seq<char>
    decreases k,
{
    if k <= 0 {
        Seq::<char>::empty()
    } else {
        spec_children_props_upto(cs, prefix, k - 1) + spec_node_props(cs[k - 1], prefix)
    }
}

proof fn lemma_children_props_upto(cs: Seq<NodeV>, prefix: Seq<char>, k: int)
    requires
        0 <= k,
    ensures
        spec_children_props_upto(cs, prefix, k) == spec_children_props_upto(cs, prefix, k - 1)
            + (if k >= 1 {
            spec_node_props(cs[k - 1], prefix)
        } else {
            Seq::<char>::empty()
        }),
{
    if k == 0 {
        assert(spec_children_props_upto(cs, prefix, 0) =~= spec_children_props_upto(
            cs,
            prefix,
            -1,
        ) + Seq::<char>::empty());
    }
}

proof fn lemma_children_props_full(cs: Seq<NodeV>, prefix: Seq<char>)
    ensures
        spec_children_props_upto(cs, prefix, cs.len() as int) == spec_children_props(cs, prefix),
    decreases cs.len(),
{
    lemma_children_props_shift(cs, prefix, cs.len() as int);
    assert(cs.take(cs.len() as int) =~= cs);
}

proof fn lemma_children_props_shift(cs: Seq<NodeV>, prefix: Seq<char>, k: int)
    requires
        0 <= k <= cs.len(),
    ensures
        spec_children_props_upto(cs, prefix, k) == spec_children_props(cs.take(k), prefix),
    decreases k,
{
    if k == 0 {
        assert(cs.take(0) =~= Seq::<NodeV>::empty());
    } else {
        lemma_children_props_shift(cs, prefix, k - 1);
        lemma_children_props_append(cs.take(k - 1), cs[k - 1], prefix);
        assert(cs.take(k) =~= cs.take(k - 1).push(cs[k - 1]));
    }
}

proof fn lemma_children_props_append(cs: Seq<NodeV>, x: NodeV, prefix: Seq<char>)
    ensures
        spec_children_props(cs.push(x), prefix) == spec_children_props(cs, prefix)
            + spec_node_props(x, prefix),
    decreases cs.len(),
{
    if cs.len() == 0 {
        assert(cs.push(x)[0] == x);
        assert(cs.push(x).drop_first() =~= Seq::<NodeV>::empty());
        assert(spec_children_props(Seq::<NodeV>::empty(), prefix) == Seq::<char>::empty());
        assert(spec_children_props(cs.push(x), prefix) == spec_node_props(x, prefix)
            + spec_children_props(cs.push(x).drop_first(), prefix));
        assert(spec_node_props(x, prefix) + Seq::<char>::empty() =~= spec_node_props(x, prefix));
        assert(Seq::<char>::empty() + spec_node_props(x, prefix) =~= spec_node_props(x, prefix));
    } else {
        assert(cs.push(x).drop_first() =~= cs.drop_first().push(x));
        assert(cs.push(x)[0] == cs[0]);
        lemma_children_props_append(cs.drop_first(), x, prefix);
        assert(spec_children_props(cs.push(x), prefix) =~= spec_children_props(cs, prefix)
            + spec_node_props(x, prefix));
    }
}

impl Node {
    /// The properties lines of this subtree alone, its own name as the
    /// whole path prefix.
    pub fn to_property_string(&self) -> (r: String)
        ensures
            r@ == spec_node_props(self@, Seq::<char>::empty()),
    {
        let mut out = String::new();
        let prefix = String::new();
        write_node_props(&mut out, self, &prefix);
        out
    }
}

/// The properties text of the whole forest.
pub fn to_properties(nodes: &Nodes) -> (r: String)
    ensures
        r@ == spec_props_write(nodes@),
{
    let roots = nodes.iter();
    proof {
        crate::node::lemma_nodes_view(roots@);
    }
    let ghost rs = nodes_view(roots@);
    let mut out = String::new();
    let prefix = String::new();
    let mut i: usize = 0;
    let n: usize = roots.len();
    while i < n
        invariant
            n == roots@.len(),
            i <= n,
            rs == nodes_view(roots@),
            rs == nodes@,
            rs.len() == n,
            forall|j: int| 0 <= j < n ==> rs[j] == node_view(roots@[j]),
            prefix@ == Seq::<char>::empty(),
            out@ == spec_props_write(rs.take(i as int)),
        decreases n - i,
    {
        write_node_props(&mut out, &roots[i], &prefix);
        i = i + 1;
        proof {
            assert(rs.take(i as int).drop_last() =~= rs.take(i - 1));
            assert(rs.take(i as int).last() == rs[i - 1]);
        }
    }
    proof {
        assert(rs.take(n as int) =~= rs);
    }
    out
}

/// The JSON document a forest is serialized from: plain values only, with
/// numbers kept as their source text.
#[derive(Debug)]
pub enum JsonDoc {
    Bool(bool),
    Num(String),
    Str(String),
    Arr(Vec<String>),
    Obj(Vec<JsonEntry>),
}

/// One key of a JSON object with its value.
#[derive(Debug)]
pub struct JsonEntry {
    pub key: String,
    pub value: JsonDoc,
}

/// The mathematical model of a `JsonDoc`.
#[verifier::ext_equal]
pub enum JsonV {
    Bool(bool),
    Num(Seq<char>),
    Str(Seq<char>),
    Arr(Seq<Seq<char>>),
    Obj(Seq<(Seq<char>, JsonV)>),
}

pub open spec fn json_doc_view(d: JsonDoc) -> JsonV
    decreases d,
{
    match d {
        JsonDoc::Bool(b) => JsonV::Bool(b),
        JsonDoc::Num(t) => JsonV::Num(t@),
        JsonDoc::Str(t) => JsonV::Str(t@),
        JsonDoc::Arr(a) => JsonV::Arr(strings_view(a@)),
        JsonDoc::Obj(es) => JsonV::Obj(json_entries_view(es@)),
    }
}

pub open spec fn json_entries_view(es: Seq<JsonEntry>) -> Seq<(Seq<char>, JsonV)>
    decreases es,
{
    if es.len() == 0 {
        Seq::<(Seq<char>, JsonV)>::empty()
    } else {
        seq![(es[0].key@, json_doc_view(es[0].value))] + json_entries_view(es.drop_first())
    }
}

impl View for JsonDoc {
    type V = JsonV;

    open spec fn view(&self) -> JsonV {
        json_doc_view(*self)
    }
}

pub broadcast proof fn lemma_json_entries_view(es: Seq<JsonEntry>)
    ensures
        (#[trigger] json_entries_view(es)).len() == es.len(),
        forall|i: int| 0 <= i < es.len() ==> json_entries_view(es)[i] == (
            es[i].key@,
            json_doc_view(es[i].value),
        ),
    decreases es,
{
    if es.len() > 0 {
        lemma_json_entries_view(es.drop_first());
        assert forall|i: int| 0 <= i < es.len() implies json_entries_view(es)[i] == (
            es[i].key@,
            json_doc_view(es[i].value),
        ) by {
            if i > 0 {
                assert(es.drop_first()[i - 1] == es[i]);
            }
        }
    }
}

/// The JSON value one node maps to: a valueless node becomes an object of
/// its children, scalars keep their kind, and an array becomes an array of
/// strings.
pub open spec fn spec_node_to_json(n: NodeV) -> JsonV
    decreases n, 1int,
{
    match n.value {
        ValueV::NONE => JsonV::Obj(spec_children_to_json(n.children)),
        ValueV::BOOLEAN(b) => JsonV::Bool(b),
        ValueV::NUMERIC(t) => JsonV::Num(t),
        ValueV::STRING(s) => JsonV::Str(s),
        ValueV::OBJECT(s) => JsonV::Str(s),
        ValueV::ARRAY(a) => JsonV::Arr(a),
    }
}

pub open spec fn spec_children_to_json(cs: Seq<NodeV>) -> Seq<(Seq<char>, JsonV)>
    decreases cs, 0int,
{
    if cs.len() == 0 {
        Seq::<(Seq<char>, JsonV)>::empty()
    } else {
        spec_children_to_json(cs.drop_last()).push(
            (cs.last().name, spec_node_to_json(cs.last())),
        )
    }
}

/// The first index of `key` among object entries; the length if absent.
pub open spec fn spec_entry_index(es: Seq<(Seq<char>, JsonV)>, key: Seq<char>, i: int) -> int
    decreases es.len() - i,
{
    if i < 0 || i >= es.len() {
        es.len() as int
    } else if es[i].0 == key {
        i
    } else {
        spec_entry_index(es, key, i + 1)
    }
}

/// Insert-or-replace on object entries: an existing key keeps its position,
/// a new key joins at the end, as the json library's object does.
pub open spec fn spec_obj_upsert(
    es: Seq<(Seq<char>, JsonV)>,
    key: Seq<char>,
    v: JsonV,
) -> Seq<(Seq<char>, JsonV)> {
    let i = spec_entry_index(es, key, 0);
    if i < es.len() {
        es.update(i, (key, v))
    } else {
        es.push((key, v))
    }
}

/// One root folded into the accumulating JSON document: a nameless root
/// replaces the whole document with its own value, a named root joins the
/// top-level object, and a named root after a nameless one starts a fresh
/// object, as assigning through the json library's value does.
pub open spec fn spec_json_step(doc: JsonV, root: NodeV) -> JsonV {
    if root.name.len() == 0 {
        spec_node_to_json(root)
    } else {
        match doc {
            JsonV::Obj(es) => JsonV::Obj(spec_obj_upsert(es, root.name, spec_node_to_json(root))),
            _ => JsonV::Obj(seq![(root.name, spec_node_to_json(root))]),
        }
    }
}

/// The JSON document of a whole forest.
pub open spec fn spec_forest_to_json(roots: Seq<NodeV>) -> JsonV
    decreases roots,
{
    if roots.len() == 0 {
        JsonV::Obj(Seq::<(Seq<char>, JsonV)>::empty())
    } else {
        spec_json_step(spec_forest_to_json(roots.drop_last()), roots.last())
    }
}

/// A name for what the json library's pretty printer emits for a document,
/// with one space of indentation.
pub uninterp spec fn json_pretty_of(d: JsonV) -> Seq<char>;

/// Declares the json library's value type so that the trusted converter
/// below may name it; the type stays opaque.
#[verifier::external_type_specification]
#[verifier::external_body]
pub struct ExJsonCrateValue(json::JsonValue);

/// Relies on json::JsonValue::pretty: it prints a value deterministically
/// with one space of indentation.
#[verifier::external_body]
fn json_pretty(doc: &JsonDoc) -> (r: String)
    ensures
        r@ == json_pretty_of(doc@),
{
    doc_to_json_value(doc).pretty(1)
}

/// Relies on json::JsonValue and json::parse: each document variant moves
/// into the json library's value; a numeric text is re-read by the library
/// so that it prints as a number, with zero for text it cannot read.
#[verifier::external_body]
fn doc_to_json_value(doc: &JsonDoc) -> json::JsonValue {
    match doc {
        JsonDoc::Bool(b) => json::JsonValue::Boolean(*b),
        JsonDoc::Num(t) => json::parse(t).unwrap_or_else(|_| json::JsonValue::Number(0.into())),
        JsonDoc::Str(t) => json::JsonValue::String(t.clone()),
        JsonDoc::Arr(a) => json::JsonValue::Array(
            a.iter().map(|x| json::JsonValue::String(x.clone())).collect(),
        ),
        JsonDoc::Obj(es) => json_object_value(es),
    }
}

/// Relies on the json library's object: keys are inserted in order, a
/// repeated key overwrites its value in place.
#[verifier::external_body]
fn json_object_value(es: &Vec<JsonEntry>) -> json::JsonValue {
    let mut data = json::JsonValue::new_object();
    for e in es.iter() {
        data[e.key.clone()] = doc_to_json_value(&e.value);
    }
    data
}

/// Builds the JSON value of one node; see `spec_node_to_json`.
pub fn node_to_json(n: &Node) -> (r: JsonDoc)
    ensures
        r@ == spec_node_to_json(n@),
    decreases n,
{
    match &n.value {
        NodeType::BOOLEAN(b) => JsonDoc::Bool(*b),
        NodeType::NUMERIC(t) => JsonDoc::Num(t.clone()),
        NodeType::STRING(t) => JsonDoc::Str(t.clone()),
        NodeType::OBJECT(t) => JsonDoc::Str(t.clone()),
        NodeType::ARRAY(a) => JsonDoc::Arr(crate::node::clone_strings(a)),
        NodeType::NONE => {
            proof {
                crate::node::lemma_nodes_view(n.children@);
            }
            let ghost cs = nodes_view(n.children@);
            let mut es: Vec<JsonEntry> = Vec::new();
            let mut i: usize = 0;
            let n_children: usize = n.children.len();
            proof {
                lemma_json_entries_view(es@);
                assert(json_entries_view(es@) =~= spec_children_to_json(cs.take(0)));
            }
            while i < n_children
                invariant
                    n_children == n.children@.len(),
                    i <= n_children,
                    cs == nodes_view(n.children@),
                    cs.len() == n_children,
                    forall|j: int| 0 <= j < n_children ==> cs[j] == node_view(n.children@[j]),
                    json_entries_view(es@) == spec_children_to_json(cs.take(i as int)),
                decreases n_children - i,
            {
                let child = &n.children[i];
                let value = node_to_json(child);
                let ghost before = es@;
                es.push(JsonEntry { key: child.name.clone(), value });
                i = i + 1;
                proof {
                    lemma_json_entries_view(before);
                    lemma_json_entries_view(es@);
                    assert(cs.take(i as int).drop_last() =~= cs.take(i - 1));
                    assert(cs.take(i as int).last() == cs[i - 1]);
                    assert forall|j: int| 0 <= j < es@.len() implies json_entries_view(es@)[j]
                        == json_entries_view(before).push(
                        (es@.last().key@, json_doc_view(es@.last().value)),
                    )[j] by {
                        if j < before.len() {
                            assert(es@[j] == before[j]);
                        }
                    }
                    assert(json_entries_view(es@) =~= json_entries_view(before).push(
                        (es@.last().key@, json_doc_view(es@.last().value)),
                    ));
                }
            }
            proof {
                assert(cs.take(n_children as int) =~= cs);
            }
            JsonDoc::Obj(es)
        },
    }
}

/// The first index of `key` among the entries of `es`, if present.
fn entry_index(es: &Vec<JsonEntry>, key: &String) -> (r: Option<usize>)
    ensures
        match r {
            Some(i) => i == spec_entry_index(json_entries_view(es@), key@, 0) && i < es@.len(),
            None => spec_entry_index(json_entries_view(es@), key@, 0) == es@.len(),
        },
{
    proof {
        lemma_json_entries_view(es@);
    }
    let ghost ev = json_entries_view(es@);
    let n: usize = es.len();
    let mut i: usize = 0;
    while i < n
        invariant
            n == es@.len(),
            ev == json_entries_view(es@),
            ev.len() == n,
            forall|j: int| 0 <= j < n ==> ev[j] == (es@[j].key@, json_doc_view(es@[j].value)),
            i <= n,
            spec_entry_index(ev, key@, 0) == spec_entry_index(ev, key@, i as int),
        decreases n - i,
    {
        if es[i].key.eq(key) {
            proof {
                assert(ev[i as int].0 == key@);
                assert(spec_entry_index(ev, key@, i as int) == i);
            }
            return Some(i);
        }
        proof {
            assert(ev[i as int].0 != key@);
            assert(spec_entry_index(ev, key@, i as int) == spec_entry_index(ev, key@, i + 1));
        }
        i = i + 1;
    }
    None
}

/// Builds the JSON document of a whole forest; see `spec_forest_to_json`.
pub fn forest_to_json(nodes: &Nodes) -> (r: JsonDoc)
    ensures
        r@ == spec_forest_to_json(nodes@),
{
    let roots = nodes.iter();
    proof {
        crate::node::lemma_nodes_view(roots@);
    }
    let ghost rs = nodes_view(roots@);
    let mut doc = JsonDoc::Obj(Vec::new());
    proof {
        lemma_json_entries_view(Seq::<JsonEntry>::empty());
        assert(json_entries_view(Seq::<JsonEntry>::empty()) =~= Seq::<
            (Seq<char>, JsonV),
        >::empty());
    }
    let mut i: usize = 0;
    let n: usize = roots.len();
    while i < n
        invariant
            n == roots@.len(),
            i <= n,
            rs == nodes_view(roots@),
            rs == nodes@,
            rs.len() == n,
            forall|j: int| 0 <= j < n ==> rs[j] == node_view(roots@[j]),
            doc@ == spec_forest_to_json(rs.take(i as int)),
        decreases n - i,
    {
        let root = &roots[i];
        let conv = node_to_json(root);
        proof {
            assert(rs.take(i + 1).drop_last() =~= rs.take(i as int));
            assert(rs.take(i + 1).last() == rs[i as int]);
        }
        if root.name.as_str().is_empty() {
            doc = conv;
        } else {
            let replaced = match doc {
                JsonDoc::Obj(mut es) => {
                    let ghost ev = json_entries_view(es@);
                    let ghost target = spec_obj_upsert(ev, root.name@, spec_node_to_json(
                        rs[i as int],
                    ));
                    let ghost before = es@;
                    match entry_index(&es, &root.name) {
                        Some(k) => {
                            es.set(k, JsonEntry { key: root.name.clone(), value: conv });
                            proof {
                                lemma_json_entries_view(before);
                                lemma_json_entries_view(es@);
                                assert forall|j: int| 0 <= j < es@.len() implies json_entries_view(
                                    es@,
                                )[j] == target[j] by {
                                    if j != k {
                                        assert(es@[j] == before[j]);
                                    }
                                }
                                assert(json_entries_view(es@) =~= target);
                            }
                        },
                        None => {
                            es.push(JsonEntry { key: root.name.clone(), value: conv });
                            proof {
                                lemma_json_entries_view(before);
                                lemma_json_entries_view(es@);
                                assert forall|j: int| 0 <= j < es@.len() implies json_entries_view(
                                    es@,
                                )[j] == target[j] by {
                                    if j < es@.len() - 1 {
                                        assert(es@[j] == before[j]);
                                    }
                                }
                                assert(json_entries_view(es@) =~= target);
                            }
                        },
                    }
                    JsonDoc::Obj(es)
                },
                other => {
                    let mut es: Vec<JsonEntry> = Vec::new();
                    es.push(JsonEntry { key: root.name.clone(), value: conv });
                    proof {
                        lemma_json_entries_view(es@);
                        assert(json_entries_view(es@) =~= seq![
                            (root.name@, spec_node_to_json(rs[i as int])),
                        ]);
                    }
                    JsonDoc::Obj(es)
                },
            };
            doc = replaced;
        }
        i = i + 1;
    }
    proof {
        assert(rs.take(n as int) =~= rs);
    }
    doc
}

/// The pretty-printed JSON text of a forest.
pub fn to_json(nodes: &Nodes) -> (r: String)
    ensures
        r@ == json_pretty_of(spec_forest_to_json(nodes@)),
{
    let doc = forest_to_json(nodes);
    json_pretty(&doc)
}

/// The YAML document a forest is serialized from: every scalar is carried
/// as text and typed again by the emitter's scalar conversion.
#[derive(Debug)]
pub enum YamlDoc {
    Scalar(String),
    Arr(Vec<String>),
    Hash(Vec<YamlEntry>),
}

/// One key of a YAML mapping with its value.
#[derive(Debug)]
pub struct YamlEntry {
    pub key: String,
    pub value: YamlDoc,
}

/// The mathematical model of a `YamlDoc`.
#[verifier::ext_equal]
pub enum YamlV {
    Scalar(Seq<char>),
    Arr(Seq<Seq<char>>),
    Hash(Seq<(Seq<char>, YamlV)>),
}

pub open spec fn yaml_doc_view(d: YamlDoc) -> YamlV
    decreases d,
{
    match d {
        YamlDoc::Scalar(t) => YamlV::Scalar(t@),
        YamlDoc::Arr(a) => YamlV::Arr(strings_view(a@)),
        YamlDoc::Hash(es) => YamlV::Hash(yaml_entries_view(es@)),
    }
}

pub open spec fn yaml_entries_view(es: Seq<YamlEntry>) -> Seq<(Seq<char>, YamlV)>
    decreases es,
{
    if es.len() == 0 {
        Seq::<(Seq<char>, YamlV)>::empty()
    } else {
        seq![(es[0].key@, yaml_doc_view(es[0].value))] + yaml_entries_view(es.drop_first())
    }
}

impl View for YamlDoc {
    type V = YamlV;

    open spec fn view(&self) -> YamlV {
        yaml_doc_view(*self)
    }
}

pub broadcast proof fn lemma_yaml_entries_view(es: Seq<YamlEntry>)
    ensures
        (#[trigger] yaml_entries_view(es)).len() == es.len(),
        forall|i: int| 0 <= i < es.len() ==> yaml_entries_view(es)[i] == (
            es[i].key@,
            yaml_doc_view(es[i].value),
        ),
    decreases es,
{
    if es.len() > 0 {
        lemma_yaml_entries_view(es.drop_first());
        assert forall|i: int| 0 <= i < es.len() implies yaml_entries_view(es)[i] == (
            es[i].key@,
            yaml_doc_view(es[i].value),
        ) by {
            if i > 0 {
                assert(es.drop_first()[i - 1] == es[i]);
            }
        }
    }
}

/// The first index of `key` among mapping entries; the length if absent.
pub open spec fn spec_yaml_entry_index(es: Seq<(Seq<char>, YamlV)>, key: Seq<char>, i: int) -> int
    decreases es.len() - i,
{
    if i < 0 || i >= es.len() {
        es.len() as int
    } else if es[i].0 == key {
        i
    } else {
        spec_yaml_entry_index(es, key, i + 1)
    }
}

/// Insert-or-replace on mapping entries, position kept, as the
/// order-preserving map used for emission does.
pub open spec fn spec_yaml_upsert(
    es: Seq<(Seq<char>, YamlV)>,
    key: Seq<char>,
    v: YamlV,
) -> Seq<(Seq<char>, YamlV)> {
    let i = spec_yaml_entry_index(es, key, 0);
    if i < es.len() {
        es.update(i, (key, v))
    } else {
        es.push((key, v))
    }
}

/// The YAML value one node maps to.
pub open spec fn spec_node_to_yaml(n: NodeV) -> YamlV
    decreases n, 1int,
{
    match n.value {
        ValueV::NONE => YamlV::Hash(spec_children_to_yaml(n.children)),
        ValueV::BOOLEAN(b) => YamlV::Scalar(spec_render(ValueV::BOOLEAN(b))),
        ValueV::NUMERIC(t) => YamlV::Scalar(t),
        ValueV::STRING(s) => YamlV::Scalar(s),
        ValueV::OBJECT(s) => YamlV::Scalar(s),
        ValueV::ARRAY(a) => YamlV::Arr(a),
    }
}

pub open spec fn spec_children_to_yaml(cs: Seq<NodeV>) -> Seq<(Seq<char>, YamlV)>
    decreases cs, 0int,
{
    if cs.len() == 0 {
        Seq::<(Seq<char>, YamlV)>::empty()
    } else {
        spec_yaml_upsert(
            spec_children_to_yaml(cs.drop_last()),
            cs.last().name,
            spec_node_to_yaml(cs.last()),
        )
    }
}

/// The index of the first nameless root, which carries a root list; the
/// length if every root is named.
pub open spec fn spec_first_nameless(roots: Seq<NodeV>, i: int) -> int
    decreases roots.len() - i,
{
    if i < 0 || i >= roots.len() {
        roots.len() as int
    } else if roots[i].name.len() == 0 {
        i
    } else {
        spec_first_nameless(roots, i + 1)
    }
}

/// The top-level mapping entries of the named roots before the first
/// nameless one.
pub open spec fn spec_yaml_root_entries(roots: Seq<NodeV>) -> Seq<(Seq<char>, YamlV)>
    decreases roots,
{
    if roots.len() == 0 {
        Seq::<(Seq<char>, YamlV)>::empty()
    } else {
        spec_yaml_upsert(
            spec_yaml_root_entries(roots.drop_last()),
            roots.last().name,
            spec_node_to_yaml(roots.last()),
        )
    }
}

/// A name for what the yaml emitter writes for one document, the document
/// marker included; nothing for a document it refuses.
pub uninterp spec fn yaml_emit_of(d: YamlV) -> Option<Seq<char>>;

/// What writing a forest as YAML yields: the dumped root list of the first
/// nameless root if one exists, then the dumped mapping of the named roots
/// before it if any, or the message of the stage that failed.
pub open spec fn spec_to_yaml(roots: Seq<NodeV>) -> Result<Seq<char>, Seq<char>> {
    let fe = spec_first_nameless(roots, 0);
    let p1 = if fe < roots.len() {
        yaml_emit_of(spec_node_to_yaml(roots[fe]))
    } else {
        Some(Seq::<char>::empty())
    };
    match p1 {
        Option::None => Err("Could convert to yam format"@),
        Option::Some(s1) => {
            let es = spec_yaml_root_entries(roots.take(fe));
            let p2 = if es.len() > 0 {
                yaml_emit_of(YamlV::Hash(es))
            } else {
                Some(Seq::<char>::empty())
            };
            match p2 {
                Option::None => Err("Could convert to yaml format"@),
                Option::Some(s2) => Ok(s1 + s2),
            }
        },
    }
}

/// Declares the yaml library's value type so that the trusted converters
/// below may name it; the type stays opaque.
#[verifier::external_type_specification]
#[verifier::external_body]
pub struct ExYamlRustValue(yaml_rust::Yaml);

/// Relies on yaml_rust's YamlEmitter::dump and Yaml::from_str: the emitter
/// writes one document deterministically, scalars and mapping keys are
/// re-typed from their text, and a document the emitter refuses yields
/// nothing.
#[verifier::external_body]
fn yaml_emit(doc: &YamlDoc) -> (r: Option<String>)
    ensures
        match r {
            Some(s) => yaml_emit_of(doc@) == Some(s@),
            None => yaml_emit_of(doc@) is None,
        },
{
    let mut content = String::new();
    let mut emitter = yaml_rust::YamlEmitter::new(&mut content);
    match emitter.dump(&doc_to_yaml_value(doc)) {
        Ok(_) => Some(content),
        Err(_) => None,
    }
}

/// Relies on yaml_rust::Yaml and linked_hash_map: each document variant
/// moves into the emitter's value; scalars and keys go through
/// Yaml::from_str, and the mapping keeps insertion order.
#[verifier::external_body]
fn doc_to_yaml_value(doc: &YamlDoc) -> yaml_rust::Yaml {
    match doc {
        YamlDoc::Scalar(t) => yaml_rust::Yaml::from_str(t),
        YamlDoc::Arr(a) => yaml_rust::Yaml::Array(
            a.iter().map(|x| yaml_rust::Yaml::from_str(x)).collect(),
        ),
        YamlDoc::Hash(es) => yaml_hash_value(es),
    }
}

/// Relies on linked_hash_map: the emitted mapping keeps insertion order of
/// distinct keys; `insert` on a key already present re-attaches that entry
/// at the back of the iteration order. The verified callers hand it only
/// deduplicated keys, so no entry moves.
#[verifier::external_body]
fn yaml_hash_value(es: &Vec<YamlEntry>) -> yaml_rust::Yaml {
    let mut map = linked_hash_map::LinkedHashMap::new();
    for e in es.iter() {
        map.insert(yaml_rust::Yaml::from_str(&e.key), doc_to_yaml_value(&e.value));
    }
    yaml_rust::Yaml::Hash(map)
}

/// Builds the YAML value of one node; see `spec_node_to_yaml`.
pub fn node_to_yaml(n: &Node) -> (r: YamlDoc)
    ensures
        r@ == spec_node_to_yaml(n@),
    decreases n,
{
    match &n.value {
        NodeType::BOOLEAN(b) => YamlDoc::Scalar(NodeType::BOOLEAN(*b).to_string()),
        NodeType::NUMERIC(t) => YamlDoc::Scalar(t.clone()),
        NodeType::STRING(t) => YamlDoc::Scalar(t.clone()),
        NodeType::OBJECT(t) => YamlDoc::Scalar(t.clone()),
        NodeType::ARRAY(a) => YamlDoc::Arr(crate::node::clone_strings(a)),
        NodeType::NONE => {
            proof {
                crate::node::lemma_nodes_view(n.children@);
            }
            let ghost cs = nodes_view(n.children@);
            let mut es: Vec<YamlEntry> = Vec::new();
            let mut i: usize = 0;
            let n_children: usize = n.children.len();
            proof {
                lemma_yaml_entries_view(es@);
                assert(yaml_entries_view(es@) =~= spec_children_to_yaml(cs.take(0)));
            }
            while i < n_children
                invariant
                    n_children == n.children@.len(),
                    i <= n_children,
                    cs == nodes_view(n.children@),
                    cs.len() == n_children,
                    forall|j: int| 0 <= j < n_children ==> cs[j] == node_view(n.children@[j]),
                    yaml_entries_view(es@) == spec_children_to_yaml(cs.take(i as int)),
                decreases n_children - i,
            {
                let child = &n.children[i];
                let value = node_to_yaml(child);
                yaml_entries_upsert(&mut es, &child.name, value);
                i = i + 1;
                proof {
                    assert(cs.take(i as int).drop_last() =~= cs.take(i - 1));
                    assert(cs.take(i as int).last() == cs[i - 1]);
                }
            }
            proof {
                assert(cs.take(n_children as int) =~= cs);
            }
            YamlDoc::Hash(es)
        },
    }
}

/// Inserts or replaces one mapping entry, keeping its position.
fn yaml_entries_upsert(es: &mut Vec<YamlEntry>, key: &String, value: YamlDoc)
    ensures
        yaml_entries_view(final(es)@) == spec_yaml_upsert(
            yaml_entries_view(old(es)@),
            key@,
            value@,
        ),
{
    proof {
        lemma_yaml_entries_view(es@);
    }
    let ghost ev = yaml_entries_view(es@);
    let ghost target = spec_yaml_upsert(ev, key@, value@);
    let ghost before = es@;
    let found = yaml_entry_index(es, key);
    match found {
        Some(k) => {
            es.set(k, YamlEntry { key: key.clone(), value });
            proof {
                lemma_yaml_entries_view(before);
                lemma_yaml_entries_view(es@);
                assert forall|j: int| 0 <= j < es@.len() implies yaml_entries_view(es@)[j]
                    == target[j] by {
                    if j != k {
                        assert(es@[j] == before[j]);
                    }
                }
                assert(yaml_entries_view(es@) =~= target);
            }
        },
        None => {
            es.push(YamlEntry { key: key.clone(), value });
            proof {
                lemma_yaml_entries_view(before);
                lemma_yaml_entries_view(es@);
                assert forall|j: int| 0 <= j < es@.len() implies yaml_entries_view(es@)[j]
                    == target[j] by {
                    if j < es@.len() - 1 {
                        assert(es@[j] == before[j]);
                    }
                }
                assert(yaml_entries_view(es@) =~= target);
            }
        },
    }
}

/// The first index of `key` among the entries of `es`, if present.
fn yaml_entry_index(es: &Vec<YamlEntry>, key: &String) -> (r: Option<usize>)
    ensures
        match r {
            Some(i) => i == spec_yaml_entry_index(yaml_entries_view(es@), key@, 0) && i
                < es@.len(),
            None => spec_yaml_entry_index(yaml_entries_view(es@), key@, 0) == es@.len(),
        },
{
    proof {
        lemma_yaml_entries_view(es@);
    }
    let ghost ev = yaml_entries_view(es@);
    let n: usize = es.len();
    let mut i: usize = 0;
    while i < n
        invariant
            n == es@.len(),
            ev == yaml_entries_view(es@),
            ev.len() == n,
            forall|j: int| 0 <= j < n ==> ev[j] == (es@[j].key@, yaml_doc_view(es@[j].value)),
            i <= n,
            spec_yaml_entry_index(ev, key@, 0) == spec_yaml_entry_index(ev, key@, i as int),
        decreases n - i,
    {
        if es[i].key.eq(key) {
            proof {
                assert(ev[i as int].0 == key@);
                assert(spec_yaml_entry_index(ev, key@, i as int) == i);
            }
            return Some(i);
        }
        proof {
            assert(ev[i as int].0 != key@);
            assert(spec_yaml_entry_index(ev, key@, i as int) == spec_yaml_entry_index(
                ev,
                key@,
                i + 1,
            ));
        }
        i = i + 1;
    }
    None
}

/// The index of the first nameless root, or none.
fn first_nameless_root(roots: &Vec<Node>) -> (r: Option<usize>)
    ensures
        match r {
            Some(i) => i == spec_first_nameless(nodes_view(roots@), 0) && i < roots@.len(),
            None => spec_first_nameless(nodes_view(roots@), 0) == roots@.len(),
        },
{
    proof {
        crate::node::lemma_nodes_view(roots@);
    }
    let ghost rs = nodes_view(roots@);
    let n: usize = roots.len();
    let mut i: usize = 0;
    while i < n
        invariant
            n == roots@.len(),
            rs == nodes_view(roots@),
            rs.len() == n,
            forall|j: int| 0 <= j < n ==> rs[j] == node_view(roots@[j]),
            i <= n,
            spec_first_nameless(rs, 0) == spec_first_nameless(rs, i as int),
        decreases n - i,
    {
        if roots[i].name.as_str().is_empty() {
            proof {
                assert(rs[i as int].name.len() == 0);
                assert(spec_first_nameless(rs, i as int) == i);
            }
            return Some(i);
        }
        proof {
            assert(rs[i as int].name.len() != 0);
            assert(spec_first_nameless(rs, i as int) == spec_first_nameless(rs, i + 1));
        }
        i = i + 1;
    }
    None
}

/// The YAML text of a forest: a root list is dumped first and ends the
/// walk over the roots, the named roots seen before it form one dumped
/// mapping; see `spec_to_yaml`.
pub fn to_yaml(nodes: &Nodes) -> (r: Result<String, ProconError>)
    ensures
        r matches Ok(s) ==> spec_to_yaml(nodes@) == Ok::<Seq<char>, Seq<char>>(s@),
        r matches Err(e) ==> spec_to_yaml(nodes@) == Err::<Seq<char>, Seq<char>>(e@),
{
    let roots = nodes.iter();
    proof {
        crate::node::lemma_nodes_view(roots@);
    }
    let ghost rs = nodes_view(roots@);
    let n: usize = roots.len();
    let nameless = first_nameless_root(roots);
    let ghost fe = spec_first_nameless(rs, 0);
    let stop: usize = match nameless {
        Some(k) => k,
        None => n,
    };
    let mut es: Vec<YamlEntry> = Vec::new();
    let mut i: usize = 0;
    proof {
        lemma_yaml_entries_view(es@);
        assert(yaml_entries_view(es@) =~= spec_yaml_root_entries(rs.take(0)));
    }
    while i < stop
        invariant
            n == roots@.len(),
            stop == fe,
            fe == spec_first_nameless(rs, 0),
            fe <= n,
            i <= stop,
            rs == nodes_view(roots@),
            rs == nodes@,
            rs.len() == n,
            forall|j: int| 0 <= j < n ==> rs[j] == node_view(roots@[j]),
            yaml_entries_view(es@) == spec_yaml_root_entries(rs.take(i as int)),
        decreases stop - i,
    {
        let root = &roots[i];
        let conv = node_to_yaml(root);
        yaml_entries_upsert(&mut es, &root.name, conv);
        i = i + 1;
        proof {
            assert(rs.take(i as int).drop_last() =~= rs.take(i - 1));
            assert(rs.take(i as int).last() == rs[i - 1]);
        }
    }
    let mut content = String::new();
    match nameless {
        Some(k) => {
            let doc = node_to_yaml(&roots[k]);
            match yaml_emit(&doc) {
                Some(s) => {
                    content.append(s.as_str());
                    proof {
                        assert(content@ =~= s@);
                    }
                },
                None => {
                    return Err(
                        ProconError { message: String::from_str("Could convert to yam format") },
                    );
                },
            }
        },
        None => {},
    }
    let ghost s1 = content@;
    if es.len() > 0 {
        match yaml_emit_hash(&es) {
            Some(s) => {
                content.append(s.as_str());
            },
            None => {
                return Err(
                    ProconError { message: String::from_str("Could convert to yaml format") },
                );
            },
        }
    } else {
        proof {
            assert(content@ =~= s1 + Seq::<char>::empty());
        }
    }
    Ok(content)
}

/// Relies on the same emitter call as `yaml_emit`, for a whole mapping.
fn yaml_emit_hash(es: &Vec<YamlEntry>) -> (r: Option<String>)
    ensures
        match r {
            Some(s) => yaml_emit_of(YamlV::Hash(yaml_entries_view(es@))) == Some(s@),
            None => yaml_emit_of(YamlV::Hash(yaml_entries_view(es@))) is None,
        },
{
    let mut copies: Vec<YamlEntry> = Vec::new();
    let mut i: usize = 0;
    proof {
        lemma_yaml_entries_view(es@);
        lemma_yaml_entries_view(copies@);
    }
    while i < es.len()
        invariant
            i <= es@.len(),
            copies@.len() == i,
            forall|j: int| 0 <= j < i ==> (#[trigger] copies@[j]).key@ == es@[j].key@
                && yaml_doc_view(copies@[j].value) == yaml_doc_view(es@[j].value),
        decreases es@.len() - i,
    {
        let e = &es[i];
        copies.push(YamlEntry { key: e.key.clone(), value: clone_yaml_doc(&e.value) });
        i = i + 1;
    }
    proof {
        lemma_yaml_entries_view(es@);
        lemma_yaml_entries_view(copies@);
        assert(yaml_entries_view(copies@) =~= yaml_entries_view(es@));
    }
    yaml_emit(&YamlDoc::Hash(copies))
}

/// A copy of a YAML document with the same view.
#[verifier::loop_isolation(false)]
fn clone_yaml_doc(d: &YamlDoc) -> (r: YamlDoc)
    ensures
        r@ == d@,
    decreases d,
{
    match d {
        YamlDoc::Scalar(t) => YamlDoc::Scalar(t.clone()),
        YamlDoc::Arr(a) => YamlDoc::Arr(crate::node::clone_strings(a)),
        YamlDoc::Hash(es) => {
            proof {
                lemma_yaml_entries_view(es@);
            }
            let mut copies: Vec<YamlEntry> = Vec::new();
            let mut i: usize = 0;
            while i < es.len()
                invariant
                    i <= es@.len(),
                    copies@.len() == i,
                    forall|j: int| 0 <= j < i ==> (#[trigger] copies@[j]).key@ == es@[j].key@
                        && yaml_doc_view(copies@[j].value) == yaml_doc_view(es@[j].value),
                decreases es@.len() - i,
            {
                let e = &es[i];
                proof {
                    assert(decreases_to!(*d => (*d)->Hash_0));
                    assert((*d)->Hash_0 == *es);
                    assert(decreases_to!(*es => es@));
                    assert(decreases_to!(es@ => es@[i as int]));
                    assert(decreases_to!(es@[i as int] => es@[i as int].value));
                }
                copies.push(YamlEntry { key: e.key.clone(), value: clone_yaml_doc(&e.value) });
                i = i + 1;
            }
            proof {
                lemma_yaml_entries_view(es@);
                lemma_yaml_entries_view(copies@);
                assert(yaml_entries_view(copies@) =~= yaml_entries_view(es@));
            }
            YamlDoc::Hash(copies)
        },
    }
}

/// A name for what the toml serializer emits for one document, or nothing
/// for a document it refuses, such as a bare scalar at the top level.
pub uninterp spec fn toml_pretty_of(d: JsonV) -> Option<Seq<char>>;

/// What writing a forest as TOML yields: the concatenation of each root's
/// serialized document, or nothing as soon as one root is refused.
pub open spec fn spec_to_toml(roots: Seq<NodeV>) -> Option<Seq<char>>
    decreases roots,
{
    if roots.len() == 0 {
        Some(Seq::<char>::empty())
    } else {
        match (spec_to_toml(roots.drop_last()), toml_pretty_of(
            spec_node_to_json(roots.last()),
        )) {
            (Some(a), Some(b)) => Some(a + b),
            _ => None,
        }
    }
}

/// Declares the toml library's value type so that the trusted converter
/// below may name it; the type stays opaque.
#[verifier::external_type_specification]
#[verifier::external_body]
pub struct ExTomlValue(toml::Value);

/// Relies on toml::to_string_pretty: it serializes a value
/// deterministically and refuses values with no TOML form, such as a bare
/// scalar at the top level.
#[verifier::external_body]
fn toml_pretty(doc: &JsonDoc) -> (r: Option<String>)
    ensures
        match r {
            Some(s) => toml_pretty_of(doc@) == Some(s@),
            None => toml_pretty_of(doc@) is None,
        },
{
    match toml::to_string_pretty(&doc_to_toml_value(doc)) {
        Ok(s) => Some(s),
        Err(_) => None,
    }
}

/// Relies on toml::Value: each document variant moves into the serializer's
/// value; a numeric text is read as an integer, then as a float, with zero
/// for text that is neither.
#[verifier::external_body]
fn doc_to_toml_value(doc: &JsonDoc) -> toml::Value {
    match doc {
        JsonDoc::Bool(b) => toml::Value::Boolean(*b),
        JsonDoc::Num(t) => toml_number_value(t),
        JsonDoc::Str(t) => toml::Value::String(t.clone()),
        JsonDoc::Arr(a) => toml::Value::Array(
            a.iter().map(|x| toml::Value::String(x.clone())).collect(),
        ),
        JsonDoc::Obj(es) => toml_table_value(es),
    }
}

/// Relies on str::parse through toml::Value: a numeric text is read as an
/// integer, then as a float, with zero for text that is neither.
#[verifier::external_body]
fn toml_number_value(t: &String) -> toml::Value {
    t.parse().map(toml::Value::Integer).unwrap_or_else(
        |_| t.parse().map(toml::Value::Float).unwrap_or_else(|_| toml::Value::Integer(0)),
    )
}

/// Relies on toml::map::Map: under its default backing the table
/// serializes its keys in sorted order, whatever order they were inserted
/// in. The verified callers hand it only deduplicated keys.
#[verifier::external_body]
fn toml_table_value(es: &Vec<JsonEntry>) -> toml::Value {
    let mut table = toml::map::Map::new();
    for e in es.iter() {
        table.insert(e.key.clone(), doc_to_toml_value(&e.value));
    }
    toml::Value::Table(table)
}

/// The TOML text of a forest, root by root; see `spec_to_toml`.
pub fn to_toml(nodes: &Nodes) -> (r: Result<String, ProconError>)
    ensures
        r matches Ok(s) ==> spec_to_toml(nodes@) == Some(s@),
        r matches Err(e) ==> spec_to_toml(nodes@) is None && e@
            == "Could not convert to toml format"@,
{
    let roots = nodes.iter();
    proof {
        crate::node::lemma_nodes_view(roots@);
    }
    let ghost rs = nodes_view(roots@);
    let mut content = String::new();
    let mut i: usize = 0;
    let n: usize = roots.len();
    while i < n
        invariant
            n == roots@.len(),
            i <= n,
            rs == nodes_view(roots@),
            rs == nodes@,
            rs.len() == n,
            forall|j: int| 0 <= j < n ==> rs[j] == node_view(roots@[j]),
            spec_to_toml(rs.take(i as int)) == Some(content@),
        decreases n - i,
    {
        let root = &roots[i];
        let doc = node_to_json(root);
        proof {
            assert(rs.take(i + 1).drop_last() =~= rs.take(i as int));
            assert(rs.take(i + 1).last() == rs[i as int]);
        }
        match toml_pretty(&doc) {
            Some(s) => {
                content.append(s.as_str());
            },
            None => {
                proof {
                    lemma_to_toml_none(rs, i as int);
                }
                return Err(
                    ProconError {
                        message: String::from_str("Could not convert to toml format"),
                    },
                );
            },
        }
        i = i + 1;
    }
    proof {
        assert(rs.take(n as int) =~= rs);
    }
    Ok(content)
}

/// The last index where `c` occurs, or minus one.
pub open spec fn spec_rfind(s: Seq<char>, c: char) -> int
    decreases s.len(),
{
    if s.len() == 0 {
        -1
    } else if s.last() == c {
        s.len() - 1
    } else {
        spec_rfind(s.drop_last(), c)
    }
}

/// The portion of a path after its last slash.
pub open spec fn spec_basename(s: Seq<char>) -> Seq<char> {
    s.skip(spec_rfind(s, '/') + 1)
}

/// A file name without its extension: the portion before the last dot,
/// unless no dot exists or the only dot leads the name.
pub open spec fn spec_stem(name: Seq<char>) -> Seq<char> {
    let d = spec_rfind(name, '.');
    if d <= 0 {
        name
    } else {
        name.take(d)
    }
}

/// The name a written file gets: the input's stem with the target format's
/// extension, and `stdin` as the stem for piped input.
pub open spec fn spec_default_filename(file: Seq<char>, ext: Seq<char>) -> Seq<char> {
    let base = if file == "-"@ {
        "stdin"@
    } else {
        spec_stem(spec_basename(file))
    };
    base + seq!['.'] + ext
}

proof fn lemma_rfind_bounds(s: Seq<char>, c: char)
    ensures
        -1 <= spec_rfind(s, c) < s.len(),
        spec_rfind(s, c) >= 0 ==> s[spec_rfind(s, c)] == c,
        forall|j: int| spec_rfind(s, c) < j < s.len() ==> s[j] != c,
    decreases s.len(),
{
    if s.len() > 0 && s.last() != c {
        lemma_rfind_bounds(s.drop_last(), c);
        assert forall|j: int| spec_rfind(s, c) < j < s.len() implies s[j] != c by {
            if j < s.len() - 1 {
                assert(s.drop_last()[j] == s[j]);
            }
        }
    }
}

/// The last index where `c` occurs in `v`, if any.
fn rfind_char(v: &Vec<char>, c: char) -> (r: Option<usize>)
    ensures
        match r {
            Some(i) => i == spec_rfind(v@, c) && i < v@.len(),
            None => spec_rfind(v@, c) == -1,
        },
{
    let mut j: usize = v.len();
    proof {
        assert(v@.take(v@.len() as int) =~= v@);
    }
    while j > 0
        invariant
            j <= v@.len(),
            spec_rfind(v@, c) == spec_rfind(v@.take(j as int), c),
        decreases j,
    {
        proof {
            let t = v@.take(j as int);
            assert(t.last() == v@[j - 1]);
            assert(t.drop_last() =~= v@.take(j - 1));
        }
        if v[j - 1] == c {
            return Some(j - 1);
        }
        j = j - 1;
    }
    None
}

/// The stem of a path: the file name after any directory part, without its
/// extension; see `spec_stem` and `spec_basename`.
fn path_stem(file: &str) -> (r: Vec<char>)
    ensures
        r@ == spec_stem(spec_basename(file@)),
{
    let cs = crate::text::str_to_chars(file);
    let n: usize = cs.len();
    proof {
        lemma_rfind_bounds(cs@, '/');
    }
    let start: usize = match rfind_char(&cs, '/') {
        Some(i) => i + 1,
        None => 0,
    };
    let base = crate::text::sub_chars(&cs, start, n);
    proof {
        assert(base@ =~= file@.skip(spec_rfind(file@, '/') + 1));
        lemma_rfind_bounds(base@, '.');
    }
    match rfind_char(&base, '.') {
        Some(d) => {
            if d == 0 {
                base
            } else {
                let r = crate::text::sub_chars(&base, 0, d);
                proof {
                    assert(r@ =~= base@.take(d as int));
                }
                r
            }
        },
        None => base,
    }
}

/// The output file's name for a target format; piped input writes a
/// `stdin.*` file.
pub fn default_filename(command: &crate::args::TargetFormat) -> (r: String)
    ensures
        r@ == spec_default_filename(
            crate::args::spec_target_file(*command),
            crate::args::spec_target_ext(*command),
        ),
{
    let file = command.path_buf();
    let ext: &str = match command {
        crate::args::TargetFormat::Properties { .. } => "properties",
        crate::args::TargetFormat::Yaml { .. } => "yaml",
        crate::args::TargetFormat::Json { .. } => "json",
        crate::args::TargetFormat::Toml { .. } => "toml",
    };
    filename_with_ext(file, ext)
}

/// Joins a stem and an extension as `stem.ext`, with `stdin` for `-`.
pub(crate) fn filename_with_ext(file: &String, ext: &str) -> (r: String)
    ensures
        r@ == spec_default_filename(file@, ext@),
{
    let cs = crate::text::str_to_chars(file.as_str());
    let is_dash = cs.len() == 1 && cs[0] == '-';
    proof {
        reveal_strlit("-");
        if is_dash {
            assert(file@ =~= "-"@);
        } else {
            if file@ == "-"@ {
                assert(cs@.len() == 1 && cs@[0] == '-');
            }
        }
    }
    let stem: Vec<char> = if is_dash {
        crate::text::str_to_chars("stdin")
    } else {
        path_stem(file.as_str())
    };
    let mut out = chars_to_string(&stem);
    let dot: Vec<char> = vec!['.'];
    out.append(chars_to_string(&dot).as_str());
    out.append(ext);
    proof {
        if is_dash {
            reveal_strlit("stdin");
            assert(out@ =~= "stdin"@ + seq!['.'] + ext@);
        } else {
            assert(out@ =~= spec_stem(spec_basename(file@)) + seq!['.'] + ext@);
        }
    }
    out
}

proof fn lemma_to_toml_none(rs: Seq<NodeV>, i: int)
    requires
        0 <= i < rs.len(),
        toml_pretty_of(spec_node_to_json(rs[i])) is None,
    ensures
        spec_to_toml(rs) is None,
    decreases rs.len(),
{
    if i == rs.len() - 1 {
        assert(rs.last() == rs[i]);
    } else {
        assert(rs.drop_last()[i] == rs[i]);
        lemma_to_toml_none(rs.drop_last(), i);
    }
}

} // verus!
