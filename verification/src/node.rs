//! The tagged value model and the hierarchical tree node: string-based type
//! inference for scalar values, the merge algorithm that splices dotted-key
//! chains into an existing tree, and the recursive sort used for
//! deterministic output.
use crate::text::chars_eq_lower;
use crate::text::spec_str_le;
use crate::text::spec_str_lt;
use crate::text::str_le;
use crate::text::chars_seqs_view;
use crate::text::chars_to_string;
use crate::text::find_char;
use crate::text::spec_contains;
use crate::text::spec_lower_seq;
use crate::text::spec_split;
use crate::text::split_chars;
use crate::text::str_to_chars;
use crate::text::sub_chars;
use vstd::prelude::*;
use vstd::string::StringExecFns;

verus! {

broadcast use vstd::std_specs::vec::group_vec_axioms;

/// The scalar payload of a tree node, inferred from raw text.
#[derive(Debug, PartialEq)]
pub enum NodeType {
    BOOLEAN(bool),
    NUMERIC(String),
    STRING(String),
    OBJECT(String),
    ARRAY(Vec<String>),
    NONE,
}

/// The mathematical model of a `NodeType`: the same variants over character
/// sequences.
pub enum ValueV {
    BOOLEAN(bool),
    NUMERIC(Seq<char>),
    STRING(Seq<char>),
    OBJECT(Seq<char>),
    ARRAY(Seq<Seq<char>>),
    NONE,
}

/// The views of a sequence of strings.
pub open spec fn strings_view(v: Seq<String>) -> Seq<Seq<char>> {
    v.map_values(|s: String| s@)
}

impl View for NodeType {
    type V = ValueV;

    open spec fn view(&self) -> ValueV {
        match self {
            NodeType::BOOLEAN(b) => ValueV::BOOLEAN(*b),
            NodeType::NUMERIC(s) => ValueV::NUMERIC(s@),
            NodeType::STRING(s) => ValueV::STRING(s@),
            NodeType::OBJECT(s) => ValueV::OBJECT(s@),
            NodeType::ARRAY(a) => ValueV::ARRAY(strings_view(a@)),
            NodeType::NONE => ValueV::NONE,
        }
    }
}

pub fn clone_strings(v: &Vec<String>) -> (r: Vec<String>)
    ensures
        r@ == v@,
{
    let mut r: Vec<String> = Vec::new();
    let mut i: usize = 0;
    while i < v.len()
        invariant
            i <= v@.len(),
            r@ == v@.take(i as int),
        decreases v@.len() - i,
    {
        r.push(v[i].clone());
        i = i + 1;
        proof {
            assert(r@ =~= v@.take(i as int));
        }
    }
    proof {
        assert(r@ =~= v@);
    }
    r
}

impl Clone for NodeType {
    fn clone(&self) -> (r: NodeType)
        ensures
            r@ == self@,
    {
        match self {
            NodeType::BOOLEAN(b) => NodeType::BOOLEAN(*b),
            NodeType::NUMERIC(s) => NodeType::NUMERIC(s.clone()),
            NodeType::STRING(s) => NodeType::STRING(s.clone()),
            NodeType::OBJECT(s) => NodeType::OBJECT(s.clone()),
            NodeType::ARRAY(a) => NodeType::ARRAY(clone_strings(a)),
            NodeType::NONE => NodeType::NONE,
        }
    }
}

pub open spec fn spec_is_digit(c: char) -> bool {
    '0' <= c && c <= '9'
}

pub open spec fn spec_all_digits(s: Seq<char>) -> bool {
    forall|i: int| 0 <= i < s.len() ==> spec_is_digit(s[i])
}

/// The first index at or after `i` that does not hold a decimal digit.
pub open spec fn spec_digits_end(s: Seq<char>, i: int) -> int
    decreases s.len() - i,
{
    if i < 0 || i >= s.len() {
        s.len() as int
    } else if spec_is_digit(s[i]) {
        spec_digits_end(s, i + 1)
    } else {
        i
    }
}

/// Whether `s` is a complete exponent part: `e` or `E`, an optional sign, and
/// at least one digit.
pub open spec fn spec_is_exponent(s: Seq<char>) -> bool {
    s.len() >= 2 && (s[0] == 'e' || s[0] == 'E') && {
        let t = if s[1] == '+' || s[1] == '-' {
            s.skip(2)
        } else {
            s.skip(1)
        };
        t.len() >= 1 && spec_all_digits(t)
    }
}

/// Whether `s` is an unsigned decimal number as Rust's float grammar has it:
/// digits, an optional point with optional further digits, and an optional
/// exponent; or a point followed by digits and an optional exponent.
pub open spec fn spec_is_number_body(s: Seq<char>) -> bool {
    let d1 = spec_digits_end(s, 0);
    if d1 == s.len() {
        d1 >= 1
    } else if s[d1] == '.' {
        let d2 = spec_digits_end(s, d1 + 1);
        (d1 >= 1 || d2 > d1 + 1) && (d2 == s.len() || spec_is_exponent(s.skip(d2)))
    } else {
        d1 >= 1 && spec_is_exponent(s.skip(d1))
    }
}

/// Whether `s`, ignoring ASCII case, reads `inf`, `infinity` or `nan`.
pub open spec fn spec_is_inf_nan(s: Seq<char>) -> bool {
    let l = spec_lower_seq(s);
    l =~= seq!['i', 'n', 'f'] || l =~= seq!['i', 'n', 'f', 'i', 'n', 'i', 't', 'y'] || l =~= seq![
        'n',
        'a',
        'n',
    ]
}

/// Whether `s` parses fully as a floating-point or unsigned-integer literal:
/// an optional sign, then a decimal number or one of the special words.
pub open spec fn spec_is_numeric(s: Seq<char>) -> bool {
    let b = if s.len() >= 1 && (s[0] == '+' || s[0] == '-') {
        s.drop_first()
    } else {
        s
    };
    spec_is_inf_nan(b) || spec_is_number_body(b)
}

fn is_digit(c: char) -> (r: bool)
    ensures
        r == spec_is_digit(c),
{
    '0' <= c && c <= '9'
}

/// The first index at or after `from` in `v` that does not hold a digit.
fn digits_end(v: &Vec<char>, from: usize) -> (r: usize)
    requires
        from <= v@.len(),
    ensures
        r == spec_digits_end(v@, from as int),
        from <= r <= v@.len(),
{
    let n: usize = v.len();
    let mut i: usize = from;
    while i < n
        invariant
            n == v@.len(),
            from <= i <= n,
            spec_digits_end(v@, from as int) == spec_digits_end(v@, i as int),
        decreases n - i,
    {
        if !is_digit(v[i]) {
            return i;
        }
        i = i + 1;
    }
    n
}

/// Whether `v` from `from` on is a complete exponent part.
fn is_exponent_from(v: &Vec<char>, from: usize) -> (r: bool)
    requires
        from <= v@.len(),
    ensures
        r == spec_is_exponent(v@.skip(from as int)),
{
    let n: usize = v.len();
    let ghost s = v@.skip(from as int);
    if n - from < 2 {
        return false;
    }
    if !(v[from] == 'e' || v[from] == 'E') {
        return false;
    }
    let digit_start: usize = if v[from + 1] == '+' || v[from + 1] == '-' {
        from + 2
    } else {
        from + 1
    };
    proof {
        if s[1] == '+' || s[1] == '-' {
            assert(s.skip(2) =~= v@.skip(digit_start as int));
        } else {
            assert(s.skip(1) =~= v@.skip(digit_start as int));
        }
    }
    if digit_start >= n {
        return false;
    }
    let e = digits_end(v, digit_start);
    proof {
        lemma_digits_end_all(v@, digit_start as int);
    }
    e == n
}

proof fn lemma_digits_end_all(s: Seq<char>, from: int)
    requires
        0 <= from <= s.len(),
    ensures
        spec_all_digits(s.skip(from)) <==> spec_digits_end(s, from) == s.len(),
        forall|j: int| from <= j < spec_digits_end(s, from) ==> spec_is_digit(s[j]),
        spec_digits_end(s, from) < s.len() ==> !spec_is_digit(s[spec_digits_end(s, from)]),
    decreases s.len() - from,
{
    if from == s.len() {
        assert(s.skip(from) =~= Seq::<char>::empty());
    } else if spec_is_digit(s[from]) {
        lemma_digits_end_all(s, from + 1);
        if spec_all_digits(s.skip(from)) {
            assert forall|i: int| 0 <= i < s.skip(from + 1).len() implies #[trigger] spec_is_digit(
                s.skip(from + 1)[i],
            ) by {
                assert(s.skip(from + 1)[i] == s.skip(from)[i + 1]);
            }
        }
        if spec_digits_end(s, from + 1) == s.len() {
            assert forall|i: int| 0 <= i < s.skip(from).len() implies spec_is_digit(
                s.skip(from)[i],
            ) by {
                if i == 0 {
                    assert(s.skip(from)[0] == s[from]);
                } else {
                    assert(s.skip(from)[i] == s.skip(from + 1)[i - 1]);
                }
            }
        }
    } else {
        assert(s.skip(from)[0] == s[from]);
    }
}

/// Whether the characters of `v` form a numeric literal.
pub fn is_numeric_chars(v: &Vec<char>) -> (r: bool)
    ensures
        r == spec_is_numeric(v@),
{
    let n: usize = v.len();
    let start: usize = if n >= 1 && (v[0] == '+' || v[0] == '-') {
        1
    } else {
        0
    };
    let body = sub_chars(v, start, n);
    proof {
        if start == 1 {
            assert(body@ =~= v@.drop_first());
        } else {
            assert(body@ =~= v@);
        }
    }
    if is_inf_nan(&body) {
        return true;
    }
    is_number_body(&body)
}

fn is_inf_nan(v: &Vec<char>) -> (r: bool)
    ensures
        r == spec_is_inf_nan(v@),
{
    let w_inf: Vec<char> = vec!['i', 'n', 'f'];
    let w_infinity: Vec<char> = vec!['i', 'n', 'f', 'i', 'n', 'i', 't', 'y'];
    let w_nan: Vec<char> = vec!['n', 'a', 'n'];
    proof {
        assert(spec_lower_seq(w_inf@) =~= w_inf@);
        assert(spec_lower_seq(w_infinity@) =~= w_infinity@);
        assert(spec_lower_seq(w_nan@) =~= w_nan@);
    }
    chars_eq_lower(v, &w_inf) || chars_eq_lower(v, &w_infinity) || chars_eq_lower(v, &w_nan)
}

/// The segments of `s` that are non-empty, in order.
pub open spec fn spec_keep_nonempty(s: Seq<Seq<char>>) -> Seq<Seq<char>>
    decreases s.len(),
{
    if s.len() == 0 {
        s
    } else {
        let r = spec_keep_nonempty(s.drop_last());
        if s.last().len() > 0 {
            r.push(s.last())
        } else {
            r
        }
    }
}

/// The comma-separated join of a sequence of segments, with no trailing
/// comma.
pub open spec fn spec_join_commas(elems: Seq<Seq<char>>) -> Seq<char>
    decreases elems.len(),
{
    if elems.len() == 0 {
        Seq::<char>::empty()
    } else if elems.len() == 1 {
        elems[0]
    } else {
        spec_join_commas(elems.drop_last()) + seq![','] + elems.last()
    }
}

/// What `NodeType::parse` infers from raw text, with the precedence the
/// properties format uses: boolean words first, then an embedded object, then
/// a comma-separated array, then a numeric literal, then plain text.
pub open spec fn spec_parse_value(s: Seq<char>) -> ValueV {
    if spec_lower_seq(s) =~= seq!['t', 'r', 'u', 'e'] {
        ValueV::BOOLEAN(true)
    } else if spec_lower_seq(s) =~= seq!['f', 'a', 'l', 's', 'e'] {
        ValueV::BOOLEAN(false)
    } else if s.len() > 0 && s[0] == '{' {
        ValueV::OBJECT(s)
    } else if spec_contains(s, ',') {
        ValueV::ARRAY(spec_keep_nonempty(spec_split(s, ',')))
    } else if spec_is_numeric(s) {
        ValueV::NUMERIC(s)
    } else {
        ValueV::STRING(s)
    }
}

/// The display text of a value: booleans as their words, scalars verbatim,
/// arrays comma-joined, and the empty text for an internal node.
pub open spec fn spec_render(v: ValueV) -> Seq<char> {
    match v {
        ValueV::BOOLEAN(b) => if b {
            seq!['t', 'r', 'u', 'e']
        } else {
            seq!['f', 'a', 'l', 's', 'e']
        },
        ValueV::NUMERIC(s) => s,
        ValueV::STRING(s) => s,
        ValueV::OBJECT(s) => s,
        ValueV::ARRAY(a) => spec_join_commas(a),
        ValueV::NONE => Seq::<char>::empty(),
    }
}

impl NodeType {
    /// Infers a value from raw text; see `spec_parse_value` for the
    /// precedence.
    pub fn parse(value: &str) -> (r: NodeType)
        ensures
            r@ == spec_parse_value(value@),
    {
        let cs = str_to_chars(value);
        let w_true: Vec<char> = vec!['t', 'r', 'u', 'e'];
        let w_false: Vec<char> = vec!['f', 'a', 'l', 's', 'e'];
        proof {
            assert(spec_lower_seq(w_true@) =~= w_true@);
            assert(spec_lower_seq(w_false@) =~= w_false@);
        }
        if chars_eq_lower(&cs, &w_true) {
            return NodeType::BOOLEAN(true);
        }
        if chars_eq_lower(&cs, &w_false) {
            return NodeType::BOOLEAN(false);
        }
        if cs.len() > 0 && cs[0] == '{' {
            return NodeType::OBJECT(chars_to_string(&cs));
        }
        let has_comma = match find_char(&cs, ',') {
            Some(_) => true,
            None => false,
        };
        if has_comma {
            let parts = split_chars(&cs, ',');
            let mut arr: Vec<String> = Vec::new();
            let mut i: usize = 0;
            while i < parts.len()
                invariant
                    i <= parts@.len(),
                    strings_view(arr@) == spec_keep_nonempty(
                        chars_seqs_view(parts@).take(i as int),
                    ),
                decreases parts@.len() - i,
            {
                proof {
                    let pv = chars_seqs_view(parts@);
                    assert(pv.take(i + 1).drop_last() =~= pv.take(i as int));
                    assert(pv.take(i + 1).last() == parts@[i as int]@);
                }
                if parts[i].len() > 0 {
                    arr.push(chars_to_string(&parts[i]));
                    proof {
                        assert(strings_view(arr@) =~= strings_view(arr@.drop_last()).push(
                            arr@.last()@,
                        ));
                    }
                }
                i = i + 1;
            }
            proof {
                assert(chars_seqs_view(parts@).take(parts@.len() as int) =~= chars_seqs_view(
                    parts@,
                ));
            }
            return NodeType::ARRAY(arr);
        }
        if is_numeric_chars(&cs) {
            return NodeType::NUMERIC(chars_to_string(&cs));
        }
        NodeType::STRING(chars_to_string(&cs))
    }

    /// Renders the value as display text; see `spec_render`.
    pub fn to_string(&self) -> (r: String)
        ensures
            r@ == spec_render(self@),
    {
        match self {
            NodeType::STRING(value) => value.clone(),
            NodeType::NUMERIC(value) => value.clone(),
            NodeType::OBJECT(value) => value.clone(),
            NodeType::BOOLEAN(value) => {
                let w: Vec<char> = if *value {
                    vec!['t', 'r', 'u', 'e']
                } else {
                    vec!['f', 'a', 'l', 's', 'e']
                };
                chars_to_string(&w)
            },
            NodeType::ARRAY(array) => {
                let mut formatted = String::new();
                let mut i: usize = 0;
                while i < array.len()
                    invariant
                        i <= array@.len(),
                        formatted@ == spec_join_commas(strings_view(array@).take(i as int)),
                    decreases array@.len() - i,
                {
                    proof {
                        let av = strings_view(array@);
                        assert(av.take(i + 1).drop_last() =~= av.take(i as int));
                        assert(av.take(i + 1).last() == array@[i as int]@);
                    }
                    if i != 0 {
                        push_comma(&mut formatted);
                    }
                    formatted.append(array[i].as_str());
                    i = i + 1;
                }
                proof {
                    assert(strings_view(array@).take(array@.len() as int) =~= strings_view(
                        array@,
                    ));
                }
                formatted
            },
            NodeType::NONE => String::new(),
        }
    }
}

fn push_comma(s: &mut String)
    ensures
        final(s)@ == old(s)@ + seq![','],
{
    let w: Vec<char> = vec![','];
    let t = chars_to_string(&w);
    s.append(t.as_str());
}

fn is_number_body(v: &Vec<char>) -> (r: bool)
    ensures
        r == spec_is_number_body(v@),
{
    let n: usize = v.len();
    let d1 = digits_end(v, 0);
    if d1 == n {
        return d1 >= 1;
    }
    if v[d1] == '.' {
        let d2 = digits_end(v, d1 + 1);
        if !(d1 >= 1 || d2 > d1 + 1) {
            return false;
        }
        if d2 == n {
            return true;
        }
        return is_exponent_from(v, d2);
    }
    d1 >= 1 && is_exponent_from(v, d1)
}

/// One segment of a hierarchical key path: a named node at a depth, with a
/// scalar value or an ordered sequence of children. The dotted path of a node
/// is rebuilt by the writers from the walk itself, so no parent link is
/// stored.
#[derive(Debug)]
pub struct Node {
    pub level: usize,
    pub children: Vec<Node>,
    pub name: String,
    pub value: NodeType,
}

/// The mathematical model of a node.
#[verifier::ext_equal]
pub struct NodeV {
    pub level: int,
    pub children: Seq<NodeV>,
    pub name: Seq<char>,
    pub value: ValueV,
}

pub open spec fn node_view(n: Node) -> NodeV
    decreases n,
{
    NodeV {
        level: n.level as int,
        children: nodes_view(n.children@),
        name: n.name@,
        value: n.value@,
    }
}

pub open spec fn nodes_view(s: Seq<Node>) -> Seq<NodeV>
    decreases s,
{
    if s.len() == 0 {
        Seq::<NodeV>::empty()
    } else {
        seq![node_view(s[0])] + nodes_view(s.drop_first())
    }
}

impl View for Node {
    type V = NodeV;

    open spec fn view(&self) -> NodeV {
        node_view(*self)
    }
}

pub broadcast proof fn lemma_nodes_view(s: Seq<Node>)
    ensures
        (#[trigger] nodes_view(s)).len() == s.len(),
        forall|i: int| 0 <= i < s.len() ==> nodes_view(s)[i] == node_view(s[i]),
    decreases s,
{
    if s.len() > 0 {
        lemma_nodes_view(s.drop_first());
        assert forall|i: int| 0 <= i < s.len() implies nodes_view(s)[i] == node_view(s[i]) by {
            if i > 0 {
                assert(s.drop_first()[i - 1] == s[i]);
            }
        }
    }
}

pub fn clone_node(n: &Node) -> (r: Node)
    ensures
        r@ == n@,
    decreases n,
{
    proof {
        lemma_nodes_view(n.children@);
    }
    let mut kids: Vec<Node> = Vec::new();
    let mut i: usize = 0;
    while i < n.children.len()
        invariant
            i <= n.children@.len(),
            kids@.len() == i,
            forall|j: int| 0 <= j < i ==> node_view(#[trigger] kids@[j]) == node_view(
                n.children@[j],
            ),
        decreases n.children@.len() - i,
    {
        kids.push(clone_node(&n.children[i]));
        i = i + 1;
    }
    proof {
        lemma_nodes_view(kids@);
        assert(nodes_view(kids@) =~= nodes_view(n.children@));
    }
    Node { level: n.level, children: kids, name: n.name.clone(), value: n.value.clone() }
}

impl Clone for Node {
    fn clone(&self) -> (r: Node)
        ensures
            r@ == self@,
    {
        clone_node(self)
    }
}

/// Node identity for merging and deduplication: the name and the depth,
/// value and children not considered.
pub open spec fn same_key(a: NodeV, b: NodeV) -> bool {
    a.name == b.name && a.level == b.level
}

fn eq_key(a: &Node, b: &Node) -> (r: bool)
    ensures
        r == same_key(a@, b@),
{
    a.level == b.level && a.name == b.name
}

/// Merging an incoming chain into a node of the same name and depth: an
/// incoming leaf overwrites the value, an incoming subtree descends through
/// its first child into the children of the existing node.
pub open spec fn spec_merge_node(e: NodeV, n: NodeV) -> NodeV
    decreases n, 0int,
{
    if n.children.len() == 0 {
        NodeV { value: n.value, ..e }
    } else {
        NodeV { children: spec_merge_forest(e.children, n.children[0]), ..e }
    }
}

/// Merging an incoming node into an ordered sequence of siblings: the first
/// sibling of the same name and depth absorbs it, and a node that matches no
/// sibling is appended.
pub open spec fn spec_merge_forest(roots: Seq<NodeV>, n: NodeV) -> Seq<NodeV>
    decreases n, roots.len() + 1,
{
    if roots.len() == 0 {
        seq![n]
    } else if same_key(roots[0], n) {
        seq![spec_merge_node(roots[0], n)] + roots.drop_first()
    } else {
        seq![roots[0]] + spec_merge_forest(roots.drop_first(), n)
    }
}

pub proof fn lemma_merge_forest_first_match(roots: Seq<NodeV>, n: NodeV, i: int)
    requires
        0 <= i < roots.len(),
        same_key(roots[i], n),
        forall|j: int| 0 <= j < i ==> !same_key(roots[j], n),
    ensures
        spec_merge_forest(roots, n) == roots.update(i, spec_merge_node(roots[i], n)),
    decreases i,
{
    if i == 0 {
        assert(spec_merge_forest(roots, n) =~= roots.update(0, spec_merge_node(roots[0], n)));
    } else {
        assert(roots.drop_first()[i - 1] == roots[i]);
        assert forall|j: int| 0 <= j < i - 1 implies !same_key(
            #[trigger] roots.drop_first()[j],
            n,
        ) by {
            assert(roots.drop_first()[j] == roots[j + 1]);
        }
        lemma_merge_forest_first_match(roots.drop_first(), n, i - 1);
        assert(spec_merge_forest(roots, n) =~= roots.update(i, spec_merge_node(roots[i], n)));
    }
}

pub proof fn lemma_merge_forest_no_match(roots: Seq<NodeV>, n: NodeV)
    requires
        forall|j: int| 0 <= j < roots.len() ==> !same_key(roots[j], n),
    ensures
        spec_merge_forest(roots, n) == roots.push(n),
    decreases roots.len(),
{
    if roots.len() == 0 {
        assert(spec_merge_forest(roots, n) =~= roots.push(n));
    } else {
        assert forall|j: int| 0 <= j < roots.len() - 1 implies !same_key(
            #[trigger] roots.drop_first()[j],
            n,
        ) by {
            assert(roots.drop_first()[j] == roots[j + 1]);
        }
        lemma_merge_forest_no_match(roots.drop_first(), n);
        assert(spec_merge_forest(roots, n) =~= roots.push(n));
    }
}

/// Merges `n` into the sibling sequence `roots`, returning the new sequence.
pub fn merge_forest_exec(roots: &Vec<Node>, n: &Node) -> (r: Vec<Node>)
    ensures
        nodes_view(r@) == spec_merge_forest(nodes_view(roots@), n@),
    decreases n, roots@.len() + 1,
{
    proof {
        lemma_nodes_view(roots@);
    }
    let mut out: Vec<Node> = Vec::new();
    let mut i: usize = 0;
    while i < roots.len()
        invariant
            i <= roots@.len(),
            out@.len() == i,
            nodes_view(roots@).len() == roots@.len(),
            forall|j: int| 0 <= j < roots@.len() ==> nodes_view(roots@)[j] == node_view(
                roots@[j],
            ),
            forall|j: int| 0 <= j < i ==> !same_key(nodes_view(roots@)[j], n@),
            forall|j: int| 0 <= j < i ==> node_view(#[trigger] out@[j]) == node_view(roots@[j]),
        decreases roots@.len() - i,
    {
        if eq_key(&roots[i], n) {
            let merged = merge_node_exec(&roots[i], n);
            out.push(merged);
            let mut k: usize = i + 1;
            while k < roots.len()
                invariant
                    i + 1 <= k <= roots@.len(),
                    out@.len() == k,
                    nodes_view(roots@).len() == roots@.len(),
                    forall|j: int| 0 <= j < roots@.len() ==> nodes_view(roots@)[j] == node_view(
                        roots@[j],
                    ),
                    forall|j: int| 0 <= j < i ==> !same_key(nodes_view(roots@)[j], n@),
                    same_key(nodes_view(roots@)[i as int], n@),
                    node_view(out@[i as int]) == spec_merge_node(nodes_view(roots@)[i as int], n@),
                    forall|j: int|
                        0 <= j < i ==> node_view(#[trigger] out@[j]) == node_view(roots@[j]),
                    forall|j: int|
                        i < j < k ==> node_view(#[trigger] out@[j]) == node_view(roots@[j]),
                decreases roots@.len() - k,
            {
                out.push(clone_node(&roots[k]));
                k = k + 1;
            }
            proof {
                lemma_merge_forest_first_match(nodes_view(roots@), n@, i as int);
                lemma_nodes_view(out@);
                assert(nodes_view(out@) =~= nodes_view(roots@).update(
                    i as int,
                    spec_merge_node(nodes_view(roots@)[i as int], n@),
                ));
            }
            return out;
        }
        out.push(clone_node(&roots[i]));
        i = i + 1;
    }
    out.push(clone_node(n));
    proof {
        lemma_merge_forest_no_match(nodes_view(roots@), n@);
        lemma_nodes_view(out@);
        assert(nodes_view(out@) =~= nodes_view(roots@).push(n@));
    }
    out
}

/// Merges `n` into `e`; the two must share name and depth.
pub fn merge_node_exec(e: &Node, n: &Node) -> (r: Node)
    ensures
        r@ == spec_merge_node(e@, n@),
    decreases n, 0int,
{
    if n.children.len() == 0 {
        let mut kids: Vec<Node> = Vec::new();
        let mut i: usize = 0;
        proof {
            lemma_nodes_view(e.children@);
        }
        while i < e.children.len()
            invariant
                i <= e.children@.len(),
                kids@.len() == i,
                forall|j: int| 0 <= j < i ==> node_view(#[trigger] kids@[j]) == node_view(
                    e.children@[j],
                ),
            decreases e.children@.len() - i,
        {
            kids.push(clone_node(&e.children[i]));
            i = i + 1;
        }
        proof {
            lemma_nodes_view(kids@);
            assert(nodes_view(kids@) =~= nodes_view(e.children@));
        }
        Node { level: e.level, children: kids, name: e.name.clone(), value: n.value.clone() }
    } else {
        let c = &n.children[0];
        proof {
            lemma_nodes_view(n.children@);
        }
        let kids = merge_forest_exec(&e.children, c);
        Node { level: e.level, children: kids, name: e.name.clone(), value: e.value.clone() }
    }
}

/// Insertion of `x` into `s` from the right: `x` ends up after every element
/// whose name is less than or equal to its own, so equal names keep their
/// old order.
pub open spec fn spec_insert_node(s: Seq<NodeV>, x: NodeV) -> Seq<NodeV>
    decreases s.len(),
{
    if s.len() == 0 {
        seq![x]
    } else if spec_str_le(s.last().name, x.name) {
        s.push(x)
    } else {
        spec_insert_node(s.drop_last(), x).push(s.last())
    }
}

/// Stable insertion sort of siblings by name, ascending.
pub open spec fn spec_ins_sort(s: Seq<NodeV>) -> Seq<NodeV>
    decreases s.len(),
{
    if s.len() == 0 {
        s
    } else {
        spec_insert_node(spec_ins_sort(s.drop_last()), s.last())
    }
}

/// Recursive sort of a node: each child subtree first, then the direct
/// children by name.
pub open spec fn spec_sort_node(n: NodeV) -> NodeV
    decreases n, 1int,
{
    NodeV { children: spec_ins_sort(spec_sort_seq(n.children)), ..n }
}

pub open spec fn spec_sort_seq(s: Seq<NodeV>) -> Seq<NodeV>
    decreases s, 0int,
{
    if s.len() == 0 {
        Seq::<NodeV>::empty()
    } else {
        seq![spec_sort_node(s[0])] + spec_sort_seq(s.drop_first())
    }
}

/// Recursive sort of a whole forest: each root subtree, then the roots by
/// name.
pub open spec fn spec_sort_forest(roots: Seq<NodeV>) -> Seq<NodeV> {
    spec_ins_sort(spec_sort_seq(roots))
}

/// Siblings in ascending order by name.
pub open spec fn sorted_by_name(s: Seq<NodeV>) -> bool {
    forall|i: int, j: int| 0 <= i < j < s.len() ==> spec_str_le(s[i].name, s[j].name)
}

proof fn lemma_str_lt_trans(a: Seq<char>, b: Seq<char>, c: Seq<char>)
    requires
        spec_str_lt(a, b),
        spec_str_lt(b, c),
    ensures
        spec_str_lt(a, c),
    decreases a.len(),
{
    if a.len() > 0 && b.len() > 0 && c.len() > 0 && a.first() == b.first() && b.first()
        == c.first() {
        lemma_str_lt_trans(a.drop_first(), b.drop_first(), c.drop_first());
    }
}

proof fn lemma_str_lt_connex(a: Seq<char>, b: Seq<char>)
    requires
        a != b,
    ensures
        spec_str_lt(a, b) || spec_str_lt(b, a),
    decreases a.len(),
{
    if a.len() == 0 && b.len() == 0 {
        assert(a =~= b);
    } else if a.len() == 0 {
        assert(spec_str_lt(a, b));
    } else if b.len() == 0 {
        assert(spec_str_lt(b, a));
    } else if a.first() != b.first() {
        assert((a.first() as int) != (b.first() as int));
    } else if a.len() > 0 && b.len() > 0 && a.first() == b.first() {
        assert(a.drop_first() != b.drop_first()) by {
            if a.drop_first() == b.drop_first() {
                assert(a.drop_first().len() == b.drop_first().len());
                assert(a.len() == b.len());
                assert forall|i: int| 0 <= i < a.len() implies a[i] == b[i] by {
                    if i > 0 {
                        assert(a.drop_first()[i - 1] == a[i]);
                        assert(b.drop_first()[i - 1] == b[i]);
                    }
                }
                assert(a =~= b);
            }
        }
        lemma_str_lt_connex(a.drop_first(), b.drop_first());
    }
}

proof fn lemma_str_lt_asym(a: Seq<char>, b: Seq<char>)
    ensures
        !(spec_str_lt(a, b) && spec_str_lt(b, a)),
    decreases a.len(),
{
    if a.len() > 0 && b.len() > 0 && a.first() == b.first() {
        lemma_str_lt_asym(a.drop_first(), b.drop_first());
    }
}

proof fn lemma_str_le_trans(a: Seq<char>, b: Seq<char>, c: Seq<char>)
    requires
        spec_str_le(a, b),
        spec_str_le(b, c),
    ensures
        spec_str_le(a, c),
{
    if spec_str_lt(c, a) {
        if b == c {
        } else {
            lemma_str_lt_connex(b, c);
            lemma_str_lt_trans(b, c, a);
        }
    }
}

proof fn lemma_insert_node_sorted(s: Seq<NodeV>, x: NodeV)
    requires
        sorted_by_name(s),
    ensures
        sorted_by_name(spec_insert_node(s, x)),
        spec_insert_node(s, x).len() == s.len() + 1,
        forall|i: int| 0 <= i < spec_insert_node(s, x).len() ==> (spec_insert_node(s, x)[i] == x
            || exists|j: int| 0 <= j < s.len() && spec_insert_node(s, x)[i] == s[j]),
    decreases s.len(),
{
    let r = spec_insert_node(s, x);
    if s.len() == 0 {
    } else if spec_str_le(s.last().name, x.name) {
        assert forall|i: int, j: int| 0 <= i < j < r.len() implies spec_str_le(
            r[i].name,
            r[j].name,
        ) by {
            if j == r.len() - 1 {
                if i < s.len() - 1 {
                    assert(spec_str_le(s[i].name, s[s.len() - 1].name));
                    lemma_str_le_trans(s[i].name, s[s.len() - 1].name, x.name);
                } else {
                    assert(r[i] == s.last());
                }
            }
        }
        assert forall|i: int| 0 <= i < r.len() implies (r[i] == x || exists|j: int|
            0 <= j < s.len() && r[i] == s[j]) by {
            if i < s.len() {
                assert(r[i] == s[i]);
            }
        }
    } else {
        assert(sorted_by_name(s.drop_last())) by {
            assert forall|i: int, j: int|
                0 <= i < j < s.drop_last().len() implies spec_str_le(
                s.drop_last()[i].name,
                s.drop_last()[j].name,
            ) by {
                assert(s.drop_last()[i] == s[i]);
                assert(s.drop_last()[j] == s[j]);
            }
        }
        lemma_insert_node_sorted(s.drop_last(), x);
        let inner = spec_insert_node(s.drop_last(), x);
        lemma_str_lt_asym(s.last().name, x.name);
        assert forall|i: int, j: int| 0 <= i < j < r.len() implies spec_str_le(
            r[i].name,
            r[j].name,
        ) by {
            if j == r.len() - 1 {
                assert(r[j] == s.last());
                assert(r[i] == inner[i]);
                if inner[i] == x {
                    assert(spec_str_le(x.name, s.last().name));
                } else {
                    let k = choose|k: int|
                        0 <= k < s.drop_last().len() && inner[i] == s.drop_last()[k];
                    assert(s.drop_last()[k] == s[k]);
                    assert(spec_str_le(s[k].name, s.last().name));
                }
            } else {
                assert(r[i] == inner[i]);
                assert(r[j] == inner[j]);
            }
        }
        assert forall|i: int| 0 <= i < r.len() implies (r[i] == x || exists|j: int|
            0 <= j < s.len() && r[i] == s[j]) by {
            if i == r.len() - 1 {
                assert(r[i] == s[s.len() - 1]);
            } else {
                assert(r[i] == inner[i]);
                if inner[i] != x {
                    let k = choose|k: int|
                        0 <= k < s.drop_last().len() && inner[i] == s.drop_last()[k];
                    assert(s.drop_last()[k] == s[k]);
                }
            }
        }
    }
}

proof fn lemma_ins_sort_sorted(s: Seq<NodeV>)
    ensures
        sorted_by_name(spec_ins_sort(s)),
    decreases s.len(),
{
    if s.len() > 0 {
        lemma_ins_sort_sorted(s.drop_last());
        lemma_insert_node_sorted(spec_ins_sort(s.drop_last()), s.last());
    }
}

proof fn lemma_ins_sort_of_sorted(s: Seq<NodeV>)
    requires
        sorted_by_name(s),
    ensures
        spec_ins_sort(s) == s,
    decreases s.len(),
{
    if s.len() > 0 {
        assert(sorted_by_name(s.drop_last())) by {
            assert forall|i: int, j: int|
                0 <= i < j < s.drop_last().len() implies spec_str_le(
                s.drop_last()[i].name,
                s.drop_last()[j].name,
            ) by {
                assert(s.drop_last()[i] == s[i]);
                assert(s.drop_last()[j] == s[j]);
            }
        }
        lemma_ins_sort_of_sorted(s.drop_last());
        if s.len() == 1 {
            assert(spec_ins_sort(s) =~= s);
        } else {
            assert(s.drop_last().last() == s[s.len() - 2]);
            assert(spec_str_le(s[s.len() - 2].name, s[s.len() - 1].name));
            assert(spec_ins_sort(s) =~= s);
        }
    }
}

proof fn lemma_sort_seq_push(s: Seq<NodeV>, x: NodeV)
    ensures
        spec_sort_seq(s.push(x)) == spec_sort_seq(s).push(spec_sort_node(x)),
{
    lemma_sort_seq(s);
    lemma_sort_seq(s.push(x));
    assert forall|i: int| 0 <= i < s.len() + 1 implies spec_sort_seq(s.push(x))[i]
        == spec_sort_seq(s).push(spec_sort_node(x))[i] by {
        if i < s.len() {
            assert(s.push(x)[i] == s[i]);
        } else {
            assert(s.push(x)[i] == x);
        }
    }
    assert(spec_sort_seq(s.push(x)) =~= spec_sort_seq(s).push(spec_sort_node(x)));
}

proof fn lemma_sort_seq_insert_commute(s: Seq<NodeV>, x: NodeV)
    ensures
        spec_sort_seq(spec_insert_node(s, x)) == spec_insert_node(
            spec_sort_seq(s),
            spec_sort_node(x),
        ),
    decreases s.len(),
{
    lemma_sort_seq(s);
    if s.len() == 0 {
        lemma_sort_seq_push(Seq::<NodeV>::empty(), x);
        assert(Seq::<NodeV>::empty().push(x) =~= seq![x]);
        assert(spec_sort_seq(Seq::<NodeV>::empty()).push(spec_sort_node(x)) =~= seq![
            spec_sort_node(x),
        ]);
    } else if spec_str_le(s.last().name, x.name) {
        lemma_sort_seq_push(s, x);
        assert(spec_sort_seq(s).last() == spec_sort_node(s.last()));
        assert(spec_sort_node(s.last()).name == s.last().name);
        assert(spec_insert_node(spec_sort_seq(s), spec_sort_node(x)) == spec_sort_seq(s).push(
            spec_sort_node(x),
        ));
    } else {
        lemma_sort_seq_insert_commute(s.drop_last(), x);
        lemma_sort_seq_push(spec_insert_node(s.drop_last(), x), s.last());
        assert(spec_sort_seq(s).last() == spec_sort_node(s.last()));
        assert(spec_sort_node(s.last()).name == s.last().name);
        assert(spec_sort_seq(s).drop_last() =~= spec_sort_seq(s.drop_last())) by {
            lemma_sort_seq(s.drop_last());
            assert forall|i: int| 0 <= i < s.len() - 1 implies spec_sort_seq(s).drop_last()[i]
                == spec_sort_seq(s.drop_last())[i] by {
                assert(s.drop_last()[i] == s[i]);
            }
        }
    }
}

proof fn lemma_sort_seq_ins_sort_commute(s: Seq<NodeV>)
    ensures
        spec_sort_seq(spec_ins_sort(s)) == spec_ins_sort(spec_sort_seq(s)),
    decreases s.len(),
{
    lemma_sort_seq(s);
    if s.len() > 0 {
        lemma_sort_seq_ins_sort_commute(s.drop_last());
        lemma_sort_seq_insert_commute(spec_ins_sort(s.drop_last()), s.last());
        assert(spec_sort_seq(s).drop_last() =~= spec_sort_seq(s.drop_last())) by {
            lemma_sort_seq(s.drop_last());
            assert forall|i: int| 0 <= i < s.len() - 1 implies spec_sort_seq(s).drop_last()[i]
                == spec_sort_seq(s.drop_last())[i] by {
                assert(s.drop_last()[i] == s[i]);
            }
        }
        assert(spec_sort_seq(s).last() == spec_sort_node(s.last()));
    }
}

proof fn lemma_sort_seq_twice(c: Seq<NodeV>)
    ensures
        spec_sort_seq(spec_sort_seq(c)) == spec_sort_seq(c),
    decreases c,
{
    lemma_sort_seq(c);
    lemma_sort_seq(spec_sort_seq(c));
    assert forall|i: int| 0 <= i < c.len() implies spec_sort_seq(spec_sort_seq(c))[i]
        == spec_sort_seq(c)[i] by {
        lemma_sort_node_idempotent(c[i]);
    }
    assert(spec_sort_seq(spec_sort_seq(c)) =~= spec_sort_seq(c));
}

/// Law: sorting is idempotent on a single node; sorting a sorted subtree
/// changes nothing.
pub proof fn lemma_sort_node_idempotent(n: NodeV)
    ensures
        spec_sort_node(spec_sort_node(n)) == spec_sort_node(n),
    decreases n,
{
    let c = n.children;
    lemma_sort_seq_twice(c);
    lemma_sort_seq_ins_sort_commute(spec_sort_seq(c));
    lemma_ins_sort_sorted(spec_sort_seq(c));
    lemma_ins_sort_sorted(spec_sort_seq(spec_sort_seq(c)));
    lemma_ins_sort_of_sorted(spec_ins_sort(spec_sort_seq(spec_sort_seq(c))));
    assert(spec_sort_node(spec_sort_node(n)).children == spec_ins_sort(
        spec_sort_seq(spec_ins_sort(spec_sort_seq(c))),
    ));
    assert(spec_sort_node(spec_sort_node(n)) =~= spec_sort_node(n));
}

/// Law: sorting a whole forest twice is the same as sorting it once.
pub proof fn lemma_sort_forest_idempotent(roots: Seq<NodeV>)
    ensures
        spec_sort_forest(spec_sort_forest(roots)) == spec_sort_forest(roots),
{
    lemma_sort_seq_twice(roots);
    lemma_sort_seq_ins_sort_commute(spec_sort_seq(roots));
    lemma_ins_sort_sorted(spec_sort_seq(roots));
    lemma_ins_sort_sorted(spec_sort_seq(spec_sort_seq(roots)));
    lemma_ins_sort_of_sorted(spec_ins_sort(spec_sort_seq(spec_sort_seq(roots))));
}

pub broadcast proof fn lemma_sort_seq(s: Seq<NodeV>)
    ensures
        (#[trigger] spec_sort_seq(s)).len() == s.len(),
        forall|i: int| 0 <= i < s.len() ==> spec_sort_seq(s)[i] == spec_sort_node(s[i]),
    decreases s,
{
    if s.len() > 0 {
        lemma_sort_seq(s.drop_first());
        assert forall|i: int| 0 <= i < s.len() implies spec_sort_seq(s)[i] == spec_sort_node(
            s[i],
        ) by {
            if i > 0 {
                assert(s.drop_first()[i - 1] == s[i]);
            }
        }
    }
}

proof fn lemma_insert_node_at(s: Seq<NodeV>, x: NodeV, j: int)
    requires
        0 <= j <= s.len(),
        forall|k: int| j <= k < s.len() ==> !spec_str_le(s[k].name, x.name),
        j > 0 ==> spec_str_le(s[j - 1].name, x.name),
    ensures
        spec_insert_node(s, x) == s.take(j) + seq![x] + s.skip(j),
    decreases s.len(),
{
    if j == s.len() {
        if s.len() == 0 {
            assert(spec_insert_node(s, x) =~= s.take(j) + seq![x] + s.skip(j));
        } else {
            assert(spec_str_le(s.last().name, x.name));
            assert(spec_insert_node(s, x) =~= s.take(j) + seq![x] + s.skip(j));
        }
    } else {
        assert(!spec_str_le(s[s.len() - 1].name, x.name));
        assert forall|k: int| j <= k < s.drop_last().len() implies !spec_str_le(
            #[trigger] s.drop_last()[k].name,
            x.name,
        ) by {
            assert(s.drop_last()[k] == s[k]);
        }
        if j > 0 {
            assert(s.drop_last()[j - 1] == s[j - 1]);
        }
        lemma_insert_node_at(s.drop_last(), x, j);
        assert(spec_insert_node(s, x) =~= s.take(j) + seq![x] + s.skip(j));
    }
}

/// Inserts the node `x` into the already sorted `acc`, keeping the order by
/// name.
pub(crate) fn insert_sorted(acc: &mut Vec<Node>, x: Node)
    ensures
        nodes_view(final(acc)@) == spec_insert_node(nodes_view(old(acc)@), x@),
{
    proof {
        lemma_nodes_view(acc@);
    }
    let ghost s = nodes_view(acc@);
    let mut j: usize = acc.len();
    while j > 0 && !str_le(&acc[j - 1].name, &x.name)
        invariant
            j <= acc@.len(),
            acc@ == old(acc)@,
            nodes_view(acc@).len() == acc@.len(),
            forall|i: int| 0 <= i < acc@.len() ==> nodes_view(acc@)[i] == node_view(acc@[i]),
            s == nodes_view(acc@),
            forall|k: int| j <= k < s.len() ==> !spec_str_le(s[k].name, x@.name),
        decreases j,
    {
        proof {
            assert(s[j - 1].name == acc@[j - 1].name@);
        }
        j = j - 1;
    }
    proof {
        if j > 0 {
            assert(s[j - 1].name == acc@[j - 1].name@);
        }
        lemma_insert_node_at(s, x@, j as int);
    }
    acc.insert(j, x);
    proof {
        lemma_nodes_view(acc@);
        assert forall|i: int| 0 <= i < acc@.len() implies nodes_view(acc@)[i] == (s.take(j as int)
            + seq![x@] + s.skip(j as int))[i] by {
            assert(acc@ == old(acc)@.insert(j as int, x));
            if i < j {
                assert(acc@[i] == old(acc)@[i]);
            } else if i == j {
                assert(acc@[i] == x);
            } else {
                assert(acc@[i] == old(acc)@[i - 1]);
            }
        }
        assert(nodes_view(acc@) =~= s.take(j as int) + seq![x@] + s.skip(j as int));
    }
}

/// A copy of `n` with every level of children sorted by name.
pub fn sorted_node(n: &Node) -> (r: Node)
    ensures
        r@ == spec_sort_node(n@),
    decreases n,
{
    proof {
        lemma_nodes_view(n.children@);
        lemma_sort_seq(nodes_view(n.children@));
    }
    let ghost t = spec_sort_seq(nodes_view(n.children@));
    let mut kids: Vec<Node> = Vec::new();
    let mut i: usize = 0;
    proof {
        assert(nodes_view(kids@) =~= spec_ins_sort(t.take(0)));
    }
    while i < n.children.len()
        invariant
            i <= n.children@.len(),
            t == spec_sort_seq(nodes_view(n.children@)),
            t.len() == n.children@.len(),
            forall|j: int| 0 <= j < n.children@.len() ==> nodes_view(n.children@)[j] == node_view(
                n.children@[j],
            ),
            forall|j: int| 0 <= j < t.len() ==> t[j] == spec_sort_node(nodes_view(n.children@)[j]),
            nodes_view(kids@) == spec_ins_sort(t.take(i as int)),
        decreases n.children@.len() - i,
    {
        let sc = sorted_node(&n.children[i]);
        insert_sorted(&mut kids, sc);
        i = i + 1;
        proof {
            assert(t.take(i as int).drop_last() =~= t.take(i - 1));
            assert(t.take(i as int).last() == t[i - 1]);
        }
    }
    proof {
        assert(t.take(t.len() as int) =~= t);
    }
    Node {
        level: n.level,
        children: kids,
        name: n.name.clone(),
        value: n.value.clone(),
    }
}

impl Node {
    /// Sorts each child subtree, then the direct children by name.
    pub fn sort(&mut self)
        ensures
            final(self)@ == spec_sort_node(old(self)@),
    {
        let r = sorted_node(self);
        *self = r;
    }

    /// A childless node with the given depth and name and no value.
    pub fn new_from_name_and_level(level: usize, name: &str) -> (r: Node)
        ensures
            r@ == (NodeV {
                level: level as int,
                children: Seq::<NodeV>::empty(),
                name: name@,
                value: ValueV::NONE,
            }),
    {
        let r = Node {
            level,
            children: Vec::new(),
            name: name.to_owned(),
            value: NodeType::NONE,
        };
        proof {
            assert(nodes_view(r.children@) =~= Seq::<NodeV>::empty());
        }
        r
    }

    /// A root node: depth zero, no value, no children.
    pub fn new_from_name(name: &str) -> (r: Node)
        ensures
            r@ == (NodeV {
                level: 0,
                children: Seq::<NodeV>::empty(),
                name: name@,
                value: ValueV::NONE,
            }),
    {
        Self::new_from_name_and_level(0, name)
    }

    /// A childless node meant to be appended under a parent at depth
    /// `level - 1`; the dotted path is rebuilt during the write walk, so the
    /// child holds no link back.
    pub fn new_child(level: usize, name: &str) -> (r: Node)
        ensures
            r@ == (NodeV {
                level: level as int,
                children: Seq::<NodeV>::empty(),
                name: name@,
                value: ValueV::NONE,
            }),
    {
        Self::new_from_name_and_level(level, name)
    }

    /// Tries to absorb `new_node` into this node: `true` says the two share
    /// no name at this depth and the caller should look elsewhere; `false`
    /// says the merge happened here.
    pub fn find_common_node(&mut self, new_node: &Node) -> (b: bool)
        ensures
            b == !same_key(old(self)@, new_node@),
            b ==> final(self)@ == old(self)@,
            !b ==> final(self)@ == spec_merge_node(old(self)@, new_node@),
    {
        if !eq_key(self, new_node) {
            return true;
        }
        let merged = merge_node_exec(self, new_node);
        *self = merged;
        false
    }
}

} // verus!
