//! The properties tokenizer: a single pass over the input lines that handles
//! comments, blank lines, the configurable key/value delimiter, duplicate
//! keys and backslash continuation lines, followed by the conversion of the
//! dotted keys into a forest of tree nodes.
use crate::errors::ProconError;
use crate::line::spec_add_multiline;
use crate::line::spec_remove_last;
use crate::line::Line;
use crate::line::LineV;
use crate::node::node_view;
use crate::node::spec_merge_forest;
use crate::node::spec_parse_value;
use crate::node::Node;
use crate::node::NodeType;
use crate::node::NodeV;
use crate::node::ValueV;
use crate::nodes::Nodes;
use crate::text::chars_to_string;
use crate::text::spec_find;
use crate::text::spec_split;
use crate::text::spec_trim_end;
use crate::text::spec_trim_start;
use crate::text::split_chars;
use crate::text::str_to_chars;
use crate::text::sub_chars;
use crate::text::chars_seqs_view;
use vstd::pervasive::VecAdditionalExecFns;
use vstd::prelude::*;

verus! {

broadcast use vstd::std_specs::vec::group_vec_axioms;

/// The character separating key from value in a properties line.
#[derive(Debug, Clone)]
pub enum Delimiter {
    Equals,
    Colon,
    Whitespace,
}

pub open spec fn spec_delim(d: Delimiter) -> char {
    match d {
        Delimiter::Equals => '=',
        Delimiter::Colon => ':',
        Delimiter::Whitespace => ' ',
    }
}

impl Delimiter {
    fn value(&self) -> (r: char)
        ensures
            r == spec_delim(*self),
    {
        match self {
            Delimiter::Equals => '=',
            Delimiter::Colon => ':',
            Delimiter::Whitespace => ' ',
        }
    }
}

/// The number of consecutive backslashes at the end of a value.
pub open spec fn spec_trailing_backslashes(s: Seq<char>) -> nat
    decreases s.len(),
{
    if s.len() > 0 && s.last() == '\\' {
        1 + spec_trailing_backslashes(s.drop_last())
    } else {
        0
    }
}

/// A value continues on the next line exactly when it ends with an odd
/// number of backslashes.
pub open spec fn spec_is_continuation(s: Seq<char>) -> bool {
    spec_trailing_backslashes(s) % 2 == 1
}

/// The views of a sequence of records.
pub open spec fn lines_view(s: Seq<Line>) -> Seq<LineV> {
    s.map_values(|l: Line| l@)
}

/// The first index whose record has the given key; the length if none has.
pub open spec fn spec_key_index_from(content: Seq<LineV>, key: Seq<char>, i: int) -> int
    decreases content.len() - i,
{
    if i < 0 || i >= content.len() {
        content.len() as int
    } else if content[i].key == key {
        i
    } else {
        spec_key_index_from(content, key, i + 1)
    }
}

pub open spec fn spec_contains_key(content: Seq<LineV>, key: Seq<char>) -> bool {
    spec_key_index_from(content, key, 0) < content.len()
}

/// Last occurrence wins: a record replaces the entry of its key in place, or
/// joins at the end.
pub open spec fn spec_upsert(content: Seq<LineV>, l: LineV) -> Seq<LineV> {
    let i = spec_key_index_from(content, l.key, 0);
    if i < content.len() {
        content.update(i, l)
    } else {
        content.push(l)
    }
}

/// The whole tokenizer state: the records gathered so far and the key of a
/// pending continuation, empty when none is pending.
pub open spec fn spec_process_line(
    content: Seq<LineV>,
    last_key: Seq<char>,
    line: Seq<char>,
    n: u32,
    d: char,
) -> (Seq<LineV>, Seq<char>) {
    if line.len() == 0 {
        (content, last_key)
    } else if last_key.len() == 0 && (line[0] == '#' || line[0] == '!') {
        (content, last_key)
    } else {
        let idx = spec_find(line, d, 0);
        let key = if idx < line.len() {
            line.take(idx)
        } else {
            Seq::<char>::empty()
        };
        let value = if idx < line.len() {
            line.skip(idx + 1)
        } else {
            Seq::<char>::empty()
        };
        if key.len() == 0 {
            if spec_contains_key(content, last_key) {
                let i = spec_key_index_from(content, last_key, 0);
                let joined = spec_add_multiline(content[i], line);
                let lk = if spec_is_continuation(joined.value) {
                    last_key
                } else {
                    Seq::<char>::empty()
                };
                (content.update(i, joined), lk)
            } else {
                (
                    spec_upsert(
                        content,
                        LineV {
                            key: spec_trim_end(line),
                            value: spec_trim_start(value),
                            line_number: n,
                        },
                    ),
                    last_key,
                )
            }
        } else {
            let lk = if spec_is_continuation(value) {
                spec_trim_end(key)
            } else {
                last_key
            };
            (
                spec_upsert(
                    content,
                    LineV {
                        key: spec_trim_end(key),
                        value: spec_trim_start(value),
                        line_number: n,
                    },
                ),
                lk,
            )
        }
    }
}

/// The node chain that one dotted key builds: segment `i` of `parts` at
/// depth `lvl`, every intermediate node valueless, the leaf carrying the
/// parsed value.
pub open spec fn spec_chain(parts: Seq<Seq<char>>, i: int, lvl: int, value: ValueV) -> NodeV
    decreases parts.len() - i,
{
    NodeV {
        name: if 0 <= i < parts.len() {
            parts[i]
        } else {
            Seq::<char>::empty()
        },
        level: lvl,
        children: if 0 <= i && i + 1 < parts.len() {
            seq![spec_chain(parts, i + 1, lvl + 1, value)]
        } else {
            Seq::<NodeV>::empty()
        },
        value: if 0 <= i && i + 1 < parts.len() {
            ValueV::NONE
        } else {
            value
        },
    }
}

/// The chain a record builds: its key split on dots, its value parsed at the
/// leaf.
pub open spec fn spec_line_to_node(l: LineV) -> NodeV {
    spec_chain(spec_split(l.key, '.'), 0, 0, spec_parse_value(l.value))
}

/// The forest that a sequence of records merges into, record by record.
pub open spec fn spec_lines_to_forest(ls: Seq<LineV>) -> Seq<NodeV>
    decreases ls.len(),
{
    if ls.len() == 0 {
        Seq::<NodeV>::empty()
    } else {
        spec_merge_forest(spec_lines_to_forest(ls.drop_last()), spec_line_to_node(ls.last()))
    }
}

/// A line as the reader sees it: one trailing carriage return removed.
pub open spec fn spec_strip_cr(l: Seq<char>) -> Seq<char> {
    if l.len() > 0 && l.last() == '\r' {
        l.drop_last()
    } else {
        l
    }
}

/// The logical lines of raw text: split on line feeds, carriage returns
/// stripped.
pub open spec fn spec_lines_split(text: Seq<char>) -> Seq<Seq<char>> {
    spec_split(text, '\n').map_values(|l: Seq<char>| spec_strip_cr(l))
}

/// The tokenizer state after the first `k` lines, numbered from one.
pub open spec fn spec_tokenize(lines: Seq<Seq<char>>, d: char, k: int) -> (Seq<LineV>, Seq<char>)
    decreases k,
{
    if k <= 0 {
        (Seq::<LineV>::empty(), Seq::<char>::empty())
    } else {
        let prev = spec_tokenize(lines, d, k - 1);
        spec_process_line(prev.0, prev.1, lines[k - 1], k as u32, d)
    }
}

/// The records that raw properties text tokenizes to.
pub open spec fn spec_props_tokens(text: Seq<char>, d: char) -> Seq<LineV> {
    spec_tokenize(spec_lines_split(text), d, spec_lines_split(text).len() as int).0
}

/// The forest that raw properties text parses to.
pub open spec fn spec_props_parse(text: Seq<char>, d: char) -> Seq<NodeV> {
    spec_lines_to_forest(spec_props_tokens(text, d))
}

/// Law: merging the chains of two dotted keys that share their root segment
/// but end in different leaf segments yields one root with both leaves as
/// its children, whichever chain comes first — instantiating the segments
/// the other way round swaps only the child order.
pub proof fn lemma_merge_disjoint_keys(
    root: Seq<char>,
    k1: Seq<char>,
    k2: Seq<char>,
    v1: ValueV,
    v2: ValueV,
)
    requires
        k1 != k2,
    ensures
        ({
            let n1 = spec_chain(seq![root, k1], 0, 0, v1);
            let n2 = spec_chain(seq![root, k2], 0, 0, v2);
            let f = spec_merge_forest(spec_merge_forest(Seq::<NodeV>::empty(), n1), n2);
            f.len() == 1 && f[0].name == root && f[0].level == 0 && f[0].value == ValueV::NONE
                && f[0].children.len() == 2 && f[0].children[0] == spec_chain(
                seq![root, k1],
                1,
                1,
                v1,
            ) && f[0].children[1] == spec_chain(seq![root, k2], 1, 1, v2)
        }),
{
    let n1 = spec_chain(seq![root, k1], 0, 0, v1);
    let n2 = spec_chain(seq![root, k2], 0, 0, v2);
    let leaf1 = spec_chain(seq![root, k1], 1, 1, v1);
    let leaf2 = spec_chain(seq![root, k2], 1, 1, v2);
    let f1 = spec_merge_forest(Seq::<NodeV>::empty(), n1);
    assert(f1 =~= seq![n1]);
    let f = spec_merge_forest(f1, n2);
    assert(crate::node::same_key(f1[0], n2));
    assert(f =~= seq![crate::node::spec_merge_node(n1, n2)] + f1.drop_first());
    assert(f1.drop_first() =~= Seq::<NodeV>::empty());
    assert(n2.children == seq![leaf2]);
    assert(n2.children.len() == 1);
    assert(n1.children == seq![leaf1]);
    let merged = crate::node::spec_merge_node(n1, n2);
    assert(merged.children == spec_merge_forest(n1.children, n2.children[0]));
    assert(n2.children[0] == leaf2);
    assert(!crate::node::same_key(n1.children[0], leaf2));
    assert(spec_merge_forest(n1.children, leaf2) =~= seq![leaf1] + spec_merge_forest(
        n1.children.drop_first(),
        leaf2,
    ));
    assert(n1.children.drop_first() =~= Seq::<NodeV>::empty());
    assert(spec_merge_forest(Seq::<NodeV>::empty(), leaf2) =~= seq![leaf2]);
    assert(merged.children =~= seq![leaf1, leaf2]);
    assert(f =~= seq![merged]);
}

pub proof fn lemma_split_count(s: Seq<char>, c: char)
    ensures
        spec_split(s, c).len() <= s.len() + 1,
    decreases s.len(),
{
    crate::text::lemma_find_bounds(s, c, 0);
    let i = spec_find(s, c, 0);
    if 0 <= i < s.len() {
        lemma_split_count(s.skip(i + 1), c);
    }
}

/// Gathers key/value records out of raw properties text.
#[derive(Debug)]
pub struct PropertyFileReader {
    pub content: Vec<Line>,
    pub last_key: String,
}

proof fn lemma_lines_view(s: Seq<Line>)
    ensures
        lines_view(s).len() == s.len(),
        forall|i: int| 0 <= i < s.len() ==> lines_view(s)[i] == s[i]@,
{
}

proof fn lemma_key_index_bounds(content: Seq<LineV>, key: Seq<char>, i: int)
    requires
        0 <= i <= content.len(),
    ensures
        i <= spec_key_index_from(content, key, i) <= content.len(),
        spec_key_index_from(content, key, i) < content.len() ==> content[spec_key_index_from(
            content,
            key,
            i,
        )].key == key,
        forall|j: int| i <= j < spec_key_index_from(content, key, i) ==> content[j].key != key,
    decreases content.len() - i,
{
    if i < content.len() && content[i].key != key {
        lemma_key_index_bounds(content, key, i + 1);
    }
}

impl PropertyFileReader {
    /// A tokenizer with no records and no pending continuation.
    pub fn new() -> (r: PropertyFileReader)
        ensures
            lines_view(r.content@) == Seq::<LineV>::empty(),
            r.last_key@ == Seq::<char>::empty(),
    {
        let r = PropertyFileReader { content: Vec::new(), last_key: String::new() };
        proof {
            assert(lines_view(r.content@) =~= Seq::<LineV>::empty());
        }
        r
    }

    /// The first index of the record with the given key, if one exists.
    fn key_index(&self, key: &String) -> (r: Option<usize>)
        ensures
            match r {
                Some(i) => i == spec_key_index_from(lines_view(self.content@), key@, 0) && i
                    < self.content@.len(),
                None => spec_key_index_from(lines_view(self.content@), key@, 0)
                    == self.content@.len(),
            },
{
        proof {
            lemma_lines_view(self.content@);
        }
        let ghost cv = lines_view(self.content@);
        let n: usize = self.content.len();
        let mut i: usize = 0;
        while i < n
            invariant
                n == self.content@.len(),
                cv == lines_view(self.content@),
                cv.len() == n,
                forall|j: int| 0 <= j < n ==> cv[j] == self.content@[j]@,
                i <= n,
                spec_key_index_from(cv, key@, 0) == spec_key_index_from(cv, key@, i as int),
            decreases n - i,
        {
            if self.content[i].key.eq(key) {
                proof {
                    assert(cv[i as int].key == key@);
                    assert(spec_key_index_from(cv, key@, i as int) == i);
                }
                return Some(i);
            }
            proof {
                assert(cv[i as int].key != key@);
                assert(spec_key_index_from(cv, key@, i as int) == spec_key_index_from(
                    cv,
                    key@,
                    i + 1,
                ));
            }
            i = i + 1;
        }
        None
    }

    /// Whether a value ends in an odd number of backslashes, so that the
    /// next line belongs to it.
    pub fn is_multiline(&self, value: &str) -> (r: bool)
        ensures
            r == spec_is_continuation(value@),
    {
        let cs = str_to_chars(value);
        let mut counter: usize = 0;
        let n: usize = cs.len();
        proof {
            assert(value@.take(n as int) =~= value@);
        }
        while counter < n && cs[n - 1 - counter] == '\\'
            invariant
                n == value@.len(),
                cs@ == value@,
                counter <= n,
                spec_trailing_backslashes(value@) == counter + spec_trailing_backslashes(
                    value@.take(n - counter),
                ),
            decreases n - counter,
        {
            proof {
                let t = value@.take(n - counter);
                assert(t.last() == value@[n - 1 - counter]);
                assert(t.drop_last() =~= value@.take(n - counter - 1));
            }
            counter = counter + 1;
        }
        proof {
            let t = value@.take(n - counter);
            if counter < n {
                assert(t.last() == value@[n - 1 - counter]);
            }
            assert(spec_trailing_backslashes(t) == 0);
        }
        counter % 2 == 1
    }

    fn consider_multiline(&self) -> (r: bool)
        ensures
            r == (self.last_key@.len() > 0),
    {
        !self.last_key.as_str().is_empty()
    }

    /// Stores one record, overwriting any earlier record of the same key.
    fn add(&mut self, key: &str, value: &str, line_number: u32)
        ensures
            lines_view(final(self).content@) == spec_upsert(
                lines_view(old(self).content@),
                LineV {
                    key: spec_trim_end(key@),
                    value: spec_trim_start(value@),
                    line_number,
                },
            ),
            final(self).last_key@ == old(self).last_key@,
    {
        let line = Line::new(key, value, line_number);
        proof {
            lemma_lines_view(self.content@);
        }
        let ghost cv = lines_view(self.content@);
        match self.key_index(&line.key) {
            Some(i) => {
                self.content.set(i, line);
                proof {
                    lemma_lines_view(self.content@);
                    assert(lines_view(self.content@) =~= spec_upsert(cv, line@));
                }
            },
            None => {
                self.content.push(line);
                proof {
                    lemma_lines_view(self.content@);
                    assert(lines_view(self.content@) =~= spec_upsert(cv, line@));
                }
            },
        }
    }

    /// Appends a continuation line to the pending record and re-evaluates
    /// whether the value still continues.
    fn add_multiline(&mut self, line: &String)
        requires
            spec_contains_key(lines_view(old(self).content@), old(self).last_key@),
        ensures
            ({
                let cv = lines_view(old(self).content@);
                let i = spec_key_index_from(cv, old(self).last_key@, 0);
                let joined = spec_add_multiline(cv[i], line@);
                lines_view(final(self).content@) == cv.update(i, joined)
                    && final(self).last_key@ == (if spec_is_continuation(joined.value) {
                    old(self).last_key@
                } else {
                    Seq::<char>::empty()
                })
            }),
    {
        proof {
            lemma_lines_view(self.content@);
        }
        let ghost cv = lines_view(self.content@);
        let last_key = self.last_key.clone();
        match self.key_index(&last_key) {
            Some(i) => {
                let mut previous = self.content[i].clone();
                previous.add_multiline(line.as_str());
                let still = self.is_multiline(previous.value.as_str());
                self.content.set(i, previous);
                if !still {
                    self.last_key = String::new();
                }
                proof {
                    lemma_lines_view(self.content@);
                    let joined = spec_add_multiline(cv[i as int], line@);
                    assert(lines_view(self.content@) =~= cv.update(i as int, joined));
                }
            },
            None => {
                proof {
                    assert(false);
                }
            },
        }
    }

    /// Feeds one raw line through the tokenizer; see `spec_process_line`.
    pub fn process_line(&mut self, line: String, line_number: u32, delimiter: &Delimiter)
        ensures
            ({
                let r = spec_process_line(
                    lines_view(old(self).content@),
                    old(self).last_key@,
                    line@,
                    line_number,
                    spec_delim(*delimiter),
                );
                lines_view(final(self).content@) == r.0 && final(self).last_key@ == r.1
            }),
    {
        let cs = str_to_chars(line.as_str());
        if cs.len() == 0 {
            return;
        }
        if !self.consider_multiline() && (cs[0] == '#' || cs[0] == '!') {
            return;
        }
        let d = delimiter.value();
        proof {
            crate::text::lemma_find_bounds(line@, spec_delim(*delimiter), 0);
        }
        let n: usize = cs.len();
        let (key, value, found) = match crate::text::find_char(&cs, d) {
            Some(idx) => {
                let k = sub_chars(&cs, 0, idx);
                let v = sub_chars(&cs, idx + 1, n);
                proof {
                    assert(k@ =~= line@.take(idx as int));
                    assert(v@ =~= line@.skip(idx + 1));
                }
                (k, v, true)
            },
            None => (Vec::<char>::new(), Vec::<char>::new(), false),
        };
        let key_s = chars_to_string(&key);
        let value_s = chars_to_string(&value);
        if key.len() == 0 {
            let ghost cv = lines_view(self.content@);
            let last_key = self.last_key.clone();
            match self.key_index(&last_key) {
                Some(_) => {
                    self.add_multiline(&line);
                    return;
                },
                None => {
                    self.add(line.as_str(), value_s.as_str(), line_number);
                    return;
                },
            }
        }
        if self.is_multiline(value_s.as_str()) {
            let trimmed = crate::text::trim_end_chars(&key);
            self.last_key = chars_to_string(&trimmed);
        }
        self.add(key_s.as_str(), value_s.as_str(), line_number);
    }

    /// Tokenizes the raw text and merges every record's dotted key into a
    /// forest; properties parsing itself never fails.
    pub fn parse(content: &str, delimiter: &Delimiter) -> (r: Result<Nodes, ProconError>)
        requires
            content@.len() < 0xFFFF_FFFE,
        ensures
            r is Ok,
            r matches Ok(nodes) ==> nodes@ == spec_props_parse(content@, spec_delim(*delimiter)),
    {
        let cs = str_to_chars(content);
        let raw_lines = split_chars(&cs, '\n');
        let ghost lv = spec_lines_split(content@);
        proof {
            lemma_split_count(content@, '\n');
            assert(lv.len() == raw_lines@.len());
        }
        let mut config = PropertyFileReader::new();
        let mut i: usize = 0;
        let n: usize = raw_lines.len();
        while i < n
            invariant
                n == raw_lines@.len(),
                n < 0xFFFF_FFFF,
                i <= n,
                chars_seqs_view(raw_lines@) == spec_split(content@, '\n'),
                lv == spec_lines_split(content@),
                lv.len() == n,
                ({
                    let st = spec_tokenize(lv, spec_delim(*delimiter), i as int);
                    lines_view(config.content@) == st.0 && config.last_key@ == st.1
                }),
            decreases n - i,
        {
            let raw = &raw_lines[i];
            let m: usize = raw.len();
            let line = if m > 0 && raw[m - 1] == '\r' {
                sub_chars(raw, 0, m - 1)
            } else {
                sub_chars(raw, 0, m)
            };
            proof {
                assert(raw@ =~= chars_seqs_view(raw_lines@)[i as int]);
                if m > 0 && raw@[m - 1] == '\r' {
                    assert(line@ =~= spec_strip_cr(raw@));
                } else {
                    assert(line@ =~= raw@);
                }
                assert(lv[i as int] == spec_strip_cr(chars_seqs_view(raw_lines@)[i as int]));
            }
            let line_s = chars_to_string(&line);
            let num: u32 = (i as u32) + 1;
            config.process_line(line_s, num, delimiter);
            i = i + 1;
        }
        Ok(Self::convert_property_to_nodes(&config))
    }

    /// Builds a chain per dotted key and merges each into the forest, in
    /// record order.
    fn convert_property_to_nodes(config: &PropertyFileReader) -> (r: Nodes)
        ensures
            r@ == spec_lines_to_forest(lines_view(config.content@)),
    {
        proof {
            lemma_lines_view(config.content@);
        }
        let ghost ls = lines_view(config.content@);
        let mut nodes = Nodes::new();
        let mut i: usize = 0;
        let n: usize = config.content.len();
        proof {
            assert(ls.take(0) =~= Seq::<LineV>::empty());
        }
        while i < n
            invariant
                n == config.content@.len(),
                i <= n,
                ls == lines_view(config.content@),
                ls.len() == n,
                forall|j: int| 0 <= j < n ==> ls[j] == config.content@[j]@,
                nodes@ == spec_lines_to_forest(ls.take(i as int)),
            decreases n - i,
        {
            let line = &config.content[i];
            let key_chars = str_to_chars(line.key.as_str());
            let parts = split_chars(&key_chars, '.');
            let pn: usize = parts.len();
            proof {
                lemma_split_count(line.key@, '.');
                assert(chars_seqs_view(parts@).len() >= 1);
                assert(parts@.len() == pn);
            }
            let mut new_node = Self::build_chain(&parts, 0, 0, line.value.as_str());
            nodes.merge(&mut new_node);
            i = i + 1;
            proof {
                assert(ls.take(i as int).drop_last() =~= ls.take(i - 1));
                assert(ls.take(i as int).last() == ls[i - 1]);
            }
        }
        proof {
            assert(ls.take(n as int) =~= ls);
        }
        nodes
    }

    /// The chain for the segments of `parts` from `i` on, rooted at depth
    /// `lvl`, carrying the parsed value at its leaf.
    fn build_chain(parts: &Vec<Vec<char>>, i: usize, lvl: usize, value: &str) -> (r: Node)
        requires
            i < parts@.len(),
            lvl + parts@.len() - i <= usize::MAX,
        ensures
            r@ == spec_chain(chars_seqs_view(parts@), i as int, lvl as int, spec_parse_value(
                value@,
            )),
        decreases parts@.len() - i,
    {
        let name = chars_to_string(&parts[i]);
        let n: usize = parts.len();
        proof {
            assert(chars_seqs_view(parts@)[i as int] == parts@[i as int]@);
        }
        if i < n - 1 {
            let child = Self::build_chain(parts, i + 1, lvl + 1, value);
            let mut kids: Vec<Node> = Vec::new();
            kids.push(child);
            let r = Node { level: lvl, children: kids, name, value: NodeType::NONE };
            proof {
                crate::node::lemma_nodes_view(r.children@);
                assert(r.children@[0] == child);
                assert(node_view(r).children =~= seq![
                    spec_chain(
                        chars_seqs_view(parts@),
                        i + 1,
                        lvl + 1,
                        spec_parse_value(value@),
                    ),
                ]);
            }
            r
        } else {
            let r = Node {
                level: lvl,
                children: Vec::new(),
                name,
                value: NodeType::parse(value),
            };
            proof {
                assert(node_view(r).children =~= Seq::<NodeV>::empty());
            }
            r
        }
    }

    /// Appends under `node` the chain that the given key segments build,
    /// starting at depth one; the last segment carries the parsed value.
    pub fn create_child_nodes(node: &mut Node, parts: &Vec<&str>, value: &str)
        requires
            old(node).children@.len() < usize::MAX,
            parts@.len() < usize::MAX,
        ensures
            parts@.len() == 0 ==> final(node)@ == old(node)@,
            parts@.len() > 0 ==> final(node)@ == (NodeV {
                children: old(node)@.children.push(
                    spec_chain(str_refs_view(parts@), 0, 1, spec_parse_value(value@)),
                ),
                ..old(node)@
            }),
    {
        if parts.len() == 0 {
            return;
        }
        let mut seg_vecs: Vec<Vec<char>> = Vec::new();
        let mut i: usize = 0;
        proof {
            assert(chars_seqs_view(seg_vecs@) =~= str_refs_view(parts@).take(0));
        }
        while i < parts.len()
            invariant
                i <= parts@.len(),
                seg_vecs@.len() == i,
                forall|j: int| 0 <= j < i ==> (#[trigger] seg_vecs@[j])@ == parts@[j]@,
            decreases parts@.len() - i,
        {
            seg_vecs.push(str_to_chars(parts[i]));
            i = i + 1;
        }
        proof {
            assert(chars_seqs_view(seg_vecs@) =~= str_refs_view(parts@));
        }
        proof {
            assert(str_refs_view(parts@).take(parts@.len() as int) =~= str_refs_view(parts@));
        }
        let chain = Self::build_chain(&seg_vecs, 0, 1, value);
        proof {
            crate::node::lemma_nodes_view(node.children@);
        }
        let ghost before = node_view(*node);
        node.children.push(chain);
        proof {
            crate::node::lemma_nodes_view(node.children@);
            assert forall|j: int| 0 <= j < node.children@.len() implies crate::node::nodes_view(
                node.children@,
            )[j] == before.children.push(
                spec_chain(str_refs_view(parts@), 0, 1, spec_parse_value(value@)),
            )[j] by {
                if j < before.children.len() {
                    assert(node.children@[j] == old(node).children@[j]);
                }
            }
            assert(crate::node::nodes_view(node.children@) =~= before.children.push(
                spec_chain(str_refs_view(parts@), 0, 1, spec_parse_value(value@)),
            ));
        }
    }
}

/// The views of a sequence of string slices.
pub open spec fn str_refs_view(v: Seq<&str>) -> Seq<Seq<char>> {
    v.map_values(|s: &str| s@)
}

} // verus!
