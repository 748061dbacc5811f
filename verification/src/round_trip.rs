//! The round-trip law for the properties format: writing a well-formed
//! forest as properties text and tokenizing that text back rebuilds the very
//! same forest. The conditions carve out exactly what the line format can
//! carry: dot-free non-empty names, values whose rendered text re-parses to
//! the same value, and no text that the tokenizer would treat as a comment,
//! a continuation or a line break.
use crate::line::LineV;
use crate::node::same_key;
use crate::node::spec_merge_forest;
use crate::node::spec_merge_node;
use crate::node::spec_parse_value;
use crate::node::spec_render;
use crate::node::NodeV;
use crate::node::ValueV;
use crate::nodes_writer::spec_children_props;
use crate::nodes_writer::spec_full_path;
use crate::nodes_writer::spec_node_props;
use crate::nodes_writer::spec_props_write;
use crate::property_file_reader::spec_chain;
use crate::property_file_reader::spec_is_continuation;
use crate::text::spec_contains;
use crate::text::spec_find;
use crate::text::spec_is_space;
use crate::text::spec_split;
use crate::text::spec_trim_end;
use crate::text::spec_trim_start;
use vstd::prelude::*;

verus! {

/// A name the properties line format can carry in a dotted path.
pub open spec fn rt_name(s: Seq<char>) -> bool {
    s.len() > 0 && !spec_contains(s, '.') && !spec_contains(s, '=') && !spec_contains(s, '\n')
        && spec_trim_end(s) == s
}

/// A leaf value whose rendered text survives the trip through one line:
/// it re-parses to itself, spans no second line, keeps its leading edge and
/// does not read as a continuation.
pub open spec fn rt_value(v: ValueV) -> bool {
    let r = spec_render(v);
    !(v is NONE) && spec_parse_value(r) == v && !spec_contains(r, '\n') && spec_trim_start(r) == r
        && !spec_is_continuation(r) && (r.len() == 0 || r.last() != '\r')
}

/// No two siblings share a name.
pub open spec fn distinct_names(cs: Seq<NodeV>) -> bool {
    forall|i: int, j: int| 0 <= i < j < cs.len() ==> cs[i].name != cs[j].name
}

/// A subtree the properties format can carry at depth `lvl`: consistent
/// levels, carrying names, a value exactly at each leaf, and distinct
/// sibling names throughout.
pub open spec fn rt_node(n: NodeV, lvl: int) -> bool
    decreases n, 1int,
{
    rt_name(n.name) && n.level == lvl && (if n.children.len() == 0 {
        rt_value(n.value)
    } else {
        n.value is NONE && distinct_names(n.children) && rt_children(n.children, lvl + 1)
    })
}

pub open spec fn rt_children(cs: Seq<NodeV>, lvl: int) -> bool
    decreases cs, 0int,
{
    if cs.len() == 0 {
        true
    } else {
        rt_node(cs[0], lvl) && rt_children(cs.drop_first(), lvl)
    }
}

/// A forest the properties format can carry: well-formed roots with
/// distinct names, none of which starts a line that reads as a comment.
pub open spec fn rt_forest(roots: Seq<NodeV>) -> bool {
    rt_children(roots, 0) && distinct_names(roots) && (forall|i: int|
        0 <= i < roots.len() ==> (#[trigger] roots[i]).name[0] != '#' && roots[i].name[0] != '!')
}

pub proof fn lemma_rt_children_index(cs: Seq<NodeV>, lvl: int, i: int)
    requires
        rt_children(cs, lvl),
        0 <= i < cs.len(),
    ensures
        rt_node(cs[i], lvl),
    decreases cs,
{
    if i > 0 {
        assert(cs.drop_first()[i - 1] == cs[i]);
        lemma_rt_children_index(cs.drop_first(), lvl, i - 1);
    }
}

/// One written leaf: the segments of its dotted path from the root, and its
/// value.
pub struct Record {
    pub segs: Seq<Seq<char>>,
    pub value: ValueV,
}

/// The leaf records of one subtree, pre-order, under the ancestor segments
/// `pre`.
pub open spec fn node_records(n: NodeV, pre: Seq<Seq<char>>) -> Seq<Record>
    decreases n, 1int,
{
    if n.children.len() == 0 {
        seq![Record { segs: pre.push(n.name), value: n.value }]
    } else {
        children_records(n.children, pre.push(n.name))
    }
}

pub open spec fn children_records(cs: Seq<NodeV>, pre: Seq<Seq<char>>) -> Seq<Record>
    decreases cs, 0int,
{
    if cs.len() == 0 {
        Seq::<Record>::empty()
    } else {
        node_records(cs[0], pre) + children_records(cs.drop_first(), pre)
    }
}

/// The leaf records of a whole forest, root by root.
pub open spec fn forest_records(roots: Seq<NodeV>) -> Seq<Record>
    decreases roots,
{
    if roots.len() == 0 {
        Seq::<Record>::empty()
    } else {
        node_records(roots[0], Seq::<Seq<char>>::empty()) + forest_records(roots.drop_first())
    }
}

/// The dotted join of path segments.
pub open spec fn join_dots(segs: Seq<Seq<char>>) -> Seq<char>
    decreases segs.len(),
{
    if segs.len() == 0 {
        Seq::<char>::empty()
    } else if segs.len() == 1 {
        segs[0]
    } else {
        segs[0] + seq!['.'] + join_dots(segs.drop_first())
    }
}

/// One record's written line, without its line feed.
pub open spec fn record_line(r: Record) -> Seq<char> {
    join_dots(r.segs) + seq!['='] + spec_render(r.value)
}

/// The full written text of a record list.
pub open spec fn records_text(rs: Seq<Record>) -> Seq<char>
    decreases rs.len(),
{
    if rs.len() == 0 {
        Seq::<char>::empty()
    } else {
        records_text(rs.drop_last()) + record_line(rs.last()) + seq!['\n']
    }
}

proof fn lemma_records_text_append(a: Seq<Record>, b: Seq<Record>)
    ensures
        records_text(a + b) == records_text(a) + records_text(b),
    decreases b.len(),
{
    if b.len() == 0 {
        assert(a + b =~= a);
        assert(records_text(a) + records_text(b) =~= records_text(a));
    } else {
        lemma_records_text_append(a, b.drop_last());
        assert((a + b).drop_last() =~= a + b.drop_last());
        assert((a + b).last() == b.last());
        assert(records_text(a) + records_text(b) =~= records_text(a) + (records_text(
            b.drop_last(),
        ) + record_line(b.last()) + seq!['\n']));
    }
}

/// Appending one segment to a non-empty segment list extends its join with
/// a dot.
proof fn lemma_join_push(segs: Seq<Seq<char>>, s: Seq<char>)
    ensures
        segs.len() == 0 ==> join_dots(segs.push(s)) == s,
        segs.len() > 0 ==> join_dots(segs.push(s)) == join_dots(segs) + seq!['.'] + s,
    decreases segs.len(),
{
    if segs.len() == 0 {
        assert(join_dots(segs.push(s)) == segs.push(s)[0]);
        assert(segs.push(s)[0] == s);
    } else {
        lemma_join_push(segs.drop_first(), s);
        assert(segs.push(s).drop_first() =~= segs.drop_first().push(s));
        assert(segs.push(s)[0] == segs[0]);
        if segs.len() == 1 {
            assert(join_dots(segs) == segs[0]);
            assert(join_dots(segs.push(s)) =~= join_dots(segs) + seq!['.'] + s);
        } else {
            assert(join_dots(segs.push(s)) =~= join_dots(segs) + seq!['.'] + s);
        }
    }
}

/// The written properties text of a subtree is exactly its records' lines,
/// provided the accumulated path equals the join of the accumulated
/// segments.
proof fn lemma_write_records_node(n: NodeV, pre: Seq<Seq<char>>, lvl: int)
    requires
        rt_node(n, lvl),
        pre.len() == 0 || join_dots(pre).len() > 0,
    ensures
        spec_node_props(n, join_dots(pre)) == records_text(node_records(n, pre)),
    decreases n, 1int,
{
    lemma_join_push(pre, n.name);
    let full_segs = pre.push(n.name);
    assert(join_dots(full_segs) == spec_full_path(join_dots(pre), n.name)) by {
        if pre.len() == 0 {
            assert(join_dots(pre) =~= Seq::<char>::empty());
        }
    }
    assert(join_dots(full_segs).len() > 0);
    if n.children.len() == 0 {
        let r = Record { segs: full_segs, value: n.value };
        let rs = seq![r];
        assert(rs.drop_last() =~= Seq::<Record>::empty());
        assert(rs.last() == r);
        assert(records_text(Seq::<Record>::empty()) == Seq::<char>::empty());
        assert(records_text(rs) == records_text(rs.drop_last()) + record_line(rs.last())
            + seq!['\n']);
        assert(Seq::<char>::empty() + record_line(r) =~= record_line(r));
        assert(!(n.value is NONE));
        assert(spec_node_props(n, join_dots(pre)) == join_dots(full_segs) + seq!['=']
            + spec_render(n.value) + seq!['\n']);
        assert(record_line(r) + seq!['\n'] =~= join_dots(full_segs) + seq!['='] + spec_render(
            n.value,
        ) + seq!['\n']);
    } else {
        lemma_write_records_children(n.children, full_segs, lvl + 1);
    }
}

proof fn lemma_write_records_children(cs: Seq<NodeV>, pre: Seq<Seq<char>>, lvl: int)
    requires
        rt_children(cs, lvl),
        join_dots(pre).len() > 0,
    ensures
        spec_children_props(cs, join_dots(pre)) == records_text(children_records(cs, pre)),
    decreases cs, 0int,
{
    if cs.len() == 0 {
        assert(records_text(children_records(cs, pre)) == Seq::<char>::empty());
    } else {
        lemma_write_records_node(cs[0], pre, lvl);
        lemma_write_records_children(cs.drop_first(), pre, lvl);
        lemma_records_text_append(
            node_records(cs[0], pre),
            children_records(cs.drop_first(), pre),
        );
    }
}

/// The whole forest's written text is its records' lines.
pub proof fn lemma_write_records_forest(roots: Seq<NodeV>)
    requires
        rt_children(roots, 0),
    ensures
        spec_props_write(roots) == records_text(forest_records(roots)),
    decreases roots.len(),
{
    if roots.len() == 0 {
    } else {
        let front = roots.drop_last();
        assert(rt_children(front, 0)) by {
            lemma_rt_children_drop_last(roots, 0);
        }
        lemma_write_records_forest(front);
        lemma_rt_children_index(roots, 0, roots.len() - 1);
        lemma_write_records_node(roots.last(), Seq::<Seq<char>>::empty(), 0);
        lemma_forest_records_snoc(roots);
        lemma_records_text_append(
            forest_records(front),
            node_records(roots.last(), Seq::<Seq<char>>::empty()),
        );
    }
}

proof fn lemma_rt_children_drop_last(cs: Seq<NodeV>, lvl: int)
    requires
        rt_children(cs, lvl),
        cs.len() > 0,
    ensures
        rt_children(cs.drop_last(), lvl),
    decreases cs.len(),
{
    if cs.len() > 1 {
        lemma_rt_children_drop_last(cs.drop_first(), lvl);
        assert(cs.drop_last()[0] == cs[0]);
        assert(cs.drop_last().drop_first() =~= cs.drop_first().drop_last());
    } else {
        assert(cs.drop_last() =~= Seq::<NodeV>::empty());
    }
}

proof fn lemma_forest_records_snoc(roots: Seq<NodeV>)
    requires
        roots.len() > 0,
    ensures
        forest_records(roots) == forest_records(roots.drop_last()) + node_records(
            roots.last(),
            Seq::<Seq<char>>::empty(),
        ),
    decreases roots.len(),
{
    if roots.len() == 1 {
        assert(forest_records(roots.drop_last()) =~= Seq::<Record>::empty());
        assert(roots[0] == roots.last());
        assert(forest_records(roots.drop_first()) =~= Seq::<Record>::empty());
        assert(forest_records(roots) =~= node_records(roots[0], Seq::<Seq<char>>::empty()));
        assert(forest_records(roots.drop_last()) + node_records(
            roots.last(),
            Seq::<Seq<char>>::empty(),
        ) =~= node_records(roots[0], Seq::<Seq<char>>::empty()));
    } else {
        lemma_forest_records_snoc(roots.drop_first());
        assert(roots.drop_first().drop_last() =~= roots.drop_last().drop_first());
        assert(roots.drop_first().last() == roots.last());
        assert(roots.drop_last()[0] == roots[0]);
        assert(forest_records(roots) =~= node_records(roots[0], Seq::<Seq<char>>::empty())
            + forest_records(roots.drop_first()));
        assert(forest_records(roots.drop_last()) == node_records(
            roots[0],
            Seq::<Seq<char>>::empty(),
        ) + forest_records(roots.drop_last().drop_first()));
        assert(forest_records(roots.drop_last()) + node_records(
            roots.last(),
            Seq::<Seq<char>>::empty(),
        ) =~= node_records(roots[0], Seq::<Seq<char>>::empty()) + (forest_records(
            roots.drop_last().drop_first(),
        ) + node_records(roots.last(), Seq::<Seq<char>>::empty())));
        assert(forest_records(roots) =~= forest_records(roots.drop_last()) + node_records(
            roots.last(),
            Seq::<Seq<char>>::empty(),
        ));
    }
}

/// Every segment of a record is a carrying name and its value survives one
/// line.
pub open spec fn clean_record(r: Record) -> bool {
    r.segs.len() > 0 && (forall|k: int| 0 <= k < r.segs.len() ==> rt_name(#[trigger] r.segs[k]))
        && rt_value(r.value)
}

/// What holds of every leaf record of a well-formed subtree under ancestor
/// segments `pre`.
pub proof fn lemma_node_records_facts(n: NodeV, pre: Seq<Seq<char>>, lvl: int)
    requires
        rt_node(n, lvl),
        forall|k: int| 0 <= k < pre.len() ==> rt_name(#[trigger] pre[k]),
    ensures
        node_records(n, pre).len() >= 1,
        forall|i: int|
            0 <= i < node_records(n, pre).len() ==> {
                let r = #[trigger] node_records(n, pre)[i];
                clean_record(r) && r.segs.len() > pre.len() && r.segs.take(pre.len() as int)
                    == pre && r.segs[pre.len() as int] == n.name && (n.children.len() > 0
                    ==> r.segs.len() > pre.len() + 1)
            },
        forall|i: int, j: int|
            0 <= i < j < node_records(n, pre).len() ==> node_records(n, pre)[i].segs
                != node_records(n, pre)[j].segs,
    decreases n, 1int,
{
    let full = pre.push(n.name);
    if n.children.len() == 0 {
        let r = Record { segs: full, value: n.value };
        assert(node_records(n, pre)[0] == r);
        assert(full.take(pre.len() as int) =~= pre);
        assert(forall|k: int| 0 <= k < full.len() ==> rt_name(#[trigger] full[k])) by {
            assert(forall|k: int| 0 <= k < pre.len() ==> full[k] == pre[k]);
            assert(full[pre.len() as int] == n.name);
        }
    } else {
        assert(forall|k: int| 0 <= k < full.len() ==> rt_name(#[trigger] full[k])) by {
            assert(forall|k: int| 0 <= k < pre.len() ==> full[k] == pre[k]);
            assert(full[pre.len() as int] == n.name);
        }
        lemma_children_records_facts(n.children, full, lvl + 1);
        assert forall|i: int| 0 <= i < node_records(n, pre).len() implies {
            let r = #[trigger] node_records(n, pre)[i];
            clean_record(r) && r.segs.len() > pre.len() && r.segs.take(pre.len() as int) == pre
                && r.segs[pre.len() as int] == n.name && (n.children.len() > 0 ==> r.segs.len()
                > pre.len() + 1)
        } by {
            let r = node_records(n, pre)[i];
            assert(r == children_records(n.children, full)[i]);
            assert(r.segs.take(full.len() as int) == full);
            assert(r.segs.take(pre.len() as int) =~= pre) by {
                assert(forall|k: int|
                    0 <= k < pre.len() ==> r.segs.take(full.len() as int)[k] == r.segs[k]);
            }
            assert(r.segs[pre.len() as int] == r.segs.take(full.len() as int)[pre.len() as int]);
        }
    }
}

/// What holds of every leaf record of a well-formed sibling list, and that
/// records of different siblings never share a path.
pub proof fn lemma_children_records_facts(cs: Seq<NodeV>, pre: Seq<Seq<char>>, lvl: int)
    requires
        rt_children(cs, lvl),
        distinct_names(cs),
        pre.len() > 0,
        forall|k: int| 0 <= k < pre.len() ==> rt_name(#[trigger] pre[k]),
    ensures
        children_records(cs, pre).len() >= cs.len(),
        forall|i: int|
            0 <= i < children_records(cs, pre).len() ==> {
                let r = #[trigger] children_records(cs, pre)[i];
                clean_record(r) && r.segs.len() > pre.len() && r.segs.take(pre.len() as int)
                    == pre && (exists|k: int|
                    0 <= k < cs.len() && r.segs[pre.len() as int] == cs[k].name)
            },
        forall|i: int, j: int|
            0 <= i < j < children_records(cs, pre).len() ==> children_records(cs, pre)[i].segs
                != children_records(cs, pre)[j].segs,
    decreases cs, 0int,
{
    if cs.len() == 0 {
    } else {
        let group = node_records(cs[0], pre);
        let rest = children_records(cs.drop_first(), pre);
        lemma_node_records_facts(cs[0], pre, lvl);
        assert(distinct_names(cs.drop_first())) by {
            assert(forall|i: int, j: int|
                0 <= i < j < cs.drop_first().len() ==> cs.drop_first()[i] == cs[i + 1]
                    && cs.drop_first()[j] == cs[j + 1]);
        }
        lemma_children_records_facts(cs.drop_first(), pre, lvl);
        let whole = children_records(cs, pre);
        assert(whole == group + rest);
        assert forall|i: int| 0 <= i < whole.len() implies {
            let r = #[trigger] whole[i];
            clean_record(r) && r.segs.len() > pre.len() && r.segs.take(pre.len() as int) == pre
                && (exists|k: int| 0 <= k < cs.len() && r.segs[pre.len() as int] == cs[k].name)
        } by {
            if i < group.len() {
                assert(whole[i] == group[i]);
                assert(whole[i].segs[pre.len() as int] == cs[0].name);
            } else {
                assert(whole[i] == rest[i - group.len()]);
                let k = choose|k: int|
                    0 <= k < cs.drop_first().len() && rest[i - group.len()].segs[pre.len() as int]
                        == cs.drop_first()[k].name;
                assert(cs.drop_first()[k] == cs[k + 1]);
                assert(whole[i].segs[pre.len() as int] == cs[k + 1].name);
            }
        }
        assert forall|i: int, j: int| 0 <= i < j < whole.len() implies whole[i].segs
            != whole[j].segs by {
            if j < group.len() {
                assert(whole[i] == group[i] && whole[j] == group[j]);
            } else if i >= group.len() {
                assert(whole[i] == rest[i - group.len()] && whole[j] == rest[j - group.len()]);
            } else {
                assert(whole[i] == group[i]);
                assert(whole[j] == rest[j - group.len()]);
                assert(whole[i].segs[pre.len() as int] == cs[0].name);
                let k = choose|k: int|
                    0 <= k < cs.drop_first().len() && rest[j - group.len()].segs[pre.len() as int]
                        == cs.drop_first()[k].name;
                assert(cs.drop_first()[k] == cs[k + 1]);
                assert(whole[j].segs[pre.len() as int] == cs[k + 1].name);
                assert(cs[0].name != cs[k + 1].name);
            }
        }
    }
}

/// What holds of every record of a well-formed forest: clean, starting with
/// its root's name, and pairwise distinct paths.
pub proof fn lemma_forest_records_facts(roots: Seq<NodeV>)
    requires
        rt_forest(roots),
    ensures
        forall|i: int|
            0 <= i < forest_records(roots).len() ==> {
                let r = #[trigger] forest_records(roots)[i];
                clean_record(r) && r.segs.len() >= 1 && r.segs[0][0] != '#' && r.segs[0][0] != '!'
            },
        forall|i: int, j: int|
            0 <= i < j < forest_records(roots).len() ==> forest_records(roots)[i].segs
                != forest_records(roots)[j].segs,
    decreases roots.len(),
{
    if roots.len() > 0 {
        let group = node_records(roots[0], Seq::<Seq<char>>::empty());
        let rest = forest_records(roots.drop_first());
        lemma_node_records_facts(roots[0], Seq::<Seq<char>>::empty(), 0);
        assert(rt_forest(roots.drop_first())) by {
            assert(forall|i: int, j: int|
                0 <= i < j < roots.drop_first().len() ==> roots.drop_first()[i] == roots[i + 1]
                    && roots.drop_first()[j] == roots[j + 1]);
            assert(forall|i: int|
                0 <= i < roots.drop_first().len() ==> #[trigger] roots.drop_first()[i] == roots[i
                    + 1]);
        }
        lemma_forest_records_facts(roots.drop_first());
        let whole = forest_records(roots);
        assert(whole == group + rest);
        assert forall|i: int| 0 <= i < whole.len() implies {
            let r = #[trigger] whole[i];
            clean_record(r) && r.segs.len() >= 1 && r.segs[0][0] != '#' && r.segs[0][0] != '!'
        } by {
            if i < group.len() {
                assert(whole[i] == group[i]);
                assert(group[i].segs[0] == roots[0].name) by {
                    assert(group[i].segs.take(0) =~= Seq::<Seq<char>>::empty());
                }
                assert(roots[0].name[0] != '#' && roots[0].name[0] != '!');
            } else {
                assert(whole[i] == rest[i - group.len()]);
            }
        }
        assert forall|i: int, j: int| 0 <= i < j < whole.len() implies whole[i].segs
            != whole[j].segs by {
            if j < group.len() {
                assert(whole[i] == group[i] && whole[j] == group[j]);
            } else if i >= group.len() {
                assert(whole[i] == rest[i - group.len()] && whole[j] == rest[j - group.len()]);
            } else {
                assert(whole[i] == group[i]);
                assert(whole[j] == rest[j - group.len()]);
                assert(group[i].segs[0] == roots[0].name);
                lemma_forest_record_root_name(roots.drop_first(), j - group.len());
                let k = choose|k: int|
                    0 <= k < roots.drop_first().len() && rest[j - group.len()].segs[0]
                        == roots.drop_first()[k].name;
                assert(roots.drop_first()[k] == roots[k + 1]);
                assert(roots[0].name != roots[k + 1].name);
            }
        }
    }
}

pub proof fn lemma_find_at_from(s: Seq<char>, c: char, m: int, i: int)
    requires
        0 <= m <= i < s.len(),
        s[i] == c,
        forall|j: int| m <= j < i ==> s[j] != c,
    ensures
        spec_find(s, c, m) == i,
    decreases i - m,
{
    if m < i {
        lemma_find_at_from(s, c, m + 1, i);
    }
}

/// A character occurs exactly when some position holds it.
pub proof fn lemma_contains_iff(s: Seq<char>, c: char)
    ensures
        spec_contains(s, c) <==> exists|i: int| 0 <= i < s.len() && s[i] == c,
{
    crate::text::lemma_find_bounds(s, c, 0);
    if exists|i: int| 0 <= i < s.len() && s[i] == c {
        let i = choose|i: int| 0 <= i < s.len() && s[i] == c;
        if !spec_contains(s, c) {
            assert(s[i] != c);
        }
    }
}

proof fn lemma_trim_end_len(s: Seq<char>)
    ensures
        spec_trim_end(s).len() <= s.len(),
    decreases s.len(),
{
    if s.len() > 0 && spec_is_space(s.last()) {
        lemma_trim_end_len(s.drop_last());
    }
}

/// Trimming changes nothing exactly when the last character is no
/// whitespace.
pub proof fn lemma_trim_end_stable(s: Seq<char>)
    ensures
        (spec_trim_end(s) == s) <==> (s.len() == 0 || !spec_is_space(s.last())),
{
    if s.len() > 0 && spec_is_space(s.last()) {
        lemma_trim_end_len(s.drop_last());
    }
}

/// The join of carrying names: non-empty, free of separators, stable under
/// trimming, starting and ending as its first and last segments do.
pub proof fn lemma_join_clean(segs: Seq<Seq<char>>)
    requires
        segs.len() > 0,
        forall|k: int| 0 <= k < segs.len() ==> rt_name(#[trigger] segs[k]),
    ensures
        join_dots(segs).len() > 0,
        !spec_contains(join_dots(segs), '='),
        !spec_contains(join_dots(segs), '\n'),
        join_dots(segs)[0] == segs[0][0],
        join_dots(segs).last() == segs.last().last(),
        spec_trim_end(join_dots(segs)) == join_dots(segs),
    decreases segs.len(),
{
    let j = join_dots(segs);
    if segs.len() == 1 {
        assert(j == segs[0]);
        lemma_trim_end_stable(segs[0]);
    } else {
        lemma_join_clean(segs.drop_first());
        let rest = join_dots(segs.drop_first());
        assert(j == segs[0] + seq!['.'] + rest);
        lemma_contains_iff(j, '=');
        lemma_contains_iff(segs[0], '=');
        lemma_contains_iff(rest, '=');
        assert(!(exists|i: int| 0 <= i < j.len() && j[i] == '=')) by {
            if exists|i: int| 0 <= i < j.len() && j[i] == '=' {
                let i = choose|i: int| 0 <= i < j.len() && j[i] == '=';
                if i < segs[0].len() {
                    assert(segs[0][i] == '=');
                } else if i == segs[0].len() {
                    assert(j[i] == '.');
                } else {
                    assert(rest[i - segs[0].len() - 1] == '=');
                }
            }
        }
        lemma_contains_iff(j, '\n');
        lemma_contains_iff(segs[0], '\n');
        lemma_contains_iff(rest, '\n');
        assert(!(exists|i: int| 0 <= i < j.len() && j[i] == '\n')) by {
            if exists|i: int| 0 <= i < j.len() && j[i] == '\n' {
                let i = choose|i: int| 0 <= i < j.len() && j[i] == '\n';
                if i < segs[0].len() {
                    assert(segs[0][i] == '\n');
                } else if i == segs[0].len() {
                    assert(j[i] == '.');
                } else {
                    assert(rest[i - segs[0].len() - 1] == '\n');
                }
            }
        }
        assert(j[0] == segs[0][0]);
        assert(j.last() == rest.last());
        assert(segs.drop_first().last() == segs.last());
        lemma_trim_end_stable(rest);
        lemma_trim_end_stable(j);
    }
}

/// Splitting at a separator that the head does not hold takes the head off
/// whole.
pub proof fn lemma_split_step(a: Seq<char>, rest: Seq<char>, c: char)
    requires
        !spec_contains(a, c),
    ensures
        spec_split(a + seq![c] + rest, c) == seq![a] + spec_split(rest, c),
{
    let s = a + seq![c] + rest;
    lemma_contains_iff(a, c);
    assert(s[a.len() as int] == c);
    assert(forall|j: int| 0 <= j < a.len() ==> s[j] == a[j]);
    lemma_find_at_from(s, c, 0, a.len() as int);
    assert(s.take(a.len() as int) =~= a);
    assert(s.skip(a.len() as int + 1) =~= rest);
}

/// Splitting the dotted join of carrying names gives the names back.
pub proof fn lemma_split_join(segs: Seq<Seq<char>>)
    requires
        segs.len() > 0,
        forall|k: int| 0 <= k < segs.len() ==> rt_name(#[trigger] segs[k]),
    ensures
        spec_split(join_dots(segs), '.') == segs,
    decreases segs.len(),
{
    let j = join_dots(segs);
    if segs.len() == 1 {
        assert(j == segs[0]);
        lemma_contains_iff(j, '.');
        crate::text::lemma_find_bounds(j, '.', 0);
        assert(spec_split(j, '.') =~= segs);
    } else {
        lemma_split_join(segs.drop_first());
        lemma_split_step(segs[0], join_dots(segs.drop_first()), '.');
        assert(spec_split(j, '.') =~= seq![segs[0]] + segs.drop_first());
        assert(seq![segs[0]] + segs.drop_first() =~= segs);
    }
}

/// Two different carrying paths join to different text.
pub proof fn lemma_join_injective(a: Seq<Seq<char>>, b: Seq<Seq<char>>)
    requires
        a.len() > 0,
        b.len() > 0,
        forall|k: int| 0 <= k < a.len() ==> rt_name(#[trigger] a[k]),
        forall|k: int| 0 <= k < b.len() ==> rt_name(#[trigger] b[k]),
        a != b,
    ensures
        join_dots(a) != join_dots(b),
{
    if join_dots(a) == join_dots(b) {
        lemma_split_join(a);
        lemma_split_join(b);
    }
}

/// The token a record becomes on line `num`.
pub open spec fn record_token(r: Record, num: int) -> LineV {
    LineV { key: join_dots(r.segs), value: spec_render(r.value), line_number: num as u32 }
}

/// The tokens a record list becomes, lines numbered from one.
pub open spec fn record_tokens(rs: Seq<Record>) -> Seq<LineV> {
    Seq::new(rs.len(), |i: int| record_token(rs[i], i + 1))
}

/// The written lines of a record list, without their line feeds.
pub open spec fn record_lines(rs: Seq<Record>) -> Seq<Seq<char>> {
    rs.map_values(|r: Record| record_line(r))
}

/// What one clean record's line looks like to the tokenizer.
proof fn lemma_record_line_facts(r: Record)
    requires
        clean_record(r),
    ensures
        record_line(r).len() > 0,
        record_line(r)[0] == r.segs[0][0],
        !spec_contains(record_line(r), '\n'),
        record_line(r).last() != '\r',
        spec_find(record_line(r), '=', 0) == join_dots(r.segs).len(),
        join_dots(r.segs).len() < record_line(r).len(),
        record_line(r).take(join_dots(r.segs).len() as int) == join_dots(r.segs),
        record_line(r).skip(join_dots(r.segs).len() as int + 1) == spec_render(r.value),
{
    let line = record_line(r);
    let j = join_dots(r.segs);
    let v = spec_render(r.value);
    lemma_join_clean(r.segs);
    assert(line[j.len() as int] == '=');
    lemma_contains_iff(j, '=');
    assert(forall|i: int| 0 <= i < j.len() ==> line[i] == j[i]);
    lemma_find_at_from(line, '=', 0, j.len() as int);
    lemma_contains_iff(line, '\n');
    lemma_contains_iff(v, '\n');
    assert(!(exists|i: int| 0 <= i < line.len() && line[i] == '\n')) by {
        if exists|i: int| 0 <= i < line.len() && line[i] == '\n' {
            let i = choose|i: int| 0 <= i < line.len() && line[i] == '\n';
            lemma_contains_iff(j, '\n');
            if i < j.len() {
                assert(j[i] == '\n');
            } else if i == j.len() {
                assert(line[i] == '=');
            } else {
                assert(v[i - j.len() - 1] == '\n');
            }
        }
    }
    if v.len() > 0 {
        assert(line.last() == v.last());
    } else {
        assert(line.last() == '=');
    }
    assert(line.take(j.len() as int) =~= j);
    assert(line.skip(j.len() as int + 1) =~= v);
}

proof fn lemma_records_text_front(rs: Seq<Record>)
    requires
        rs.len() > 0,
    ensures
        records_text(rs) == record_line(rs[0]) + seq!['\n'] + records_text(rs.drop_first()),
{
    let head = seq![rs[0]];
    lemma_records_text_append(head, rs.drop_first());
    assert(head + rs.drop_first() =~= rs);
    assert(head.drop_last() =~= Seq::<Record>::empty());
    assert(records_text(head) == records_text(head.drop_last()) + record_line(head.last())
        + seq!['\n']);
    assert(records_text(head) =~= record_line(rs[0]) + seq!['\n']);
    assert(record_line(rs[0]) + seq!['\n'] + records_text(rs.drop_first()) =~= (record_line(
        rs[0],
    ) + seq!['\n']) + records_text(rs.drop_first()));
}

/// The written text splits back into exactly the written lines, with one
/// empty line after the final line feed.
proof fn lemma_split_records(rs: Seq<Record>)
    requires
        forall|i: int| 0 <= i < rs.len() ==> clean_record(#[trigger] rs[i]),
    ensures
        spec_split(records_text(rs), '\n') == record_lines(rs).push(Seq::<char>::empty()),
    decreases rs.len(),
{
    if rs.len() == 0 {
        assert(records_text(rs).len() == 0);
        assert(spec_split(records_text(rs), '\n') =~= record_lines(rs).push(
            Seq::<char>::empty(),
        ));
    } else {
        lemma_records_text_front(rs);
        lemma_record_line_facts(rs[0]);
        lemma_split_step(record_line(rs[0]), records_text(rs.drop_first()), '\n');
        assert(forall|i: int|
            0 <= i < rs.drop_first().len() ==> clean_record(#[trigger] rs.drop_first()[i]));
        lemma_split_records(rs.drop_first());
        assert(spec_split(records_text(rs), '\n') =~= record_lines(rs).push(
            Seq::<char>::empty(),
        )) by {
            assert(record_lines(rs)[0] == record_line(rs[0]));
            assert(forall|i: int|
                0 <= i < rs.drop_first().len() ==> record_lines(rs.drop_first())[i]
                    == record_line(rs.drop_first()[i]) && rs.drop_first()[i] == rs[i + 1]);
        }
    }
}

/// Stripping carriage returns changes none of the written lines.
proof fn lemma_lines_split_records(rs: Seq<Record>)
    requires
        forall|i: int| 0 <= i < rs.len() ==> clean_record(#[trigger] rs[i]),
    ensures
        crate::property_file_reader::spec_lines_split(records_text(rs)) == record_lines(
            rs,
        ).push(Seq::<char>::empty()),
{
    lemma_split_records(rs);
    let raw = spec_split(records_text(rs), '\n');
    let mapped = crate::property_file_reader::spec_lines_split(records_text(rs));
    assert forall|i: int| 0 <= i < raw.len() implies mapped[i] == raw[i] by {
        if i < rs.len() {
            assert(raw[i] == record_line(rs[i]));
            lemma_record_line_facts(rs[i]);
        } else {
            assert(raw[i] =~= Seq::<char>::empty());
        }
    }
    assert(mapped =~= raw);
}

proof fn lemma_key_absent(content: Seq<LineV>, key: Seq<char>, m: int)
    requires
        0 <= m <= content.len(),
        forall|i: int| m <= i < content.len() ==> (#[trigger] content[i]).key != key,
    ensures
        crate::property_file_reader::spec_key_index_from(content, key, m) == content.len(),
    decreases content.len() - m,
{
    if m < content.len() {
        lemma_key_absent(content, key, m + 1);
    }
}

/// Feeding one clean line to the tokenizer with no pending continuation
/// appends exactly one record.
proof fn lemma_process_clean_line(content: Seq<LineV>, r: Record, num: u32)
    requires
        clean_record(r),
        r.segs[0][0] != '#',
        r.segs[0][0] != '!',
        forall|i: int|
            0 <= i < content.len() ==> (#[trigger] content[i]).key != join_dots(r.segs),
    ensures
        crate::property_file_reader::spec_process_line(
            content,
            Seq::<char>::empty(),
            record_line(r),
            num,
            '=',
        ) == (
            content.push(
                LineV {
                    key: join_dots(r.segs),
                    value: spec_render(r.value),
                    line_number: num,
                },
            ),
            Seq::<char>::empty(),
        ),
{
    let line = record_line(r);
    let j = join_dots(r.segs);
    let v = spec_render(r.value);
    lemma_record_line_facts(r);
    lemma_join_clean(r.segs);
    let idx = spec_find(line, '=', 0);
    assert(idx == j.len());
    let key = line.take(idx);
    let value = line.skip(idx + 1);
    assert(key == j);
    assert(value == v);
    assert(key.len() > 0);
    assert(!spec_is_continuation(value));
    assert(spec_trim_end(key) == key);
    assert(spec_trim_start(value) == value);
    lemma_key_absent(content, key, 0);
    assert(crate::property_file_reader::spec_upsert(
        content,
        LineV { key: spec_trim_end(key), value: spec_trim_start(value), line_number: num },
    ) == content.push(LineV { key: j, value: v, line_number: num }));
}

/// Tokenizing the written text of clean records with pairwise distinct
/// paths yields exactly their tokens, in order, with no pending
/// continuation.
proof fn lemma_tokenize_records(rs: Seq<Record>, k: int)
    requires
        forall|i: int|
            0 <= i < rs.len() ==> clean_record(#[trigger] rs[i]) && rs[i].segs[0][0] != '#'
                && rs[i].segs[0][0] != '!',
        forall|i: int, j: int| 0 <= i < j < rs.len() ==> rs[i].segs != rs[j].segs,
        0 <= k <= rs.len() + 1,
    ensures
        ({
            let lines = record_lines(rs).push(Seq::<char>::empty());
            let st = crate::property_file_reader::spec_tokenize(lines, '=', k);
            st.0 == record_tokens(rs).take(if k <= rs.len() {
                k
            } else {
                rs.len() as int
            }) && st.1 == Seq::<char>::empty()
        }),
    decreases k,
{
    let lines = record_lines(rs).push(Seq::<char>::empty());
    if k == 0 {
        assert(record_tokens(rs).take(0) =~= Seq::<LineV>::empty());
    } else {
        lemma_tokenize_records(rs, k - 1);
        let prev = crate::property_file_reader::spec_tokenize(lines, '=', k - 1);
        if k - 1 < rs.len() {
            assert(lines[k - 1] == record_line(rs[k - 1]));
            let content = record_tokens(rs).take(k - 1);
            assert forall|i: int| 0 <= i < content.len() implies (#[trigger] content[i]).key
                != join_dots(rs[k - 1].segs) by {
                assert(content[i] == record_token(rs[i], i + 1));
                lemma_join_injective(rs[i].segs, rs[k - 1].segs);
            }
            lemma_process_clean_line(content, rs[k - 1], k as u32);
            assert(content.push(
                LineV {
                    key: join_dots(rs[k - 1].segs),
                    value: spec_render(rs[k - 1].value),
                    line_number: k as u32,
                },
            ) =~= record_tokens(rs).take(k));
        } else {
            assert(lines[k - 1] =~= Seq::<char>::empty());
            assert(lines[k - 1].len() == 0);
        }
    }
}

/// Every forest record's first segment is the name of one of the roots.
proof fn lemma_forest_record_root_name(roots: Seq<NodeV>, i: int)
    requires
        rt_children(roots, 0),
        0 <= i < forest_records(roots).len(),
    ensures
        exists|k: int|
            0 <= k < roots.len() && forest_records(roots)[i].segs[0] == roots[k].name,
    decreases roots.len(),
{
    let group = node_records(roots[0], Seq::<Seq<char>>::empty());
    if i < group.len() {
        lemma_node_records_facts(roots[0], Seq::<Seq<char>>::empty(), 0);
        assert(group[i].segs.take(0) =~= Seq::<Seq<char>>::empty());
        assert(forest_records(roots)[i] == group[i]);
        assert(forest_records(roots)[i].segs[0] == roots[0].name);
    } else {
        lemma_forest_record_root_name(roots.drop_first(), i - group.len());
        let k = choose|k: int|
            0 <= k < roots.drop_first().len() && forest_records(roots.drop_first())[i
                - group.len()].segs[0] == roots.drop_first()[k].name;
        assert(roots.drop_first()[k] == roots[k + 1]);
        assert(forest_records(roots)[i] == forest_records(roots.drop_first())[i - group.len()]);
    }
}

/// Folding the chains of a record list into a sibling forest, each chain
/// taken from depth `lvl` on.
pub open spec fn fold_chains(g: Seq<NodeV>, rs: Seq<Record>, lvl: int) -> Seq<NodeV>
    decreases rs.len(),
{
    if rs.len() == 0 {
        g
    } else {
        fold_chains(
            spec_merge_forest(g, spec_chain(rs[0].segs, lvl, lvl, rs[0].value)),
            rs.drop_first(),
            lvl,
        )
    }
}

proof fn lemma_fold_chains_append(g: Seq<NodeV>, a: Seq<Record>, b: Seq<Record>, lvl: int)
    ensures
        fold_chains(g, a + b, lvl) == fold_chains(fold_chains(g, a, lvl), b, lvl),
    decreases a.len(),
{
    if a.len() == 0 {
        assert(a + b =~= b);
    } else {
        assert((a + b)[0] == a[0]);
        assert((a + b).drop_first() =~= a.drop_first() + b);
        lemma_fold_chains_append(
            spec_merge_forest(g, spec_chain(a[0].segs, lvl, lvl, a[0].value)),
            a.drop_first(),
            b,
            lvl,
        );
    }
}

proof fn lemma_fold_chains_snoc(g: Seq<NodeV>, rs: Seq<Record>, x: Record, lvl: int)
    ensures
        fold_chains(g, rs.push(x), lvl) == spec_merge_forest(
            fold_chains(g, rs, lvl),
            spec_chain(x.segs, lvl, lvl, x.value),
        ),
{
    lemma_fold_chains_append(g, rs, seq![x], lvl);
    assert(rs + seq![x] =~= rs.push(x));
    let h = fold_chains(g, rs, lvl);
    assert(fold_chains(h, seq![x], lvl) == fold_chains(
        spec_merge_forest(h, spec_chain(seq![x][0].segs, lvl, lvl, seq![x][0].value)),
        seq![x].drop_first(),
        lvl,
    ));
    assert(seq![x].drop_first() =~= Seq::<Record>::empty());
}

/// Merging further chains of one name into the freshly started subtree at
/// the end of the forest only grows that subtree's children.
proof fn lemma_fold_into_partial(
    g: Seq<NodeV>,
    name: Seq<char>,
    lvl: int,
    x: Seq<NodeV>,
    rs: Seq<Record>,
)
    requires
        forall|i: int|
            0 <= i < g.len() ==> !((#[trigger] g[i]).name == name && g[i].level == lvl),
        forall|i: int|
            0 <= i < rs.len() ==> (#[trigger] rs[i]).segs.len() > lvl + 1 && rs[i].segs[lvl]
                == name && lvl >= 0,
    ensures
        fold_chains(
            g.push(NodeV { name, level: lvl, children: x, value: ValueV::NONE }),
            rs,
            lvl,
        ) == g.push(
            NodeV {
                name,
                level: lvl,
                children: fold_chains(x, rs, lvl + 1),
                value: ValueV::NONE,
            },
        ),
    decreases rs.len(),
{
    let partial = NodeV { name, level: lvl, children: x, value: ValueV::NONE };
    if rs.len() == 0 {
    } else {
        let c = spec_chain(rs[0].segs, lvl, lvl, rs[0].value);
        assert(c.name == name && c.level == lvl);
        assert(c.children.len() == 1);
        assert(c.children[0] == spec_chain(rs[0].segs, lvl + 1, lvl + 1, rs[0].value));
        let st = g.push(partial);
        assert forall|i: int| 0 <= i < g.len() implies !same_key(#[trigger] st[i], c) by {
            assert(st[i] == g[i]);
        }
        assert(same_key(st[g.len() as int], c));
        crate::node::lemma_merge_forest_first_match(st, c, g.len() as int);
        let merged = spec_merge_node(partial, c);
        assert(merged == (NodeV {
            name,
            level: lvl,
            children: spec_merge_forest(x, c.children[0]),
            value: ValueV::NONE,
        }));
        assert(st.update(g.len() as int, merged) =~= g.push(merged));
        lemma_fold_into_partial(
            g,
            name,
            lvl,
            spec_merge_forest(x, c.children[0]),
            rs.drop_first(),
        );
    }
}

/// Folding the records of one well-formed subtree appends exactly that
/// subtree.
proof fn lemma_rebuild_node(g: Seq<NodeV>, n: NodeV, pre: Seq<Seq<char>>, lvl: int)
    requires
        rt_node(n, lvl),
        pre.len() == lvl,
        forall|k: int| 0 <= k < pre.len() ==> rt_name(#[trigger] pre[k]),
        forall|i: int|
            0 <= i < g.len() ==> !((#[trigger] g[i]).name == n.name && g[i].level == lvl),
    ensures
        fold_chains(g, node_records(n, pre), lvl) == g.push(n),
    decreases n, 1int,
{
    let full = pre.push(n.name);
    lemma_node_records_facts(n, pre, lvl);
    if n.children.len() == 0 {
        let r = Record { segs: full, value: n.value };
        let rs = node_records(n, pre);
        assert(rs =~= seq![r]);
        let c = spec_chain(full, lvl, lvl, n.value);
        assert(full[lvl] == n.name);
        assert(c.name == n.name);
        assert(n.children =~= Seq::<NodeV>::empty());
        assert(c.children =~= n.children);
        assert(c =~= n);
        assert forall|i: int| 0 <= i < g.len() implies !same_key(#[trigger] g[i], c) by {}
        crate::node::lemma_merge_forest_no_match(g, c);
        assert(fold_chains(g, rs, lvl) == fold_chains(
            spec_merge_forest(g, spec_chain(rs[0].segs, lvl, lvl, rs[0].value)),
            rs.drop_first(),
            lvl,
        ));
        assert(rs[0] == r);
        assert(rs.drop_first() =~= Seq::<Record>::empty());
    } else {
        let rs = node_records(n, pre);
        assert(rs == children_records(n.children, full));
        assert(rs.len() >= 1);
        let r0 = rs[0];
        assert(r0.segs[lvl] == n.name && r0.segs.len() > lvl + 1 && r0.segs.take(lvl) == pre)
            by {
            assert(r0.segs[pre.len() as int] == n.name);
        }
        let c0 = spec_chain(r0.segs, lvl, lvl, r0.value);
        assert(c0.name == n.name && c0.level == lvl && c0.value == ValueV::NONE);
        assert(c0.children == seq![spec_chain(r0.segs, lvl + 1, lvl + 1, r0.value)]);
        assert forall|i: int| 0 <= i < g.len() implies !same_key(#[trigger] g[i], c0) by {}
        crate::node::lemma_merge_forest_no_match(g, c0);
        let partial = NodeV {
            name: n.name,
            level: lvl,
            children: c0.children,
            value: ValueV::NONE,
        };
        assert(c0 =~= partial);
        assert(fold_chains(g, rs, lvl) == fold_chains(g.push(partial), rs.drop_first(), lvl));
        assert forall|i: int|
            0 <= i < rs.drop_first().len() implies (#[trigger] rs.drop_first()[i]).segs.len()
            > lvl + 1 && rs.drop_first()[i].segs[lvl] == n.name && lvl >= 0 by {
            assert(rs.drop_first()[i] == rs[i + 1]);
            assert(rs[i + 1].segs[pre.len() as int] == n.name);
        }
        lemma_fold_into_partial(g, n.name, lvl, c0.children, rs.drop_first());
        assert(c0.children == fold_chains(
            Seq::<NodeV>::empty(),
            seq![r0],
            lvl + 1,
        )) by {
            let c1 = spec_chain(r0.segs, lvl + 1, lvl + 1, r0.value);
            assert(seq![r0][0] == r0);
            crate::node::lemma_merge_forest_no_match(Seq::<NodeV>::empty(), c1);
            assert(fold_chains(Seq::<NodeV>::empty(), seq![r0], lvl + 1) == fold_chains(
                Seq::<NodeV>::empty().push(c1),
                seq![r0].drop_first(),
                lvl + 1,
            ));
            assert(seq![r0].drop_first() =~= Seq::<Record>::empty());
            assert(fold_chains(Seq::<NodeV>::empty().push(c1), Seq::<Record>::empty(), lvl + 1)
                == Seq::<NodeV>::empty().push(c1));
            assert(Seq::<NodeV>::empty().push(c1) =~= seq![c1]);
            assert(c0.children == seq![c1]);
        }
        lemma_fold_chains_append(Seq::<NodeV>::empty(), seq![r0], rs.drop_first(), lvl + 1);
        assert(seq![r0] + rs.drop_first() =~= rs);
        assert(fold_chains(Seq::<NodeV>::empty(), rs, lvl + 1) == fold_chains(
            c0.children,
            rs.drop_first(),
            lvl + 1,
        ));
        lemma_rebuild_children(Seq::<NodeV>::empty(), n.children, full, lvl + 1);
        assert(Seq::<NodeV>::empty() + n.children =~= n.children);
        assert(g.push(
            NodeV {
                name: n.name,
                level: lvl,
                children: n.children,
                value: ValueV::NONE,
            },
        ) =~= g.push(n));
    }
}

/// Folding the records of a well-formed sibling list appends exactly those
/// siblings, in order.
proof fn lemma_rebuild_children(g: Seq<NodeV>, cs: Seq<NodeV>, pre: Seq<Seq<char>>, lvl: int)
    requires
        rt_children(cs, lvl),
        distinct_names(cs),
        pre.len() == lvl,
        forall|k: int| 0 <= k < pre.len() ==> rt_name(#[trigger] pre[k]),
        forall|i: int, k: int|
            0 <= i < g.len() && 0 <= k < cs.len() ==> !((#[trigger] g[i]).name == (
            #[trigger] cs[k]).name && g[i].level == lvl),
    ensures
        fold_chains(g, children_records(cs, pre), lvl) == g + cs,
    decreases cs, 0int,
{
    if cs.len() == 0 {
        assert(g + cs =~= g);
    } else {
        let group = node_records(cs[0], pre);
        let rest = children_records(cs.drop_first(), pre);
        assert(children_records(cs, pre) == group + rest);
        lemma_fold_chains_append(g, group, rest, lvl);
        lemma_rebuild_node(g, cs[0], pre, lvl);
        assert(distinct_names(cs.drop_first())) by {
            assert(forall|i: int, j: int|
                0 <= i < j < cs.drop_first().len() ==> cs.drop_first()[i] == cs[i + 1]
                    && cs.drop_first()[j] == cs[j + 1]);
        }
        assert forall|i: int, k: int|
            0 <= i < g.push(cs[0]).len() && 0 <= k < cs.drop_first().len() implies !((
        #[trigger] g.push(cs[0])[i]).name == (#[trigger] cs.drop_first()[k]).name && g.push(
            cs[0],
        )[i].level == lvl) by {
            assert(cs.drop_first()[k] == cs[k + 1]);
            if i < g.len() {
                assert(g.push(cs[0])[i] == g[i]);
            } else {
                assert(g.push(cs[0])[i] == cs[0]);
                assert(cs[0].name != cs[k + 1].name);
            }
        }
        lemma_rebuild_children(g.push(cs[0]), cs.drop_first(), pre, lvl);
        assert(g.push(cs[0]) + cs.drop_first() =~= g + cs);
    }
}

/// Folding the records of a well-formed forest from the empty forest
/// rebuilds it exactly.
proof fn lemma_rebuild_forest(g: Seq<NodeV>, roots: Seq<NodeV>)
    requires
        rt_children(roots, 0),
        distinct_names(roots),
        forall|i: int, k: int|
            0 <= i < g.len() && 0 <= k < roots.len() ==> !((#[trigger] g[i]).name == (
            #[trigger] roots[k]).name && g[i].level == 0),
    ensures
        fold_chains(g, forest_records(roots), 0) == g + roots,
    decreases roots.len(),
{
    if roots.len() == 0 {
        assert(g + roots =~= g);
    } else {
        let group = node_records(roots[0], Seq::<Seq<char>>::empty());
        let rest = forest_records(roots.drop_first());
        assert(forest_records(roots) == group + rest);
        lemma_fold_chains_append(g, group, rest, 0);
        lemma_rebuild_node(g, roots[0], Seq::<Seq<char>>::empty(), 0);
        assert(rt_children(roots.drop_first(), 0));
        assert(distinct_names(roots.drop_first())) by {
            assert(forall|i: int, j: int|
                0 <= i < j < roots.drop_first().len() ==> roots.drop_first()[i] == roots[i + 1]
                    && roots.drop_first()[j] == roots[j + 1]);
        }
        assert forall|i: int, k: int|
            0 <= i < g.push(roots[0]).len() && 0 <= k < roots.drop_first().len() implies !((
        #[trigger] g.push(roots[0])[i]).name == (#[trigger] roots.drop_first()[k]).name
            && g.push(roots[0])[i].level == 0) by {
            assert(roots.drop_first()[k] == roots[k + 1]);
            if i < g.len() {
                assert(g.push(roots[0])[i] == g[i]);
            } else {
                assert(g.push(roots[0])[i] == roots[0]);
                assert(roots[0].name != roots[k + 1].name);
            }
        }
        lemma_rebuild_forest(g.push(roots[0]), roots.drop_first());
        assert(g.push(roots[0]) + roots.drop_first() =~= g + roots);
    }
}

/// Rebuilding a forest from the records' tokens is the chain fold of the
/// records.
proof fn lemma_lines_fold(rs: Seq<Record>)
    requires
        forall|i: int| 0 <= i < rs.len() ==> clean_record(#[trigger] rs[i]),
    ensures
        crate::property_file_reader::spec_lines_to_forest(record_tokens(rs)) == fold_chains(
            Seq::<NodeV>::empty(),
            rs,
            0,
        ),
    decreases rs.len(),
{
    let toks = record_tokens(rs);
    if rs.len() == 0 {
        assert(toks.len() == 0);
    } else {
        assert(toks.drop_last() =~= record_tokens(rs.drop_last())) by {
            assert(forall|i: int|
                0 <= i < rs.len() - 1 ==> rs.drop_last()[i] == rs[i] && record_tokens(
                    rs.drop_last(),
                )[i] == record_token(rs.drop_last()[i], i + 1));
        }
        assert(forall|i: int|
            0 <= i < rs.drop_last().len() ==> clean_record(#[trigger] rs.drop_last()[i]));
        lemma_lines_fold(rs.drop_last());
        let t = toks.last();
        let last = rs.last();
        assert(t == record_token(last, rs.len() as int));
        lemma_split_join(last.segs);
        assert(crate::property_file_reader::spec_line_to_node(t) == spec_chain(
            last.segs,
            0,
            0,
            last.value,
        )) by {
            assert(spec_split(t.key, '.') == last.segs);
            assert(spec_parse_value(t.value) == last.value);
        }
        lemma_fold_chains_snoc(Seq::<NodeV>::empty(), rs.drop_last(), last, 0);
        assert(rs.drop_last().push(last) =~= rs);
    }
}

proof fn lemma_insert_node_multiset(s: Seq<NodeV>, x: NodeV)
    ensures
        crate::node::spec_insert_node(s, x).to_multiset() == s.to_multiset().insert(x),
    decreases s.len(),
{
    broadcast use vstd::seq_lib::group_to_multiset_ensures;

    if s.len() == 0 {
        assert(seq![x] =~= Seq::<NodeV>::empty().push(x));
        assert(Seq::<NodeV>::empty().push(x).to_multiset() =~= Seq::<
            NodeV,
        >::empty().to_multiset().insert(x));
    } else if crate::text::spec_str_le(s.last().name, x.name) {
        assert(s.push(x).to_multiset() =~= s.to_multiset().insert(x));
    } else {
        lemma_insert_node_multiset(s.drop_last(), x);
        let inner = crate::node::spec_insert_node(s.drop_last(), x);
        assert(inner.push(s.last()).to_multiset() =~= inner.to_multiset().insert(s.last()));
        assert(s =~= s.drop_last().push(s.last()));
        assert(s.to_multiset() =~= s.drop_last().to_multiset().insert(s.last()));
        assert(s.drop_last().to_multiset().insert(x).insert(s.last()) =~= s.drop_last()
            .to_multiset().insert(s.last()).insert(x));
    }
}

proof fn lemma_ins_sort_multiset(s: Seq<NodeV>)
    ensures
        crate::node::spec_ins_sort(s).to_multiset() == s.to_multiset(),
    decreases s.len(),
{
    broadcast use vstd::seq_lib::group_to_multiset_ensures;

    if s.len() > 0 {
        lemma_ins_sort_multiset(s.drop_last());
        lemma_insert_node_multiset(crate::node::spec_ins_sort(s.drop_last()), s.last());
        assert(s =~= s.drop_last().push(s.last()));
        assert(s.to_multiset() =~= s.drop_last().to_multiset().insert(s.last()));
    }
}

/// Two distinct positions holding one value put its count at two or more.
proof fn lemma_two_indices_count(t: Seq<NodeV>, i: int, j: int)
    requires
        0 <= i < j < t.len(),
        t[i] == t[j],
    ensures
        t.to_multiset().count(t[i]) >= 2,
{
    broadcast use vstd::seq_lib::group_to_multiset_ensures;

    let v = t[i];
    let rest = t.remove(i);
    assert(rest.to_multiset() =~= t.to_multiset().remove(v));
    assert(rest[j - 1] == v);
    assert(rest.contains(v));
    assert(rest.to_multiset().count(v) > 0);
    assert(t.to_multiset().count(v) == rest.to_multiset().count(v) + 1);
}

/// A permutation of siblings with distinct names keeps the names distinct.
proof fn lemma_perm_distinct_names(s: Seq<NodeV>, t: Seq<NodeV>)
    requires
        s.to_multiset() == t.to_multiset(),
        distinct_names(s),
    ensures
        distinct_names(t),
{
    broadcast use vstd::seq_lib::group_to_multiset_ensures;

    assert forall|i: int, j: int| 0 <= i < j < t.len() implies t[i].name != t[j].name by {
        if t[i].name == t[j].name {
            let v1 = t[i];
            let v2 = t[j];
            if v1 == v2 {
                lemma_two_indices_count(t, i, j);
                assert(s.to_multiset().count(v1) >= 2);
                assert(s.contains(v1));
                let p = choose|p: int| 0 <= p < s.len() && s[p] == v1;
                let srest = s.remove(p);
                assert(srest.to_multiset() =~= s.to_multiset().remove(v1));
                assert(srest.to_multiset().count(v1) >= 1);
                assert(srest.contains(v1));
                let q = choose|q: int| 0 <= q < srest.len() && srest[q] == v1;
                if q < p {
                    assert(s[q] == v1);
                    assert(s[q].name == s[p].name);
                } else {
                    assert(s[q + 1] == v1);
                    assert(s[q + 1].name == s[p].name);
                }
            } else {
                assert(t.contains(v1) && t.contains(v2));
                assert(s.to_multiset().count(v1) > 0 && s.to_multiset().count(v2) > 0);
                assert(s.contains(v1) && s.contains(v2));
                let p = choose|p: int| 0 <= p < s.len() && s[p] == v1;
                let q = choose|q: int| 0 <= q < s.len() && s[q] == v2;
                assert(p != q);
                assert(s[p].name == s[q].name);
            }
        }
    }
}

/// Every element of a permutation appears in the other sequence.
proof fn lemma_perm_element(s: Seq<NodeV>, t: Seq<NodeV>, i: int)
    requires
        s.to_multiset() == t.to_multiset(),
        0 <= i < t.len(),
    ensures
        exists|p: int| 0 <= p < s.len() && s[p] == t[i],
{
    broadcast use vstd::seq_lib::group_to_multiset_ensures;

    assert(t.contains(t[i]));
    assert(s.to_multiset().count(t[i]) > 0);
    assert(s.contains(t[i]));
}

proof fn lemma_rt_children_build(cs: Seq<NodeV>, lvl: int)
    requires
        forall|i: int| 0 <= i < cs.len() ==> rt_node(#[trigger] cs[i], lvl),
    ensures
        rt_children(cs, lvl),
    decreases cs,
{
    if cs.len() > 0 {
        assert(forall|i: int|
            0 <= i < cs.drop_first().len() ==> #[trigger] cs.drop_first()[i] == cs[i + 1]);
        lemma_rt_children_build(cs.drop_first(), lvl);
    }
}

/// Sorting keeps a subtree carryable: the same names, levels and values,
/// with the children reordered.
pub proof fn lemma_sort_preserves_rt(n: NodeV, lvl: int)
    requires
        rt_node(n, lvl),
    ensures
        rt_node(crate::node::spec_sort_node(n), lvl),
    decreases n,
{
    let cs = n.children;
    let mapped = crate::node::spec_sort_seq(cs);
    let sorted = crate::node::spec_ins_sort(mapped);
    crate::node::lemma_sort_seq(cs);
    if cs.len() == 0 {
        assert(mapped.len() == 0);
        assert(sorted.len() == 0);
    } else {
        assert(forall|i: int|
            0 <= i < mapped.len() ==> #[trigger] mapped[i] == crate::node::spec_sort_node(
                cs[i],
            ));
        assert(distinct_names(mapped)) by {
            assert(forall|i: int|
                0 <= i < mapped.len() ==> (#[trigger] mapped[i]).name == cs[i].name);
        }
        lemma_ins_sort_multiset(mapped);
        lemma_perm_distinct_names(mapped, sorted);
        assert forall|i: int| 0 <= i < sorted.len() implies rt_node(
            #[trigger] sorted[i],
            lvl + 1,
        ) by {
            lemma_perm_element(mapped, sorted, i);
            let p = choose|p: int| 0 <= p < mapped.len() && mapped[p] == sorted[i];
            lemma_rt_children_index(cs, lvl + 1, p);
            lemma_sort_preserves_rt(cs[p], lvl + 1);
        }
        lemma_rt_children_build(sorted, lvl + 1);
        broadcast use vstd::seq_lib::group_to_multiset_ensures;

        assert(sorted.len() == sorted.to_multiset().len());
        assert(mapped.len() == mapped.to_multiset().len());
        assert(sorted.len() == mapped.len());
    }
}

/// Sorting keeps a whole forest carryable.
pub proof fn lemma_sort_preserves_rt_forest(roots: Seq<NodeV>)
    requires
        rt_forest(roots),
    ensures
        rt_forest(crate::node::spec_sort_forest(roots)),
{
    let mapped = crate::node::spec_sort_seq(roots);
    let sorted = crate::node::spec_ins_sort(mapped);
    crate::node::lemma_sort_seq(roots);
    lemma_ins_sort_multiset(mapped);
    broadcast use vstd::seq_lib::group_to_multiset_ensures;

    assert(distinct_names(mapped)) by {
        assert(forall|i: int|
            0 <= i < mapped.len() ==> (#[trigger] mapped[i]).name == roots[i].name);
    }
    lemma_perm_distinct_names(mapped, sorted);
    assert forall|i: int| 0 <= i < sorted.len() implies rt_node(#[trigger] sorted[i], 0) && (
    sorted[i]).name[0] != '#' && (sorted[i]).name[0] != '!' by {
        lemma_perm_element(mapped, sorted, i);
        let p = choose|p: int| 0 <= p < mapped.len() && mapped[p] == sorted[i];
        lemma_rt_children_index(roots, 0, p);
        lemma_sort_preserves_rt(roots[p], 0);
        assert(sorted[i].name == roots[p].name);
    }
    lemma_rt_children_build(sorted, 0);
}

/// Law, in the form the conversion pipeline uses it: the forest is sorted
/// for deterministic output, written, and parsing the written text yields
/// that sorted forest again.
pub proof fn lemma_properties_round_trip_sorted(roots: Seq<NodeV>)
    requires
        rt_forest(roots),
    ensures
        crate::property_file_reader::spec_props_parse(
            spec_props_write(crate::node::spec_sort_forest(roots)),
            '=',
        ) == crate::node::spec_sort_forest(roots),
{
    lemma_sort_preserves_rt_forest(roots);
    lemma_properties_round_trip(crate::node::spec_sort_forest(roots));
}

/// Law: writing a well-formed forest as properties text and parsing that
/// text back with the same delimiter yields the very same forest, names,
/// levels, order, children and values alike. Sorting first and then making
/// the trip therefore returns the sorted forest unchanged.
pub proof fn lemma_properties_round_trip(roots: Seq<NodeV>)
    requires
        rt_forest(roots),
    ensures
        crate::property_file_reader::spec_props_parse(spec_props_write(roots), '=') == roots,
{
    let rs = forest_records(roots);
    lemma_write_records_forest(roots);
    lemma_forest_records_facts(roots);
    lemma_lines_split_records(rs);
    let lines = record_lines(rs).push(Seq::<char>::empty());
    assert(lines.len() == rs.len() + 1);
    lemma_tokenize_records(rs, rs.len() as int + 1);
    assert(record_tokens(rs).take(rs.len() as int) =~= record_tokens(rs));
    assert(crate::property_file_reader::spec_props_tokens(spec_props_write(roots), '=')
        == record_tokens(rs));
    lemma_lines_fold(rs);
    lemma_rebuild_forest(Seq::<NodeV>::empty(), roots);
    assert(Seq::<NodeV>::empty() + roots =~= roots);
}

} // verus!
