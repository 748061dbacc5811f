//! The forest of root nodes that one parse pass produces: merge-on-insert
//! and a recursive sort for deterministic output.
use crate::node::lemma_nodes_view;
use crate::node::node_view;
use crate::node::nodes_view;
use crate::node::sorted_node;
use crate::node::spec_ins_sort;
use crate::node::spec_merge_forest;
use crate::node::spec_sort_forest;
use crate::node::spec_sort_node;
use crate::node::spec_sort_seq;
use crate::node::lemma_sort_seq;
use crate::node::Node;
use crate::node::NodeV;
use vstd::prelude::*;

verus! {

broadcast use vstd::std_specs::vec::group_vec_axioms;

/// An ordered collection of root nodes.
#[derive(Debug)]
pub struct Nodes {
    nodes: Vec<Node>,
}

impl View for Nodes {
    type V = Seq<NodeV>;

    closed spec fn view(&self) -> Seq<NodeV> {
        nodes_view(self.nodes@)
    }
}

impl Nodes {
    /// An empty forest.
    pub fn new() -> (r: Nodes)
        ensures
            r@ == Seq::<NodeV>::empty(),
    {
        let r = Nodes { nodes: Vec::new() };
        proof {
            assert(r@ =~= Seq::<NodeV>::empty());
        }
        r
    }

    /// The root nodes, in order.
    pub fn iter(&self) -> (r: &Vec<Node>)
        ensures
            nodes_view(r@) == self@,
    {
        &self.nodes
    }

    /// Appends a root without merging.
    pub fn push(&mut self, node: Node)
        ensures
            final(self)@ == old(self)@.push(node@),
    {
        proof {
            lemma_nodes_view(self.nodes@);
        }
        let ghost before = self.nodes@;
        self.nodes.push(node);
        proof {
            lemma_nodes_view(self.nodes@);
            assert forall|i: int| 0 <= i < self.nodes@.len() implies nodes_view(self.nodes@)[i]
                == nodes_view(before).push(node_view(self.nodes@[self.nodes@.len() - 1]))[i] by {
                if i < before.len() {
                    assert(self.nodes@[i] == before[i]);
                }
            }
            assert(nodes_view(self.nodes@) =~= nodes_view(before).push(
                node_view(self.nodes@[self.nodes@.len() - 1]),
            ));
        }
    }

    /// The root at `index`, if the forest is that large.
    pub fn get(&self, index: usize) -> (r: Option<&Node>)
        ensures
            match r {
                Some(n) => index < self@.len() && n@ == self@[index as int],
                None => index >= self@.len(),
            },
    {
        proof {
            lemma_nodes_view(self.nodes@);
        }
        if index < self.nodes.len() {
            Some(&self.nodes[index])
        } else {
            None
        }
    }

    /// Whether the forest holds no root at all.
    pub fn is_empty(&self) -> (r: bool)
        ensures
            r == (self@.len() == 0),
    {
        proof {
            lemma_nodes_view(self.nodes@);
        }
        self.nodes.is_empty()
    }

    /// Sorts every root subtree, then the roots themselves by name.
    pub fn sort(&mut self)
        ensures
            final(self)@ == spec_sort_forest(old(self)@),
    {
        proof {
            lemma_nodes_view(self.nodes@);
            lemma_sort_seq(nodes_view(self.nodes@));
        }
        let ghost t = spec_sort_seq(nodes_view(self.nodes@));
        let mut out: Vec<Node> = Vec::new();
        let mut i: usize = 0;
        proof {
            assert(nodes_view(out@) =~= spec_ins_sort(t.take(0)));
        }
        while i < self.nodes.len()
            invariant
                i <= self.nodes@.len(),
                t == spec_sort_seq(nodes_view(self.nodes@)),
                t.len() == self.nodes@.len(),
                forall|j: int| 0 <= j < self.nodes@.len() ==> nodes_view(self.nodes@)[j]
                    == node_view(self.nodes@[j]),
                forall|j: int| 0 <= j < t.len() ==> t[j] == spec_sort_node(
                    nodes_view(self.nodes@)[j],
                ),
                nodes_view(out@) == spec_ins_sort(t.take(i as int)),
            decreases self.nodes@.len() - i,
        {
            let sc = sorted_node(&self.nodes[i]);
            crate::node::insert_sorted(&mut out, sc);
            i = i + 1;
            proof {
                assert(t.take(i as int).drop_last() =~= t.take(i - 1));
                assert(t.take(i as int).last() == t[i - 1]);
            }
        }
        proof {
            assert(t.take(t.len() as int) =~= t);
        }
        self.nodes = out;
    }

    /// Merges a freshly built chain into the forest: the first root of the
    /// same name and depth absorbs it, and otherwise it becomes a new root.
    /// The incoming node itself is left as it was.
    pub fn merge(&mut self, new_node: &mut Node)
        ensures
            final(self)@ == spec_merge_forest(old(self)@, old(new_node)@),
            final(new_node)@ == old(new_node)@,
    {
        proof {
            lemma_nodes_view(self.nodes@);
        }
        let merged = crate::node::merge_forest_exec(&self.nodes, new_node);
        self.nodes = merged;
    }
}

} // verus!
