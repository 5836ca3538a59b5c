//! Export of the graph in the DOT format, through petgraph.
use vstd::prelude::*;
use vstd::string::*;

use petgraph::dot::Dot;
use petgraph::graph::{Graph, NodeIndex};

use crate::graph::{Edge, FlowGraph, Node};
use crate::text::{is_prefix, starts_with};

verus! {

#[verifier::external_type_specification]
#[verifier::external_body]
#[verifier::reject_recursive_types(N)]
#[verifier::reject_recursive_types(E)]
#[verifier::reject_recursive_types(Ty)]
#[verifier::reject_recursive_types(Ix)]
pub struct ExGraph<N, E, Ty, Ix>(Graph<N, E, Ty, Ix>);

#[verifier::external_type_specification]
#[verifier::external_body]
pub struct ExDirected(petgraph::Directed);

/// The node weights of a petgraph graph, in index order.
pub uninterp spec fn dot_labels(g: Graph<String, u64>) -> Seq<Seq<char>>;

/// The edges of a petgraph graph, in index order: source index, target
/// index, weight.
pub uninterp spec fn dot_edges(g: Graph<String, u64>) -> Seq<(int, int, u64)>;

/// The DOT text that petgraph writes for a graph with these nodes and edges.
pub uninterp spec fn dot_text(labels: Seq<Seq<char>>, edges: Seq<(int, int, u64)>) -> Seq<char>;

/// Relies on petgraph's `Graph::new`: a directed graph with no nodes and no
/// edges.
#[verifier::external_body]
fn new_dot_graph() -> (g: Graph<String, u64>)
    ensures
        dot_labels(g) == Seq::<Seq<char>>::empty(),
        dot_edges(g) == Seq::<(int, int, u64)>::empty(),
{
    Graph::new()
}

/// Relies on petgraph's `Graph::add_node`: appends a node with weight
/// `label` and returns its index, the former node count. It panics only at
/// the index type's maximum, `u32::MAX` nodes.
#[verifier::external_body]
fn add_dot_node(g: &mut Graph<String, u64>, label: String) -> (r: usize)
    requires
        dot_labels(*old(g)).len() < 0xffff_ffff,
    ensures
        r == dot_labels(*old(g)).len(),
        dot_labels(*final(g)) == dot_labels(*old(g)).push(label@),
        dot_edges(*final(g)) == dot_edges(*old(g)),
{
    g.add_node(label).index()
}

/// Relies on petgraph's `Graph::add_edge`: appends an edge from node `a` to
/// node `b` with weight `w`. It panics when either node does not exist or
/// at `u32::MAX` edges.
#[verifier::external_body]
fn add_dot_edge(g: &mut Graph<String, u64>, a: usize, b: usize, w: u64)
    requires
        a < dot_labels(*old(g)).len(),
        b < dot_labels(*old(g)).len(),
        dot_labels(*old(g)).len() <= 0xffff_ffff,
        dot_edges(*old(g)).len() < 0xffff_ffff,
    ensures
        dot_labels(*final(g)) == dot_labels(*old(g)),
        dot_edges(*final(g)) == dot_edges(*old(g)).push((a as int, b as int, w)),
{
    g.add_edge(NodeIndex::new(a), NodeIndex::new(b), w);
}

/// Relies on the `Display` of petgraph's `dot::Dot`: the DOT text of the
/// graph, which depends on its nodes and edges alone.
#[verifier::external_body]
fn render_dot(g: &Graph<String, u64>) -> (r: String)
    ensures
        r@ == dot_text(dot_labels(*g), dot_edges(*g)),
{
    format!("{}", Dot::new(g))
}

/// The label of a node in the export: its qualified name, and for a
/// constant the text of its value on a second line.
pub open spec fn dot_label(n: Node, value: Seq<char>) -> Seq<char> {
    if n.const_data is Some {
        n.name@ + seq!['\n'] + value
    } else {
        n.name@
    }
}

/// The labels of all nodes, given the text of each node's value.
pub open spec fn dot_label_list(nodes: Seq<Node>, values: Seq<String>) -> Seq<Seq<char>> {
    Seq::new(nodes.len(), |i: int| dot_label(nodes[i], values[i]@))
}

/// The first label that starts with `name`, if any.
pub open spec fn first_prefixed(labels: Seq<Seq<char>>, name: Seq<char>) -> Option<int>
    decreases labels.len(),
{
    if labels.len() == 0 {
        None
    } else {
        match first_prefixed(labels.drop_last(), name) {
            Some(i) => Some(i),
            None => if is_prefix(name, labels.last()) {
                Some(labels.len() - 1)
            } else {
                None
            },
        }
    }
}

/// The edges of the export: each edge of the graph, in order, between the
/// first labels that start with its endpoints' names, weighted by its
/// `arg_no`; an edge with an endpoint that no label starts with is left
/// out.
pub open spec fn dot_edge_list(labels: Seq<Seq<char>>, nodes: Seq<Node>, edges: Seq<Edge>) -> Seq<(int, int, u64)>
    decreases edges.len(),
{
    if edges.len() == 0 {
        Seq::empty()
    } else {
        let rest = dot_edge_list(labels, nodes, edges.drop_last());
        let e = edges.last();
        match (
            first_prefixed(labels, nodes[e.from as int].name@),
            first_prefixed(labels, nodes[e.to as int].name@),
        ) {
            (Some(a), Some(b)) => rest.push((a, b, e.arg_no)),
            _ => rest,
        }
    }
}

proof fn lemma_first_prefixed_extend(labels: Seq<Seq<char>>, name: Seq<char>, k: int, i: int)
    requires
        0 <= k <= labels.len(),
        first_prefixed(labels.take(k), name) == Some(i),
    ensures
        first_prefixed(labels, name) == Some(i),
    decreases labels.len() - k,
{
    if k < labels.len() {
        assert(labels.take(k + 1).drop_last() =~= labels.take(k));
        lemma_first_prefixed_extend(labels, name, k + 1, i);
    } else {
        assert(labels.take(k) =~= labels);
    }
}

proof fn lemma_first_prefixed_bound(labels: Seq<Seq<char>>, name: Seq<char>)
    ensures
        first_prefixed(labels, name) matches Some(i) ==> 0 <= i < labels.len(),
    decreases labels.len(),
{
    if labels.len() > 0 {
        lemma_first_prefixed_bound(labels.drop_last(), name);
    }
}

/// The index of the first label that starts with `name`.
fn find_prefixed(labels: &Vec<String>, name: &str) -> (r: Option<usize>)
    ensures
        r matches Some(i) ==> first_prefixed(labels@.map_values(|l: String| l@), name@) == Some(i as int)
            && i < labels@.len(),
        r is None ==> first_prefixed(labels@.map_values(|l: String| l@), name@) is None,
{
    let ghost ls = labels@.map_values(|l: String| l@);
    proof {
        lemma_first_prefixed_bound(ls, name@);
    }
    let mut i: usize = 0;
    proof {
        assert(ls.take(0) =~= Seq::<Seq<char>>::empty());
    }
    while i < labels.len()
        invariant
            i <= labels@.len(),
            ls == labels@.map_values(|l: String| l@),
            first_prefixed(ls.take(i as int), name@) is None,
        decreases labels@.len() - i,
    {
        let hit = starts_with(labels[i].as_str(), name);
        proof {
            assert(ls.take(i + 1).drop_last() =~= ls.take(i as int));
            assert(ls.take(i + 1).last() == labels@[i as int]@);
        }
        if hit {
            proof {
                lemma_first_prefixed_extend(ls, name@, i + 1, i as int);
            }
            return Some(i);
        }
        i = i + 1;
    }
    proof {
        assert(ls.take(i as int) =~= ls);
    }
    None
}

impl FlowGraph {
    /// The graph in the DOT format: one node per graph node, labelled by
    /// `dot_label` with `values[i]` as the text of node `i`'s value, and one
    /// edge per graph edge as `dot_edge_list` gives them.
    pub fn dump_dot(&self, values: &Vec<String>) -> (r: String)
        requires
            self.wf(),
            values@.len() == self.nodes@.len(),
            self.nodes@.len() < 0xffff_ffff,
            self.edges@.len() < 0xffff_ffff,
        ensures
            r@ == dot_text(
                dot_label_list(self.nodes@, values@),
                dot_edge_list(dot_label_list(self.nodes@, values@), self.nodes@, self.edges@),
            ),
    {
        proof {
            reveal_strlit("\n");
        }
        let ghost want = dot_label_list(self.nodes@, values@);
        let mut g = new_dot_graph();
        let mut labels: Vec<String> = Vec::new();
        let mut i: usize = 0;
        while i < self.nodes.len()
            invariant
                i <= self.nodes@.len(),
                self.nodes@.len() < 0xffff_ffff,
                values@.len() == self.nodes@.len(),
                want == dot_label_list(self.nodes@, values@),
                labels@.map_values(|l: String| l@) == want.take(i as int),
                dot_labels(g) == want.take(i as int),
                dot_edges(g) == Seq::<(int, int, u64)>::empty(),
            decreases self.nodes@.len() - i,
        {
            let n = &self.nodes[i];
            let mut label = n.name.clone();
            if n.const_data.is_some() {
                label.append("\n");
                label.append(values[i].as_str());
            }
            proof {
                reveal_strlit("\n");
            }
            assert("\n"@ =~= seq!['\n']);
            assert(label@ =~= want[i as int]);
            let copy = label.clone();
            add_dot_node(&mut g, label);
            labels.push(copy);
            proof {
                assert(want.take(i + 1) =~= want.take(i as int).push(want[i as int]));
                assert(labels@.map_values(|l: String| l@) =~= want.take(i + 1));
            }
            i = i + 1;
        }
        proof {
            assert(want.take(i as int) =~= want);
            assert(self.edges@.take(0) =~= Seq::<Edge>::empty());
        }
        let mut k: usize = 0;
        while k < self.edges.len()
            invariant
                k <= self.edges@.len(),
                self.wf(),
                self.nodes@.len() < 0xffff_ffff,
                self.edges@.len() < 0xffff_ffff,
                labels@.map_values(|l: String| l@) == want,
                want.len() == self.nodes@.len(),
                dot_labels(g) == want,
                dot_edges(g) == dot_edge_list(want, self.nodes@, self.edges@.take(k as int)),
                dot_edges(g).len() <= k,
            decreases self.edges@.len() - k,
        {
            let e = self.edges[k];
            assert(self.edges@[k as int] == e);
            let a = find_prefixed(&labels, self.nodes[e.from].name.as_str());
            let b = find_prefixed(&labels, self.nodes[e.to].name.as_str());
            proof {
                let et = self.edges@.take(k + 1);
                assert(et.drop_last() =~= self.edges@.take(k as int));
                assert(et.last() == e);
            }
            match (a, b) {
                (Some(x), Some(y)) => {
                    add_dot_edge(&mut g, x, y, e.arg_no);
                },
                _ => {},
            }
            k = k + 1;
        }
        proof {
            assert(self.edges@.take(k as int) =~= self.edges@);
        }
        render_dot(&g)
    }
}

} // verus!
