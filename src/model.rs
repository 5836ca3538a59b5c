//! The mathematical description of the three phases: which nodes the
//! creation pass makes, what the merge keeps, and what the wiring pass
//! consumes and connects.
use vstd::prelude::*;

use crate::graph::{Constant, Edge, FlowGraph, ModuleBox, Node};
use crate::ast::{BoxDef, BoxWire, Expr, LetDef, Numeric, Port, Stmt};
use crate::text::{
    lemma_occurrence_lt_irreflexive, lemma_occurrence_lt_transitive, name_lt, name_matches,
    occurrence, occurrence_lt, qualified,
};

verus! {

/// The handles of the edges of `es` that end at node `i`, in order.
pub open spec fn edges_into(es: Seq<Edge>, i: int) -> Seq<usize>
    decreases es.len(),
{
    if es.len() == 0 {
        Seq::empty()
    } else {
        edges_into(es.drop_last(), i) + if es.last().to == i {
            seq![(es.len() - 1) as usize]
        } else {
            Seq::empty()
        }
    }
}

/// The handles of the edges of `es` that start at node `i`, in order.
pub open spec fn edges_out_of(es: Seq<Edge>, i: int) -> Seq<usize>
    decreases es.len(),
{
    if es.len() == 0 {
        Seq::empty()
    } else {
        edges_out_of(es.drop_last(), i) + if es.last().from == i {
            seq![(es.len() - 1) as usize]
        } else {
            Seq::empty()
        }
    }
}

/// Each node's inputs and outputs are exactly the edges that end and start
/// at it, in the order the edges were made.
pub open spec fn incidence(nodes: Seq<Node>, es: Seq<Edge>) -> bool {
    forall|i: int|
        0 <= i < nodes.len() ==> (#[trigger] nodes[i]).inputs@ == edges_into(es, i)
            && nodes[i].outputs@ == edges_out_of(es, i)
}

proof fn lemma_edges_none(es: Seq<Edge>, i: int)
    requires
        forall|k: int| 0 <= k < es.len() ==> (#[trigger] es[k]).to != i && es[k].from != i,
    ensures
        edges_into(es, i) == Seq::<usize>::empty(),
        edges_out_of(es, i) == Seq::<usize>::empty(),
    decreases es.len(),
{
    if es.len() > 0 {
        assert(es.last() == es[es.len() - 1]);
        lemma_edges_none(es.drop_last(), i);
        assert(edges_into(es, i) =~= Seq::<usize>::empty());
        assert(edges_out_of(es, i) =~= Seq::<usize>::empty());
    }
}

/// A node with no edges added after all edges' endpoints keeps incidence.
pub(crate) proof fn lemma_incidence_new_node(nodes: Seq<Node>, es: Seq<Edge>, n: Node)
    requires
        incidence(nodes, es),
        forall|k: int| 0 <= k < es.len() ==> (#[trigger] es[k]).to < nodes.len() && es[k].from < nodes.len(),
        n.inputs@.len() == 0,
        n.outputs@.len() == 0,
    ensures
        incidence(nodes.push(n), es),
{
    lemma_edges_none(es, nodes.len() as int);
    assert forall|i: int| 0 <= i < nodes.push(n).len() implies (#[trigger] nodes.push(n)[i]).inputs@
        == edges_into(es, i) && nodes.push(n)[i].outputs@ == edges_out_of(es, i) by {
        if i < nodes.len() {
            assert(nodes.push(n)[i] == nodes[i]);
        } else {
            assert(n.inputs@ =~= Seq::<usize>::empty());
            assert(n.outputs@ =~= Seq::<usize>::empty());
        }
    }
}

/// Without edges, nodes with empty input and output lists have incidence.
pub(crate) proof fn lemma_incidence_fresh(nodes: Seq<Node>)
    requires
        forall|i: int| 0 <= i < nodes.len() ==> (#[trigger] nodes[i]).inputs@.len() == 0
            && nodes[i].outputs@.len() == 0,
    ensures
        incidence(nodes, Seq::<Edge>::empty()),
{
    assert forall|i: int| 0 <= i < nodes.len() implies (#[trigger] nodes[i]).inputs@
        == edges_into(Seq::<Edge>::empty(), i) && nodes[i].outputs@ == edges_out_of(Seq::<Edge>::empty(), i) by {
        assert(nodes[i].inputs@ =~= Seq::<usize>::empty());
        assert(nodes[i].outputs@ =~= Seq::<usize>::empty());
    }
}

/// Adding an edge and recording it on its two endpoints keeps incidence.
pub(crate) proof fn lemma_incidence_edge(nodes: Seq<Node>, es: Seq<Edge>, fin: Seq<Node>, e: Edge)
    requires
        incidence(nodes, es),
        fin.len() == nodes.len(),
        forall|i: int|
            0 <= i < fin.len() ==> (#[trigger] fin[i]).outputs@ == if i == e.from {
                nodes[i].outputs@.push(es.len() as usize)
            } else {
                nodes[i].outputs@
            } && fin[i].inputs@ == if i == e.to {
                nodes[i].inputs@.push(es.len() as usize)
            } else {
                nodes[i].inputs@
            },
    ensures
        incidence(fin, es.push(e)),
{
    assert(es.push(e).drop_last() =~= es);
    assert forall|i: int| 0 <= i < fin.len() implies (#[trigger] fin[i]).inputs@ == edges_into(es.push(e), i)
        && fin[i].outputs@ == edges_out_of(es.push(e), i) by {
        assert(nodes[i].inputs@ == edges_into(es, i));
        assert(fin[i].inputs@ =~= edges_into(es.push(e), i));
        assert(fin[i].outputs@ =~= edges_out_of(es.push(e), i));
    }
}

/// Nodes with no edges gather no edges.
pub(crate) proof fn lemma_gathered_empty(ns: Seq<Node>, name: Seq<char>)
    requires
        forall|i: int| 0 <= i < ns.len() ==> (#[trigger] ns[i]).inputs@.len() == 0 && ns[i].outputs@.len() == 0,
    ensures
        gathered_inputs(ns, name).len() == 0,
        gathered_outputs(ns, name).len() == 0,
    decreases ns.len(),
{
    if ns.len() > 0 {
        assert(ns.last() == ns[ns.len() - 1]);
        assert forall|i: int| 0 <= i < ns.drop_last().len() implies (#[trigger] ns.drop_last()[i]).inputs@.len() == 0
            && ns.drop_last()[i].outputs@.len() == 0 by {
            assert(ns.drop_last()[i] == ns[i]);
        }
        lemma_gathered_empty(ns.drop_last(), name);
    }
}

/// The occurrence count of `kind` in a counter list: the value of its last
/// entry for that kind, or 0.
pub open spec fn count_of(v: Seq<(String, u64)>, kind: Seq<char>) -> nat
    decreases v.len(),
{
    if v.len() == 0 {
        0
    } else if v.last().0@ == kind {
        v.last().1 as nat
    } else {
        count_of(v.drop_last(), kind)
    }
}

/// The counters as a map from kind to next free index.
pub open spec fn counts(v: Seq<(String, u64)>) -> Map<Seq<char>, nat> {
    Map::new(|k: Seq<char>| true, |k: Seq<char>| count_of(v, k))
}

/// The next free index of `kind` in a counter map.
pub open spec fn next_index(c: Map<Seq<char>, nat>, kind: Seq<char>) -> nat {
    if c.contains_key(kind) {
        c[kind]
    } else {
        0
    }
}

/// IEEE-754 equality of two `f32` values given by their bit patterns: no NaN
/// equals anything, the two zeros are equal, and otherwise the patterns must
/// agree.
pub open spec fn f32_bits_equal(a: u32, b: u32) -> bool {
    let a_nan = (a & 0x7f80_0000u32) == 0x7f80_0000u32 && (a & 0x007f_ffffu32) != 0;
    ((a & 0x7fff_ffffu32) == 0 && (b & 0x7fff_ffffu32) == 0) || (a == b && !a_nan)
}

/// Whether a constant node's value equals a literal: an integer literal an
/// `Int32` constant of the same value, a float literal a `Float32` constant of
/// equal value.
pub open spec fn const_equals(c: Option<Constant>, v: Numeric) -> bool {
    match (c, v) {
        (Some(Constant::Int32(x)), Numeric::Int32(y)) => x == y,
        (Some(Constant::Float32(x)), Numeric::Float(y)) => f32_bits_equal(x, y),
        _ => false,
    }
}

/// The constant that a literal becomes.
pub open spec fn const_of(v: Numeric) -> Constant {
    match v {
        Numeric::Int32(x) => Constant::Int32(x),
        Numeric::Float(x) => Constant::Float32(x),
    }
}

/// What the wiring pass reads of each node: its name, constant and box.
pub open spec fn vertex_views(ns: Seq<Node>) -> Seq<Made> {
    ns.map_values(|n: Node| (n.name@, n.const_data, n.parent_box.name@))
}

/// Whether node `i` answers a request for `req` and has not been consumed.
pub open spec fn answers(vs: Seq<Made>, popped: Seq<bool>, i: int, req: Seq<char>) -> bool {
    0 <= i < vs.len() && i < popped.len() && !popped[i] && name_matches(vs[i].0, req)
}

/// Node `i` is taken before node `j`: its name comes first in
/// `occurrence_lt`, or the names are equal and `i` comes first in the list.
pub open spec fn ranks_before(vs: Seq<Made>, i: int, j: int) -> bool {
    occurrence_lt(vs[i].0, vs[j].0) || (vs[i].0 == vs[j].0 && i < j)
}

/// The node that a request for `req` resolves to: of the unconsumed nodes
/// that answer it, the one taken first (see `ranks_before`). For an
/// operator this is the unconsumed occurrence with the smallest index.
pub open spec fn resolves_to(vs: Seq<Made>, popped: Seq<bool>, req: Seq<char>, i: int) -> bool {
    &&& answers(vs, popped, i, req)
    &&& forall|j: int| #![trigger answers(vs, popped, j, req)]
        j != i && answers(vs, popped, j, req) ==> ranks_before(vs, i, j)
}

/// Whether node `i` is a constant of box `bx` equal to the literal `v`.
pub open spec fn const_node_for(vs: Seq<Made>, bx: Seq<char>, v: Numeric, i: int) -> bool {
    0 <= i < vs.len() && vs[i].2 == bx && const_equals(vs[i].1, v)
}

pub proof fn lemma_count_update(v: Seq<(String, u64)>, i: int, x: (String, u64), k: Seq<char>)
    requires
        0 <= i < v.len(),
        x.0@ == v[i].0@,
        forall|j: int| i < j < v.len() ==> v[j].0@ != v[i].0@,
    ensures
        count_of(v.update(i, x), k) == if k == v[i].0@ {
            x.1 as nat
        } else {
            count_of(v, k)
        },
    decreases v.len(),
{
    if i < v.len() - 1 {
        assert(v.update(i, x).drop_last() =~= v.drop_last().update(i, x));
        lemma_count_update(v.drop_last(), i, x, k);
    } else {
        assert(v.update(i, x).drop_last() =~= v.drop_last());
    }
}

pub proof fn lemma_count_absent(v: Seq<(String, u64)>, k: Seq<char>)
    requires
        forall|j: int| 0 <= j < v.len() ==> v[j].0@ != k,
    ensures
        count_of(v, k) == 0,
    decreases v.len(),
{
    if v.len() > 0 {
        lemma_count_absent(v.drop_last(), k);
    }
}

/// The kind under which literals are counted.
pub open spec fn const_kind() -> Seq<char> {
    seq!['c', 'o', 'n', 's', 't']
}

/// A node that the creation pass makes: its qualified name, its constant if
/// any, and the name of its box.
pub type Made = (Seq<char>, Option<Constant>, Seq<char>);

/// The nodes that the creation pass makes for `e` in box `bx`, in order,
/// starting from the counters `c`, and the counters after it: a literal
/// becomes `bx/const@n`, an operator `bx/op@n` followed by the nodes of its
/// arguments from left to right, an identifier `bx/name`.
pub open spec fn created(e: Expr, bx: Seq<char>, c: Map<Seq<char>, nat>) -> (Seq<Made>, Map<Seq<char>, nat>)
    decreases e,
{
    match e {
        Expr::Num(v) => {
            let n = next_index(c, const_kind());
            (
                seq![(qualified(bx, occurrence(const_kind(), n)), Some(const_of(v)), bx)],
                c.insert(const_kind(), n + 1),
            )
        },
        Expr::NodeIdent(name) => (seq![(qualified(bx, name@), None::<Constant>, bx)], c),
        Expr::Operator(op, args) => {
            let n = next_index(c, op@);
            let rest = created_list(args@, bx, c.insert(op@, n + 1));
            (seq![(qualified(bx, occurrence(op@, n)), None::<Constant>, bx)] + rest.0, rest.1)
        },
    }
}

/// `created` over a list of expressions, from left to right.
pub open spec fn created_list(args: Seq<Expr>, bx: Seq<char>, c: Map<Seq<char>, nat>) -> (Seq<Made>, Map<Seq<char>, nat>)
    decreases args,
{
    if args.len() == 0 {
        (Seq::empty(), c)
    } else {
        let p = created_list(args.subrange(0, args.len() - 1), bx, c);
        let l = created(args[args.len() - 1], bx, p.1);
        (p.0 + l.0, l.1)
    }
}

/// Node `n` is the made node `m`, with id `id` and no edges.
pub open spec fn is_made(n: Node, m: Made, id: int) -> bool {
    &&& n.name@ == m.0
    &&& n.const_data == m.1
    &&& n.parent_box.name@ == m.2
    &&& n.id == id
    &&& n.inputs@.len() == 0
    &&& n.outputs@.len() == 0
}

/// The nodes from `start` on are the made nodes `ms`, in order.
pub open spec fn holds_made(nodes: Seq<Node>, start: int, ms: Seq<Made>) -> bool {
    &&& nodes.len() == start + ms.len()
    &&& forall|k: int| 0 <= k < ms.len() ==> is_made(#[trigger] nodes[start + k], ms[k], start + k)
}

/// Names strictly increase along the list: no name occurs twice.
pub open spec fn sorted_by_name(ns: Seq<Node>) -> bool {
    forall|i: int, j: int| 0 <= i < j < ns.len() ==> name_lt(#[trigger] ns[i].name@, #[trigger] ns[j].name@)
}

/// Some node of `ns` is named `name`.
pub open spec fn has_name(ns: Seq<Node>, name: Seq<char>) -> bool {
    exists|i: int| 0 <= i < ns.len() && #[trigger] ns[i].name@ == name
}

/// Node `f` is the first of `ns` named `name`.
pub open spec fn is_first_named(ns: Seq<Node>, f: int, name: Seq<char>) -> bool {
    &&& 0 <= f < ns.len()
    &&& ns[f].name@ == name
    &&& forall|g: int| 0 <= g < f ==> #[trigger] ns[g].name@ != name
}

/// The input edges of all nodes of `ns` named `name`, in list order.
pub open spec fn gathered_inputs(ns: Seq<Node>, name: Seq<char>) -> Seq<usize>
    decreases ns.len(),
{
    if ns.len() == 0 {
        Seq::empty()
    } else {
        gathered_inputs(ns.drop_last(), name) + if ns.last().name@ == name {
            ns.last().inputs@
        } else {
            Seq::empty()
        }
    }
}

/// The output edges of all nodes of `ns` named `name`, in list order.
pub open spec fn gathered_outputs(ns: Seq<Node>, name: Seq<char>) -> Seq<usize>
    decreases ns.len(),
{
    if ns.len() == 0 {
        Seq::empty()
    } else {
        gathered_outputs(ns.drop_last(), name) + if ns.last().name@ == name {
            ns.last().outputs@
        } else {
            Seq::empty()
        }
    }
}

/// `s` is what the merge keeps of the nodes of `ns` that share its name: the
/// first of them, with the edges of all of them.
pub open spec fn survivor_of(s: Node, ns: Seq<Node>) -> bool {
    exists|f: int|
        #![trigger ns[f]]
        is_first_named(ns, f, s.name@) && s.id == ns[f].id && s.parent_box == ns[f].parent_box
            && s.const_data == ns[f].const_data && s.inputs@ == gathered_inputs(ns, s.name@)
            && s.outputs@ == gathered_outputs(ns, s.name@)
}

/// The outcome of the merge of `orig`: one node per name, sorted by name,
/// each the survivor of its group.
pub open spec fn merged_from(out: Seq<Node>, orig: Seq<Node>) -> bool {
    &&& sorted_by_name(out)
    &&& forall|i: int| 0 <= i < orig.len() ==> has_name(out, #[trigger] orig[i].name@)
    &&& forall|j: int| 0 <= j < out.len() ==> survivor_of(#[trigger] out[j], orig)
}

/// The `arg_no`s of the edges of `es` that end at node `to`, in list order.
pub open spec fn arg_nos_into(es: Seq<Edge>, to: usize) -> Seq<u64>
    decreases es.len(),
{
    if es.len() == 0 {
        Seq::empty()
    } else {
        arg_nos_into(es.drop_last(), to) + if es.last().to == to {
            seq![es.last().arg_no]
        } else {
            Seq::empty()
        }
    }
}

/// `0, 1, ..., n - 1`.
pub open spec fn positions(n: nat) -> Seq<u64> {
    Seq::new(n, |j: int| j as u64)
}

/// Two node lists hold the same vertices: names, ids, boxes and constants
/// agree; only the edge lists may differ.
pub open spec fn same_vertices(a: Seq<Node>, b: Seq<Node>) -> bool {
    &&& a.len() == b.len()
    &&& forall|i: int|
        0 <= i < a.len() ==> {
            &&& (#[trigger] a[i]).name == b[i].name
            &&& a[i].id == b[i].id
            &&& a[i].parent_box == b[i].parent_box
            &&& a[i].const_data == b[i].const_data
        }
}

/// What a step of the wiring pass may do to the graph: keep the vertices
/// and the edges so far, consume more nodes, and add only edges that end at
/// a node that it consumed itself.
pub open spec fn wiring_step(a: FlowGraph, b: FlowGraph) -> bool {
    &&& a.wf()
    &&& b.wf()
    &&& same_vertices(a.nodes@, b.nodes@)
    &&& a.edges@.len() <= b.edges@.len()
    &&& b.edges@.take(a.edges@.len() as int) == a.edges@
    &&& forall|i: int| 0 <= i < a.popped_nodes@.len() && #[trigger] a.popped_nodes@[i] ==> b.popped_nodes@[i]
    &&& forall|k: int|
        a.edges@.len() <= k < b.edges@.len() ==> !a.popped_nodes@[#[trigger] b.edges@[k].to as int]
            && b.popped_nodes@[b.edges@[k].to as int]
    &&& b.node_id_counter == a.node_id_counter
    &&& b.boxes == a.boxes
    &&& b.ast == a.ast
    &&& b.timestamp == a.timestamp
}

pub(crate) proof fn lemma_arg_nos_append(es: Seq<Edge>, more: Seq<Edge>, to: usize)
    requires
        forall|k: int| 0 <= k < more.len() ==> (#[trigger] more[k]).to != to,
    ensures
        arg_nos_into(es + more, to) == arg_nos_into(es, to),
    decreases more.len(),
{
    if more.len() > 0 {
        let m2 = more.drop_last();
        assert((es + more).drop_last() =~= es + m2);
        lemma_arg_nos_append(es, m2, to);
    } else {
        assert(es + more =~= es);
    }
}

pub(crate) proof fn lemma_wiring_step_same_edges(a: FlowGraph, b: FlowGraph)
    requires
        a.wf(),
        b.wf(),
        b.nodes == a.nodes,
        b.edges == a.edges,
        b.popped_nodes@.len() == a.popped_nodes@.len(),
        forall|i: int| 0 <= i < a.popped_nodes@.len() && #[trigger] a.popped_nodes@[i] ==> b.popped_nodes@[i],
        b.node_id_counter == a.node_id_counter,
        b.boxes == a.boxes,
        b.ast == a.ast,
        b.timestamp == a.timestamp,
    ensures
        wiring_step(a, b),
{
    assert(b.edges@.take(a.edges@.len() as int) =~= a.edges@);
}

pub(crate) proof fn lemma_wiring_step_trans(a: FlowGraph, b: FlowGraph, c: FlowGraph)
    requires
        wiring_step(a, b),
        wiring_step(b, c),
    ensures
        wiring_step(a, c),
{
    assert forall|k: int|
        a.edges@.len() <= k < c.edges@.len() implies !a.popped_nodes@[#[trigger] c.edges@[k].to as int]
        && c.popped_nodes@[c.edges@[k].to as int] by {
        let to = c.edges@[k].to as int;
        assert(0 <= to < c.nodes@.len());
        if k < b.edges@.len() {
            assert(c.edges@[k] == c.edges@.take(b.edges@.len() as int)[k]);
            assert(b.edges@[k] == c.edges@[k]);
            assert(!a.popped_nodes@[to] && b.popped_nodes@[to]);
        } else {
            assert(!b.popped_nodes@[to] && c.popped_nodes@[to]);
            if a.popped_nodes@[to] {
                assert(b.popped_nodes@[to]);
            }
        }
    }
    assert forall|i: int| 0 <= i < a.popped_nodes@.len() && #[trigger] a.popped_nodes@[i] implies c.popped_nodes@[i] by {
        assert(b.popped_nodes@[i]);
    }
    assert forall|i: int| 0 <= i < a.nodes@.len() implies {
        &&& (#[trigger] a.nodes@[i]).name == c.nodes@[i].name
        &&& a.nodes@[i].id == c.nodes@[i].id
        &&& a.nodes@[i].parent_box == c.nodes@[i].parent_box
        &&& a.nodes@[i].const_data == c.nodes@[i].const_data
    } by {
        assert(a.nodes@[i].name == b.nodes@[i].name);
        assert(b.nodes@[i].name == c.nodes@[i].name);
    }
    assert(c.edges@.take(a.edges@.len() as int) =~= c.edges@.take(b.edges@.len() as int).take(a.edges@.len() as int));
}

/// The zero counters that each box starts from.
pub open spec fn fresh_counts() -> Map<Seq<char>, nat> {
    counts(Seq::<(String, u64)>::empty())
}

/// The declared name of a port.
pub open spec fn port_name(p: Port) -> Seq<char> {
    match p {
        Port::In(n, _) => n@,
        Port::Out(n, _) => n@,
    }
}

/// The nodes made for the ports of box `bx`, one per port, in order.
pub open spec fn created_ports(ps: Seq<Port>, bx: Seq<char>) -> Seq<Made> {
    ps.map_values(|p: Port| (qualified(bx, port_name(p)), None::<Constant>, bx))
}

/// The nodes made for one statement: a `let` makes its bound name, then the
/// nodes of its expression; a wire statement makes its name only.
pub open spec fn created_stmt(st: Stmt, bx: Seq<char>, c: Map<Seq<char>, nat>) -> (Seq<Made>, Map<Seq<char>, nat>) {
    match st {
        Stmt::LetDef(LetDef::Let(n, e)) => {
            let r = created(e, bx, c);
            (seq![(qualified(bx, n@), None::<Constant>, bx)] + r.0, r.1)
        },
        Stmt::BoxWire(BoxWire::Boxw(n, _)) => (seq![(qualified(bx, n@), None::<Constant>, bx)], c),
    }
}

/// `created_stmt` over the statements of a box, in order.
pub open spec fn created_stmts(ss: Seq<Stmt>, bx: Seq<char>, c: Map<Seq<char>, nat>) -> (Seq<Made>, Map<Seq<char>, nat>)
    decreases ss.len(),
{
    if ss.len() == 0 {
        (Seq::empty(), c)
    } else {
        let p = created_stmts(ss.drop_last(), bx, c);
        let l = created_stmt(ss.last(), bx, p.1);
        (p.0 + l.0, l.1)
    }
}

/// The nodes that the creation pass makes for a box: its ports, then its
/// statements, with counters that start from zero.
pub open spec fn created_box(b: BoxDef) -> Seq<Made> {
    match b {
        BoxDef::ModuleBox(name, ps, ss) => created_ports(ps@, name@) + created_stmts(
            ss@,
            name@,
            fresh_counts(),
        ).0,
    }
}

/// The nodes that the creation pass makes for all boxes, in order.
pub open spec fn created_all(bs: Seq<BoxDef>) -> Seq<Made>
    decreases bs.len(),
{
    if bs.len() == 0 {
        Seq::empty()
    } else {
        created_all(bs.drop_last()) + created_box(bs.last())
    }
}

/// The graph's nodes are what the merge makes of the nodes that the
/// creation pass makes for `bs`, with edges added since.
pub open spec fn nodes_built_from(nodes: Seq<Node>, bs: Seq<BoxDef>) -> bool {
    exists|c1: Seq<Node>, merged: Seq<Node>|
        holds_made(c1, 0, created_all(bs)) && merged_from(merged, c1) && same_vertices(
            merged,
            nodes,
        )
}

/// What the wiring pass has done so far: the consumption flag of each node,
/// and the edges as (from, to, arg_no).
pub type Wiring = (Seq<bool>, Seq<(int, int, u64)>);

/// The edges as (from, to, arg_no).
pub open spec fn edge_triples(es: Seq<Edge>) -> Seq<(int, int, u64)> {
    es.map_values(|e: Edge| (e.from as int, e.to as int, e.arg_no))
}

/// The node that a request for `req` resolves to, if any.
pub open spec fn resolution(vs: Seq<Made>, popped: Seq<bool>, req: Seq<char>) -> Option<int> {
    if exists|i: int| resolves_to(vs, popped, req, i) {
        Some(choose|i: int| resolves_to(vs, popped, req, i))
    } else {
        None
    }
}

/// Node `i` is the first constant of box `bx` equal to the literal `v`.
pub open spec fn first_const_for(vs: Seq<Made>, bx: Seq<char>, v: Numeric, i: int) -> bool {
    const_node_for(vs, bx, v, i) && forall|j: int| 0 <= j < i ==> !const_node_for(vs, bx, v, j)
}

/// The constant node that a literal of box `bx` resolves to, if any.
pub open spec fn const_resolution(vs: Seq<Made>, bx: Seq<char>, v: Numeric) -> Option<int> {
    if exists|i: int| first_const_for(vs, bx, v, i) {
        Some(choose|i: int| first_const_for(vs, bx, v, i))
    } else {
        None
    }
}

/// The wiring pass over expression `e` of box `bx`, from state `w`: the
/// state after it and the node that `e` resolves to, or the qualified name
/// of the first reference that does not resolve. A literal resolves to the
/// first equal constant of the box and consumes nothing (it fails as
/// `bx/const`); an identifier consumes the node its name resolves to; an
/// operator consumes its node, then wires its arguments into it.
pub open spec fn wired(vs: Seq<Made>, bx: Seq<char>, e: Expr, w: Wiring) -> Result<(Wiring, int), Seq<char>>
    decreases e,
{
    match e {
        Expr::Num(v) => match const_resolution(vs, bx, v) {
            Some(i) => Ok((w, i)),
            None => Err(qualified(bx, const_kind())),
        },
        Expr::NodeIdent(n) => match resolution(vs, w.0, qualified(bx, n@)) {
            Some(i) => Ok(((w.0.update(i, true), w.1), i)),
            None => Err(qualified(bx, n@)),
        },
        Expr::Operator(op, args) => match resolution(vs, w.0, qualified(bx, op@)) {
            Some(t) => match wired_args(vs, bx, args@, t, (w.0.update(t, true), w.1)) {
                Ok(w2) => Ok((w2, t)),
                Err(q) => Err(q),
            },
            None => Err(qualified(bx, op@)),
        },
    }
}

/// The arguments `args` of operator node `t`, wired from left to right:
/// each resolves to a node, and an edge from that node to `t` records the
/// argument's position.
pub open spec fn wired_args(vs: Seq<Made>, bx: Seq<char>, args: Seq<Expr>, t: int, w: Wiring) -> Result<Wiring, Seq<char>>
    decreases args,
{
    if args.len() == 0 {
        Ok(w)
    } else {
        match wired_args(vs, bx, args.subrange(0, args.len() - 1), t, w) {
            Ok(w1) => match wired(vs, bx, args[args.len() - 1], w1) {
                Ok((w2, src)) => Ok((w2.0, w2.1.push((src, t, (args.len() - 1) as u64)))),
                Err(q) => Err(q),
            },
            Err(q) => Err(q),
        }
    }
}

/// One `let name e` of box `bx`: the node of `name` is consumed, `e` is
/// wired, and an edge at position 0 goes from `e`'s node to it.
pub open spec fn wired_let(vs: Seq<Made>, bx: Seq<char>, name: Seq<char>, e: Expr, w: Wiring) -> Result<Wiring, Seq<char>> {
    match resolution(vs, w.0, qualified(bx, name)) {
        Some(d) => match wired(vs, bx, e, (w.0.update(d, true), w.1)) {
            Ok((w2, src)) => Ok((w2.0, w2.1.push((src, d, 0u64)))),
            Err(q) => Err(q),
        },
        None => Err(qualified(bx, name)),
    }
}

/// The statements of box `bx`, wired in order; wire statements change
/// nothing.
pub open spec fn wired_stmts(vs: Seq<Made>, bx: Seq<char>, ss: Seq<Stmt>, w: Wiring) -> Result<Wiring, Seq<char>>
    decreases ss.len(),
{
    if ss.len() == 0 {
        Ok(w)
    } else {
        match wired_stmts(vs, bx, ss.drop_last(), w) {
            Ok(w1) => match ss.last() {
                Stmt::LetDef(LetDef::Let(n, e)) => wired_let(vs, bx, n@, e, w1),
                Stmt::BoxWire(_) => Ok(w1),
            },
            Err(q) => Err(q),
        }
    }
}

/// All boxes, wired in order.
pub open spec fn wired_all(vs: Seq<Made>, bs: Seq<BoxDef>, w: Wiring) -> Result<Wiring, Seq<char>>
    decreases bs.len(),
{
    if bs.len() == 0 {
        Ok(w)
    } else {
        match wired_all(vs, bs.drop_last(), w) {
            Ok(w1) => match bs.last() {
                BoxDef::ModuleBox(name, _, ss) => wired_stmts(vs, name@, ss@, w1),
            },
            Err(q) => Err(q),
        }
    }
}

pub(crate) proof fn lemma_resolution_is(vs: Seq<Made>, popped: Seq<bool>, req: Seq<char>, i: int)
    requires
        resolves_to(vs, popped, req, i),
    ensures
        resolution(vs, popped, req) == Some(i),
{
    let k = choose|k: int| resolves_to(vs, popped, req, k);
    if k != i {
        assert(ranks_before(vs, i, k));
        assert(ranks_before(vs, k, i));
        lemma_occurrence_lt_irreflexive(vs[i].0);
        if occurrence_lt(vs[i].0, vs[k].0) && occurrence_lt(vs[k].0, vs[i].0) {
            lemma_occurrence_lt_transitive(vs[i].0, vs[k].0, vs[i].0);
        }
    }
}

pub(crate) proof fn lemma_const_resolution_is(vs: Seq<Made>, bx: Seq<char>, v: Numeric, i: int)
    requires
        first_const_for(vs, bx, v, i),
    ensures
        const_resolution(vs, bx, v) == Some(i),
{
    let k = choose|k: int| first_const_for(vs, bx, v, k);
    if k < i {
        assert(!const_node_for(vs, bx, v, k));
    } else if i < k {
        assert(!const_node_for(vs, bx, v, i));
    }
}

pub(crate) proof fn lemma_wired_args_none(vs: Seq<Made>, bx: Seq<char>, args: Seq<Expr>, t: int, w: Wiring, k: int, q: Seq<char>)
    requires
        0 <= k <= args.len(),
        wired_args(vs, bx, args.subrange(0, k), t, w) == Err::<Wiring, Seq<char>>(q),
    ensures
        wired_args(vs, bx, args, t, w) == Err::<Wiring, Seq<char>>(q),
    decreases args.len() - k,
{
    if k < args.len() {
        let s = args.subrange(0, k + 1);
        assert(s.subrange(0, s.len() - 1) =~= args.subrange(0, k));
        lemma_wired_args_none(vs, bx, args, t, w, k + 1, q);
    } else {
        assert(args.subrange(0, k) =~= args);
    }
}

pub(crate) proof fn lemma_wired_stmts_none(vs: Seq<Made>, bx: Seq<char>, ss: Seq<Stmt>, w: Wiring, k: int, q: Seq<char>)
    requires
        0 <= k <= ss.len(),
        wired_stmts(vs, bx, ss.take(k), w) == Err::<Wiring, Seq<char>>(q),
    ensures
        wired_stmts(vs, bx, ss, w) == Err::<Wiring, Seq<char>>(q),
    decreases ss.len() - k,
{
    if k < ss.len() {
        assert(ss.take(k + 1).drop_last() =~= ss.take(k));
        lemma_wired_stmts_none(vs, bx, ss, w, k + 1, q);
    } else {
        assert(ss.take(k) =~= ss);
    }
}

pub(crate) proof fn lemma_wired_all_none(vs: Seq<Made>, bs: Seq<BoxDef>, w: Wiring, k: int, q: Seq<char>)
    requires
        0 <= k <= bs.len(),
        wired_all(vs, bs.take(k), w) == Err::<Wiring, Seq<char>>(q),
    ensures
        wired_all(vs, bs, w) == Err::<Wiring, Seq<char>>(q),
    decreases bs.len() - k,
{
    if k < bs.len() {
        assert(bs.take(k + 1).drop_last() =~= bs.take(k));
        lemma_wired_all_none(vs, bs, w, k + 1, q);
    } else {
        assert(bs.take(k) =~= bs);
    }
}

pub(crate) proof fn lemma_same_vertex_views(a: Seq<Node>, b: Seq<Node>)
    requires
        same_vertices(a, b),
    ensures
        vertex_views(a) == vertex_views(b),
{
    assert forall|i: int| 0 <= i < a.len() implies vertex_views(a)[i] == vertex_views(b)[i] by {
        assert(a[i].name == b[i].name);
    }
    assert(vertex_views(a) =~= vertex_views(b));
}

pub(crate) proof fn lemma_edge_triples_push(es: Seq<Edge>, e: Edge)
    ensures
        edge_triples(es.push(e)) == edge_triples(es).push((e.from as int, e.to as int, e.arg_no)),
{
    assert(edge_triples(es.push(e)) =~= edge_triples(es).push((e.from as int, e.to as int, e.arg_no)));
}

/// The state that the wiring pass starts from over `n` nodes: nothing
/// consumed, no edges.
pub open spec fn unwired(n: nat) -> Wiring {
    (Seq::new(n, |i: int| false), Seq::<(int, int, u64)>::empty())
}

/// `g` is the graph of the boxes `bs`: its nodes are what the creation pass
/// and the merge make of them, and its consumption flags and edges are
/// what the wiring pass makes over those nodes.
pub open spec fn built_from(g: FlowGraph, bs: Seq<BoxDef>) -> bool {
    &&& nodes_built_from(g.nodes@, bs)
    &&& wired_all(vertex_views(g.nodes@), bs, unwired(g.nodes@.len())) == Ok::<Wiring, Seq<char>>(
        (g.popped_nodes@, edge_triples(g.edges@)),
    )
}

/// The build of the boxes `bs` fails at `q`: the wiring pass over the nodes
/// that creation and merge make of them meets first a reference, with
/// qualified name `q`, that does not resolve.
pub open spec fn build_fails(bs: Seq<BoxDef>, q: Seq<char>) -> bool {
    exists|ns: Seq<Node>|
        nodes_built_from(ns, bs) && #[trigger] wired_all(vertex_views(ns), bs, unwired(ns.len()))
            == Err::<Wiring, Seq<char>>(q)
}

pub(crate) proof fn lemma_nodes_built(c1: Seq<Node>, merged: Seq<Node>, nodes: Seq<Node>, bs: Seq<BoxDef>)
    requires
        holds_made(c1, 0, created_all(bs)),
        merged_from(merged, c1),
        same_vertices(merged, nodes),
    ensures
        nodes_built_from(nodes, bs),
{
}

pub proof fn lemma_counts_bound(pre: Seq<(String, u64)>, post: Seq<(String, u64)>, kind: Seq<char>, bound: int)
    requires
        forall|k: Seq<char>| #[trigger] count_of(pre, k) <= bound,
        counts(post) == counts(pre).insert(kind, count_of(pre, kind) + 1),
    ensures
        forall|k: Seq<char>| #[trigger] count_of(post, k) <= bound + 1,
{
    assert forall|k: Seq<char>| #[trigger] count_of(post, k) <= bound + 1 by {
        assert(counts(post)[k] == count_of(post, k));
        assert(counts(pre)[k] == count_of(pre, k));
    }
}

pub proof fn lemma_holds_concat(
    mid: Seq<Node>,
    fin: Seq<Node>,
    start: int,
    a: Seq<Made>,
    b: Seq<Made>,
)
    requires
        holds_made(mid, start, a),
        fin.take(mid.len() as int) == mid,
        holds_made(fin, mid.len() as int, b),
    ensures
        holds_made(fin, start, a + b),
{
    assert forall|k: int| 0 <= k < (a + b).len() implies is_made(
        #[trigger] fin[start + k],
        (a + b)[k],
        start + k,
    ) by {
        if k < a.len() {
            assert(fin[start + k] == fin.take(mid.len() as int)[start + k]);
            assert(is_made(mid[start + k], a[k], start + k));
        } else {
            assert(is_made(fin[mid.len() + (k - a.len())], b[k - a.len()], mid.len() + (k - a.len())));
        }
    }
}

} // verus!
