//! What holds of every build: node identity, occurrence order, argument
//! positions, consumption once, and determinism.
use vstd::prelude::*;

use crate::graph::{FlowGraph, Node};
use crate::model::{
    Made, Wiring, answers, build_fails, built_from, const_resolution, created_all, edge_triples,
    first_const_for, gathered_inputs, gathered_outputs, has_name, holds_made, is_first_named,
    is_made, lemma_resolution_is, merged_from, nodes_built_from, positions, ranks_before,
    resolution, resolves_to, same_vertices, survivor_of, unwired, vertex_views, wired,
    wired_all, wired_args, wired_let, wired_stmts, wiring_step,
};
use crate::ast::{BoxDef, Expr, LetDef, Stmt};
use crate::text::{
    lemma_name_lt_irreflexive, lemma_name_lt_transitive, lemma_occurrence_lt_irreflexive,
    lemma_occurrence_order, name_lt, occurrence, qualified,
};

verus! {

/// Node identity: after a build, every name that the creation pass made
/// (a port, a binding, or an `op@k` / `const@k` occurrence) is the name of
/// exactly one node.
pub proof fn lemma_node_identity(nodes: Seq<Node>, bs: Seq<BoxDef>, k: int)
    requires
        nodes_built_from(nodes, bs),
        0 <= k < created_all(bs).len(),
    ensures
        exists|i: int| 0 <= i < nodes.len() && #[trigger] nodes[i].name@ == created_all(bs)[k].0,
        forall|i: int, j: int|
            0 <= i < nodes.len() && 0 <= j < nodes.len() && #[trigger] nodes[i].name@ == #[trigger] nodes[j].name@
                ==> i == j,
{
    let (c1, merged) = choose|c1: Seq<Node>, merged: Seq<Node>|
        holds_made(c1, 0, created_all(bs)) && merged_from(merged, c1) && same_vertices(merged, nodes);
    assert(is_made(c1[0 + k], created_all(bs)[k], 0 + k));
    assert(has_name(merged, c1[k].name@));
    let i = choose|i: int| 0 <= i < merged.len() && #[trigger] merged[i].name@ == c1[k].name@;
    assert(nodes[i].name == merged[i].name);
    assert forall|i: int, j: int|
        0 <= i < nodes.len() && 0 <= j < nodes.len() && #[trigger] nodes[i].name@ == #[trigger] nodes[j].name@
            implies i == j by {
        assert(nodes[i].name == merged[i].name);
        assert(nodes[j].name == merged[j].name);
        if i < j {
            assert(name_lt(merged[i].name@, merged[j].name@));
            lemma_name_lt_irreflexive(merged[i].name@);
        } else if j < i {
            assert(name_lt(merged[j].name@, merged[i].name@));
            lemma_name_lt_irreflexive(merged[i].name@);
        }
    }
}

/// Consumption happens once: a node that a resolution has consumed
/// answers no later request of the wiring pass, whatever its name.
pub proof fn lemma_consumed_once(g1: FlowGraph, g2: FlowGraph, i: int, req: Seq<char>)
    requires
        wiring_step(g1, g2),
        0 <= i < g1.popped_nodes@.len(),
        g1.popped_nodes@[i],
    ensures
        !answers(vertex_views(g2.nodes@), g2.popped_nodes@, i, req),
        forall|j: int| #[trigger] resolves_to(vertex_views(g2.nodes@), g2.popped_nodes@, req, j) ==> j != i,
{
    assert(g2.popped_nodes@[i]);
}

/// A successful resolution consumes the node it returns: a request made
/// right after it never returns the same node.
pub proof fn lemma_resolution_consumes(
    nodes: Seq<Made>,
    popped: Seq<bool>,
    a: Seq<char>,
    b: Seq<char>,
    i: int,
)
    requires
        resolves_to(nodes, popped, a, i),
    ensures
        !resolves_to(nodes, popped.update(i, true), b, i),
{
}

pub(crate) proof fn lemma_sorted_same_names(a: Seq<Seq<char>>, b: Seq<Seq<char>>)
    requires
        forall|i: int, j: int| 0 <= i < j < a.len() ==> name_lt(#[trigger] a[i], #[trigger] a[j]),
        forall|i: int, j: int| 0 <= i < j < b.len() ==> name_lt(#[trigger] b[i], #[trigger] b[j]),
        forall|i: int| 0 <= i < a.len() ==> b.contains(#[trigger] a[i]),
        forall|j: int| 0 <= j < b.len() ==> a.contains(#[trigger] b[j]),
    ensures
        a == b,
    decreases a.len(),
{
    if a.len() == 0 {
        if b.len() > 0 {
            assert(a.contains(b[0]));
        }
        assert(a =~= b);
    } else if b.len() == 0 {
        assert(b.contains(a[0]));
    } else {
        assert(b.contains(a[0]));
        assert(a.contains(b[0]));
        let j = choose|j: int| 0 <= j < b.len() && b[j] == a[0];
        let i = choose|i: int| 0 <= i < a.len() && a[i] == b[0];
        if a[0] != b[0] {
            assert(j > 0 && i > 0);
            assert(name_lt(b[0], b[j]));
            assert(name_lt(a[0], a[i]));
            lemma_name_lt_transitive(a[0], b[0], a[0]);
            lemma_name_lt_irreflexive(a[0]);
        }
        let a1 = a.drop_first();
        let b1 = b.drop_first();
        assert forall|k: int| 0 <= k < a1.len() implies b1.contains(#[trigger] a1[k]) by {
            assert(a1[k] == a[k + 1]);
            assert(b.contains(a[k + 1]));
            let q = choose|q: int| 0 <= q < b.len() && b[q] == a[k + 1];
            if q == 0 {
                assert(name_lt(a[0], a[k + 1]));
                lemma_name_lt_irreflexive(a[0]);
            }
            assert(b1[q - 1] == b[q]);
        }
        assert forall|k: int| 0 <= k < b1.len() implies a1.contains(#[trigger] b1[k]) by {
            assert(b1[k] == b[k + 1]);
            assert(a.contains(b[k + 1]));
            let q = choose|q: int| 0 <= q < a.len() && a[q] == b[k + 1];
            if q == 0 {
                assert(name_lt(b[0], b[k + 1]));
                lemma_name_lt_irreflexive(b[0]);
            }
            assert(a1[q - 1] == a[q]);
        }
        assert forall|x: int, y: int| 0 <= x < y < a1.len() implies name_lt(#[trigger] a1[x], #[trigger] a1[y]) by {
            assert(name_lt(a[x + 1], a[y + 1]));
        }
        assert forall|x: int, y: int| 0 <= x < y < b1.len() implies name_lt(#[trigger] b1[x], #[trigger] b1[y]) by {
            assert(name_lt(b[x + 1], b[y + 1]));
        }
        lemma_sorted_same_names(a1, b1);
        assert(a =~= seq![a[0]] + a1);
        assert(b =~= seq![b[0]] + b1);
    }
}

/// The names of a node list, in order.
pub open spec fn node_names(ns: Seq<Node>) -> Seq<Seq<char>> {
    ns.map_values(|n: Node| n.name@)
}

/// Occurrence correlation, one step: when node `i` is the unconsumed
/// occurrence `req@k` and every other unconsumed node answering `req` is an
/// occurrence `req@n` with a different name and `n >= k`, a request for
/// `req` resolves to node `i`.
pub proof fn lemma_next_occurrence(vs: Seq<Made>, popped: Seq<bool>, req: Seq<char>, k: nat, i: int)
    requires
        answers(vs, popped, i, req),
        vs[i].0 == occurrence(req, k),
        forall|j: int|
            #[trigger] answers(vs, popped, j, req) && j != i ==> vs[j].0 != vs[i].0 && exists|n: nat|
                n >= k && vs[j].0 == occurrence(req, n),
    ensures
        resolves_to(vs, popped, req, i),
        resolution(vs, popped, req) == Some(i),
{
    assert forall|j: int| #![trigger answers(vs, popped, j, req)]
        j != i && answers(vs, popped, j, req) implies ranks_before(vs, i, j) by {
        let n = choose|n: nat| n >= k && vs[j].0 == occurrence(req, n);
        if n > k {
            lemma_occurrence_order(req, k, n);
        }
    }
    lemma_resolution_is(vs, popped, req, i);
}

/// The consumption flags after the occurrences `idx[0..k]` are consumed.
pub open spec fn consumed_upto(popped: Seq<bool>, idx: Seq<int>, k: int) -> Seq<bool> {
    Seq::new(popped.len(), |x: int| popped[x] || exists|n: int| 0 <= n < k && idx[n] == x)
}

/// Occurrence correlation: when the unconsumed nodes answering `req` are
/// exactly the occurrences `req@0, ..., req@(m-1)`, at nodes `idx[0..m]`,
/// then resolving `req` again and again takes `req@0`, `req@1`, ... in
/// turn, whatever the order of the nodes in the list, and the request after
/// the last one fails.
pub proof fn lemma_occurrences_in_order(vs: Seq<Made>, popped: Seq<bool>, req: Seq<char>, idx: Seq<int>)
    requires
        popped.len() == vs.len(),
        forall|n: int| 0 <= n < idx.len() ==> answers(vs, popped, #[trigger] idx[n], req),
        forall|n: int| 0 <= n < idx.len() ==> vs[#[trigger] idx[n]].0 == occurrence(req, n as nat),
        forall|j: int|
            #[trigger] answers(vs, popped, j, req) ==> exists|n: int| 0 <= n < idx.len() && idx[n] == j,
    ensures
        forall|k: int|
            0 <= k < idx.len() ==> resolution(vs, #[trigger] consumed_upto(popped, idx, k), req) == Some(
                idx[k],
            ),
        resolution(vs, consumed_upto(popped, idx, idx.len() as int), req) is None,
{
    assert forall|a: int, b: int| 0 <= a < b < idx.len() implies vs[idx[a]].0 != vs[idx[b]].0 by {
        lemma_occurrence_order(req, a as nat, b as nat);
        lemma_occurrence_lt_irreflexive(vs[idx[a]].0);
    }
    assert forall|k: int| 0 <= k < idx.len() implies resolution(
        vs,
        #[trigger] consumed_upto(popped, idx, k),
        req,
    ) == Some(idx[k]) by {
        let pk = consumed_upto(popped, idx, k);
        assert(answers(vs, popped, idx[k], req));
        assert forall|n: int| 0 <= n < k implies idx[n] != idx[k] by {
            assert(vs[idx[n]].0 != vs[idx[k]].0);
        }
        assert(!pk[idx[k]]);
        assert(answers(vs, pk, idx[k], req));
        assert forall|j: int|
            #[trigger] answers(vs, pk, j, req) && j != idx[k] implies vs[j].0 != vs[idx[k]].0 && exists|n: nat|
                n >= k && vs[j].0 == occurrence(req, n) by {
            assert(answers(vs, popped, j, req));
            let n = choose|n: int| 0 <= n < idx.len() && idx[n] == j;
            if n < k {
                assert(pk[j]);
            }
            assert(n != k);
            assert(vs[j].0 == occurrence(req, n as nat));
        }
        lemma_next_occurrence(vs, pk, req, k as nat, idx[k]);
    }
    let pm = consumed_upto(popped, idx, idx.len() as int);
    assert forall|j: int| !resolves_to(vs, pm, req, j) by {
        if answers(vs, pm, j, req) {
            assert(answers(vs, popped, j, req));
            let n = choose|n: int| 0 <= n < idx.len() && idx[n] == j;
            assert(pm[j]);
        }
    }
}

/// In wiring state `w`, every edge whose source is not a constant node
/// starts at a consumed node, and no other edge starts there.
pub open spec fn sources_once(vs: Seq<Made>, w: Wiring) -> bool {
    forall|k: int|
        0 <= k < w.1.len() && (#[trigger] vs[w.1[k].0]).1 is None ==> 0 <= w.1[k].0 < w.0.len()
            && w.0[w.1[k].0] && forall|k2: int| 0 <= k2 < w.1.len() && k2 != k ==> #[trigger] w.1[k2].0 != w.1[k].0
}

/// What a wiring step keeps: the consumption flags only grow, the edges
/// only grow, and each new edge that starts at a non-constant node starts
/// at a node that was not consumed before the step.
pub open spec fn step_keeps(vs: Seq<Made>, w: Wiring, w2: Wiring) -> bool {
    &&& w2.0.len() == w.0.len()
    &&& forall|i: int| 0 <= i < w.0.len() && #[trigger] w.0[i] ==> w2.0[i]
    &&& w.1.len() <= w2.1.len()
    &&& w2.1.take(w.1.len() as int) == w.1
    &&& forall|k: int|
        w.1.len() <= k < w2.1.len() && (#[trigger] vs[w2.1[k].0]).1 is None ==> 0 <= w2.1[k].0 < w.0.len()
            && !w.0[w2.1[k].0]
}

proof fn lemma_keeps_trans(vs: Seq<Made>, a: Wiring, b: Wiring, c: Wiring)
    requires
        step_keeps(vs, a, b),
        step_keeps(vs, b, c),
    ensures
        step_keeps(vs, a, c),
{
    assert(c.1.take(a.1.len() as int) =~= c.1.take(b.1.len() as int).take(a.1.len() as int));
    assert forall|k: int|
        a.1.len() <= k < c.1.len() && (#[trigger] vs[c.1[k].0]).1 is None implies 0 <= c.1[k].0 < a.0.len()
            && !a.0[c.1[k].0] by {
        if k < b.1.len() {
            assert(c.1[k] == c.1.take(b.1.len() as int)[k]);
        } else {
            if a.0[c.1[k].0] {
                assert(b.0[c.1[k].0]);
            }
        }
    }
}

proof fn lemma_wired_sources(vs: Seq<Made>, bx: Seq<char>, e: Expr, w: Wiring)
    requires
        sources_once(vs, w),
        w.0.len() == vs.len(),
    ensures
        wired(vs, bx, e, w) matches Ok((w2, r)) ==> {
            &&& sources_once(vs, w2)
            &&& step_keeps(vs, w, w2)
            &&& 0 <= r < vs.len()
            &&& vs[r].1 is None ==> !w.0[r] && w2.0[r] && forall|k: int|
                0 <= k < w2.1.len() ==> #[trigger] w2.1[k].0 != r
        },
    decreases e,
{
    match e {
        Expr::Num(v) => {
            if let Some(i) = const_resolution(vs, bx, v) {
                let i2 = choose|i: int| first_const_for(vs, bx, v, i);
                assert(w.1.take(w.1.len() as int) =~= w.1);
            }
        },
        Expr::NodeIdent(n) => {
            let req = qualified(bx, n@);
            if let Some(i) = resolution(vs, w.0, req) {
                let i2 = choose|i: int| resolves_to(vs, w.0, req, i);
                let w2 = (w.0.update(i, true), w.1);
                assert(w.1.take(w.1.len() as int) =~= w.1);
                assert forall|k: int| 0 <= k < w2.1.len() && (#[trigger] vs[w2.1[k].0]).1 is None implies 0
                    <= w2.1[k].0 < w2.0.len() && w2.0[w2.1[k].0] && forall|k2: int|
                    0 <= k2 < w2.1.len() && k2 != k ==> #[trigger] w2.1[k2].0 != w2.1[k].0 by {
                    assert(vs[w.1[k].0].1 is None);
                }
                assert(answers(vs, w.0, i, req));
                if vs[i].1 is None {
                    assert forall|k: int| 0 <= k < w2.1.len() implies #[trigger] w2.1[k].0 != i by {
                        if w2.1[k].0 == i {
                            assert(vs[w.1[k].0].1 is None);
                            assert(w.0[i]);
                        }
                    }
                }
            }
        },
        Expr::Operator(op, args) => {
            let req = qualified(bx, op@);
            if let Some(t) = resolution(vs, w.0, req) {
                let t2 = choose|i: int| resolves_to(vs, w.0, req, i);
                let w1 = (w.0.update(t, true), w.1);
                assert(w.1.take(w.1.len() as int) =~= w.1);
                assert forall|k: int| 0 <= k < w1.1.len() && (#[trigger] vs[w1.1[k].0]).1 is None implies 0
                    <= w1.1[k].0 < w1.0.len() && w1.0[w1.1[k].0] && forall|k2: int|
                    0 <= k2 < w1.1.len() && k2 != k ==> #[trigger] w1.1[k2].0 != w1.1[k].0 by {
                    assert(vs[w.1[k].0].1 is None);
                }
                assert(step_keeps(vs, w, w1));
                assert(decreases_to!(e => e->Operator_1));
                lemma_wired_args_sources(vs, bx, args@, t, w1);
                if let Ok(w2) = wired_args(vs, bx, args@, t, w1) {
                    lemma_keeps_trans(vs, w, w1, w2);
                    assert(answers(vs, w.0, t, req));
                    if vs[t].1 is None {
                        assert forall|k: int| 0 <= k < w2.1.len() implies #[trigger] w2.1[k].0 != t by {
                            if w2.1[k].0 == t {
                                if k < w.1.len() {
                                    assert(w2.1[k] == w2.1.take(w.1.len() as int)[k]);
                                    assert(w2.1[k] == w.1[k]);
                                    assert(vs[w.1[k].0].1 is None);
                                    assert(w.0[t]);
                                } else {
                                    assert(vs[w2.1[k].0].1 is None);
                                    assert(!w1.0[t]);
                                }
                            }
                        }
                    }
                }
            }
        },
    }
}

proof fn lemma_wired_args_sources(vs: Seq<Made>, bx: Seq<char>, args: Seq<Expr>, t: int, w: Wiring)
    requires
        sources_once(vs, w),
        w.0.len() == vs.len(),
        0 <= t < w.0.len(),
        w.0[t],
    ensures
        wired_args(vs, bx, args, t, w) matches Ok(w2) ==> sources_once(vs, w2) && step_keeps(vs, w, w2),
    decreases args,
{
    if args.len() == 0 {
        assert(w.1.take(w.1.len() as int) =~= w.1);
    } else {
        let pre = args.subrange(0, args.len() - 1);
        lemma_wired_args_sources(vs, bx, pre, t, w);
        if let Ok(w1) = wired_args(vs, bx, pre, t, w) {
            lemma_wired_sources(vs, bx, args[args.len() - 1], w1);
            if let Ok((w2, src)) = wired(vs, bx, args[args.len() - 1], w1) {
                let e = (src, t, (args.len() - 1) as u64);
                let w3 = (w2.0, w2.1.push(e));
                assert(w3.1.take(w2.1.len() as int) =~= w2.1);
                assert(step_keeps(vs, w1, w3)) by {
                    assert(w3.1.take(w1.1.len() as int) =~= w2.1.take(w1.1.len() as int));
                    assert forall|k: int|
                        w1.1.len() <= k < w3.1.len() && (#[trigger] vs[w3.1[k].0]).1 is None implies 0 <= w3.1[k].0
                            < w1.0.len() && !w1.0[w3.1[k].0] by {
                        if k < w2.1.len() {
                            assert(w3.1[k] == w2.1[k]);
                        } else {
                            assert(w3.1[k] == e);
                        }
                    }
                }
                assert forall|k: int| 0 <= k < w3.1.len() && (#[trigger] vs[w3.1[k].0]).1 is None implies 0
                    <= w3.1[k].0 < w3.0.len() && w3.0[w3.1[k].0] && forall|k2: int|
                    0 <= k2 < w3.1.len() && k2 != k ==> #[trigger] w3.1[k2].0 != w3.1[k].0 by {
                    if k < w2.1.len() {
                        assert(w3.1[k] == w2.1[k]);
                        assert forall|k2: int| 0 <= k2 < w3.1.len() && k2 != k implies #[trigger] w3.1[k2].0 != w3.1[k].0 by {
                            if k2 < w2.1.len() {
                                assert(w3.1[k2] == w2.1[k2]);
                            } else {
                                assert(w3.1[k2] == e);
                                assert(w2.1[k].0 != src);
                            }
                        }
                    } else {
                        assert(w3.1[k] == e);
                        assert forall|k2: int| 0 <= k2 < w3.1.len() && k2 != k implies #[trigger] w3.1[k2].0 != w3.1[k].0 by {
                            assert(w3.1[k2] == w2.1[k2]);
                        }
                    }
                }
                lemma_keeps_trans(vs, w, w1, w3);
            }
        }
    }
}

proof fn lemma_wired_let_sources(vs: Seq<Made>, bx: Seq<char>, name: Seq<char>, e: Expr, w: Wiring)
    requires
        sources_once(vs, w),
        w.0.len() == vs.len(),
    ensures
        wired_let(vs, bx, name, e, w) matches Ok(w3) ==> sources_once(vs, w3) && w3.0.len() == vs.len(),
{
    let req = qualified(bx, name);
    if let Some(d) = resolution(vs, w.0, req) {
        let d2 = choose|i: int| resolves_to(vs, w.0, req, i);
        let w1 = (w.0.update(d, true), w.1);
        assert forall|k: int| 0 <= k < w1.1.len() && (#[trigger] vs[w1.1[k].0]).1 is None implies 0
            <= w1.1[k].0 < w1.0.len() && w1.0[w1.1[k].0] && forall|k2: int|
            0 <= k2 < w1.1.len() && k2 != k ==> #[trigger] w1.1[k2].0 != w1.1[k].0 by {
            assert(vs[w.1[k].0].1 is None);
        }
        lemma_wired_sources(vs, bx, e, w1);
        if let Ok((w2, src)) = wired(vs, bx, e, w1) {
            let ed = (src, d, 0u64);
            let w3 = (w2.0, w2.1.push(ed));
            assert forall|k: int| 0 <= k < w3.1.len() && (#[trigger] vs[w3.1[k].0]).1 is None implies 0
                <= w3.1[k].0 < w3.0.len() && w3.0[w3.1[k].0] && forall|k2: int|
                0 <= k2 < w3.1.len() && k2 != k ==> #[trigger] w3.1[k2].0 != w3.1[k].0 by {
                if k < w2.1.len() {
                    assert(w3.1[k] == w2.1[k]);
                    assert forall|k2: int| 0 <= k2 < w3.1.len() && k2 != k implies #[trigger] w3.1[k2].0 != w3.1[k].0 by {
                        if k2 < w2.1.len() {
                            assert(w3.1[k2] == w2.1[k2]);
                        } else {
                            assert(w3.1[k2] == ed);
                            assert(w2.1[k].0 != src);
                        }
                    }
                } else {
                    assert(w3.1[k] == ed);
                    assert forall|k2: int| 0 <= k2 < w3.1.len() && k2 != k implies #[trigger] w3.1[k2].0 != w3.1[k].0 by {
                        assert(w3.1[k2] == w2.1[k2]);
                    }
                }
            }
        }
    }
}

proof fn lemma_wired_stmts_sources(vs: Seq<Made>, bx: Seq<char>, ss: Seq<Stmt>, w: Wiring)
    requires
        sources_once(vs, w),
        w.0.len() == vs.len(),
    ensures
        wired_stmts(vs, bx, ss, w) matches Ok(w2) ==> sources_once(vs, w2) && w2.0.len() == vs.len(),
    decreases ss.len(),
{
    if ss.len() > 0 {
        lemma_wired_stmts_sources(vs, bx, ss.drop_last(), w);
        if let Ok(w1) = wired_stmts(vs, bx, ss.drop_last(), w) {
            if let Stmt::LetDef(LetDef::Let(n, e)) = ss.last() {
                lemma_wired_let_sources(vs, bx, n@, e, w1);
            }
        }
    }
}

proof fn lemma_wired_all_sources(vs: Seq<Made>, bs: Seq<BoxDef>, w: Wiring)
    requires
        sources_once(vs, w),
        w.0.len() == vs.len(),
    ensures
        wired_all(vs, bs, w) matches Ok(w2) ==> sources_once(vs, w2) && w2.0.len() == vs.len(),
    decreases bs.len(),
{
    if bs.len() > 0 {
        lemma_wired_all_sources(vs, bs.drop_last(), w);
        if let Ok(w1) = wired_all(vs, bs.drop_last(), w) {
            let BoxDef::ModuleBox(name, _, ss) = bs.last();
            lemma_wired_stmts_sources(vs, name@, ss@, w1);
        }
    }
}

/// Consumption once, over a whole build: every node that is not a constant
/// is the source of at most one edge, and that source has been consumed.
/// Constant nodes are shared and may start several edges.
pub proof fn lemma_sources_consumed_once(g: FlowGraph, bs: Seq<BoxDef>)
    requires
        built_from(g, bs),
    ensures
        forall|k1: int, k2: int|
            0 <= k1 < g.edges@.len() && 0 <= k2 < g.edges@.len() && k1 != k2 && #[trigger] g.edges@[k1].from
                == #[trigger] g.edges@[k2].from ==> vertex_views(g.nodes@)[g.edges@[k1].from as int].1 is Some,
        forall|k: int|
            0 <= k < g.edges@.len() && vertex_views(g.nodes@)[#[trigger] g.edges@[k].from as int].1 is None
                ==> g.popped_nodes@[g.edges@[k].from as int],
{
    let vs = vertex_views(g.nodes@);
    let w0 = unwired(g.nodes@.len());
    lemma_wired_all_sources(vs, bs, w0);
    let w = (g.popped_nodes@, edge_triples(g.edges@));
    assert forall|k1: int, k2: int|
        0 <= k1 < g.edges@.len() && 0 <= k2 < g.edges@.len() && k1 != k2 && #[trigger] g.edges@[k1].from
            == #[trigger] g.edges@[k2].from implies vs[g.edges@[k1].from as int].1 is Some by {
        assert(w.1[k1].0 == g.edges@[k1].from as int);
        assert(w.1[k2].0 == g.edges@[k2].from as int);
        if vs[w.1[k1].0].1 is None {
            assert(w.1[k2].0 != w.1[k1].0);
        }
    }
    assert forall|k: int|
        0 <= k < g.edges@.len() && vs[#[trigger] g.edges@[k].from as int].1 is None implies g.popped_nodes@[g.edges@[k].from as int] by {
        assert(w.1[k].0 == g.edges@[k].from as int);
        assert(vs[w.1[k].0].1 is None);
    }
}

/// The `arg_no`s of the edges (from, to, arg_no) of `es` that end at `t`,
/// in order.
pub open spec fn positions_into(es: Seq<(int, int, u64)>, t: int) -> Seq<u64>
    decreases es.len(),
{
    if es.len() == 0 {
        Seq::empty()
    } else {
        positions_into(es.drop_last(), t) + if es.last().1 == t {
            seq![es.last().2]
        } else {
            Seq::empty()
        }
    }
}

/// In wiring state `w`, the edges into each node carry the positions
/// `0, 1, ...` in order, and a node with incoming edges is consumed.
pub open spec fn positions_in_order(w: Wiring) -> bool {
    &&& forall|k: int| 0 <= k < w.1.len() ==> 0 <= (#[trigger] w.1[k]).1 < w.0.len()
    &&& forall|t: int|
        0 <= t < w.0.len() ==> #[trigger] positions_into(w.1, t) == positions(positions_into(w.1, t).len())
            && (positions_into(w.1, t).len() > 0 ==> w.0[t])
}

/// A wiring step only adds edges into nodes that were not consumed before
/// it, and only consumes more.
pub open spec fn into_fresh(w: Wiring, w2: Wiring) -> bool {
    &&& w2.0.len() == w.0.len()
    &&& forall|i: int| 0 <= i < w.0.len() && #[trigger] w.0[i] ==> w2.0[i]
    &&& w.1.len() <= w2.1.len()
    &&& w2.1.take(w.1.len() as int) == w.1
    &&& forall|k: int| w.1.len() <= k < w2.1.len() ==> 0 <= (#[trigger] w2.1[k]).1 < w.0.len() && !w.0[w2.1[k].1]
}

proof fn lemma_positions_push(es: Seq<(int, int, u64)>, e: (int, int, u64), t: int)
    ensures
        positions_into(es.push(e), t) == positions_into(es, t) + if e.1 == t {
            seq![e.2]
        } else {
            Seq::empty()
        },
{
    assert(es.push(e).drop_last() =~= es);
}

proof fn lemma_positions_unchanged(a: Seq<(int, int, u64)>, b: Seq<(int, int, u64)>, t: int)
    requires
        a.len() <= b.len(),
        b.take(a.len() as int) == a,
        forall|k: int| a.len() <= k < b.len() ==> (#[trigger] b[k]).1 != t,
    ensures
        positions_into(b, t) == positions_into(a, t),
    decreases b.len(),
{
    if b.len() > a.len() {
        assert(b.drop_last().take(a.len() as int) =~= b.take(a.len() as int));
        assert(b.last() == b[b.len() - 1]);
        lemma_positions_unchanged(a, b.drop_last(), t);
        assert(positions_into(b, t) =~= positions_into(b.drop_last(), t));
    } else {
        assert(b =~= a);
    }
}

proof fn lemma_into_fresh_trans(a: Wiring, b: Wiring, c: Wiring)
    requires
        into_fresh(a, b),
        into_fresh(b, c),
    ensures
        into_fresh(a, c),
{
    assert(c.1.take(a.1.len() as int) =~= c.1.take(b.1.len() as int).take(a.1.len() as int));
    assert forall|k: int| a.1.len() <= k < c.1.len() implies 0 <= (#[trigger] c.1[k]).1 < a.0.len() && !a.0[c.1[k].1] by {
        if k < b.1.len() {
            assert(c.1[k] == c.1.take(b.1.len() as int)[k]);
        } else {
            if a.0[c.1[k].1] {
                assert(b.0[c.1[k].1]);
            }
        }
    }
}

/// A node consumed before a step gets no edge from it.
proof fn lemma_into_fresh_positions(w: Wiring, w2: Wiring, t: int)
    requires
        into_fresh(w, w2),
        0 <= t < w.0.len(),
        w.0[t],
    ensures
        positions_into(w2.1, t) == positions_into(w.1, t),
{
    lemma_positions_unchanged(w.1, w2.1, t);
}

proof fn lemma_wired_positions(vs: Seq<Made>, bx: Seq<char>, e: Expr, w: Wiring)
    requires
        positions_in_order(w),
        w.0.len() == vs.len(),
    ensures
        wired(vs, bx, e, w) matches Ok((w2, r)) ==> positions_in_order(w2) && into_fresh(w, w2) && 0 <= r
            < vs.len(),
    decreases e,
{
    match e {
        Expr::Num(v) => {
            if let Some(i) = const_resolution(vs, bx, v) {
                let i2 = choose|i: int| first_const_for(vs, bx, v, i);
                assert(w.1.take(w.1.len() as int) =~= w.1);
            }
        },
        Expr::NodeIdent(n) => {
            let req = qualified(bx, n@);
            if let Some(i) = resolution(vs, w.0, req) {
                let i2 = choose|i: int| resolves_to(vs, w.0, req, i);
                assert(w.1.take(w.1.len() as int) =~= w.1);
                let w2 = (w.0.update(i, true), w.1);
                assert forall|t: int| 0 <= t < w2.0.len() implies #[trigger] positions_into(w2.1, t) == positions(positions_into(w2.1, t).len())
                    && (positions_into(w2.1, t).len() > 0 ==> w2.0[t]) by {
                    assert(positions_into(w.1, t) == positions(positions_into(w.1, t).len()));
                }
            }
        },
        Expr::Operator(op, args) => {
            let req = qualified(bx, op@);
            if let Some(t) = resolution(vs, w.0, req) {
                let t2 = choose|i: int| resolves_to(vs, w.0, req, i);
                assert(answers(vs, w.0, t, req));
                let w1 = (w.0.update(t, true), w.1);
                assert(w.1.take(w.1.len() as int) =~= w.1);
                assert forall|u: int| 0 <= u < w1.0.len() implies #[trigger] positions_into(w1.1, u) == positions(positions_into(w1.1, u).len())
                    && (positions_into(w1.1, u).len() > 0 ==> w1.0[u]) by {
                    assert(positions_into(w.1, u) == positions(positions_into(w.1, u).len()));
                }
                assert(into_fresh(w, w1));
                assert(positions_into(w1.1, t).len() == 0) by {
                    assert(positions_into(w.1, t) == positions(positions_into(w.1, t).len()));
                }
                assert(decreases_to!(e => e->Operator_1));
                lemma_wired_args_positions(vs, bx, args@, t, w1);
                assert(w1.0.update(t, false) =~= w.0);
                if let Ok(w2) = wired_args(vs, bx, args@, t, w1) {
                }
            }
        },
    }
}

proof fn lemma_wired_args_positions(vs: Seq<Made>, bx: Seq<char>, args: Seq<Expr>, t: int, w: Wiring)
    requires
        positions_in_order(w),
        w.0.len() == vs.len(),
        0 <= t < w.0.len(),
        w.0[t],
        positions_into(w.1, t).len() == 0,
    ensures
        wired_args(vs, bx, args, t, w) matches Ok(w2) ==> positions_in_order(w2) && into_fresh(
            (w.0.update(t, false), w.1),
            w2,
        ) && positions_into(w2.1, t) == positions(args.len()),
    decreases args,
{
    let wu = (w.0.update(t, false), w.1);
    if args.len() == 0 {
        assert(w.1.take(w.1.len() as int) =~= w.1);
        assert(positions_into(w.1, t) =~= positions(0));
    } else {
        let pre = args.subrange(0, args.len() - 1);
        lemma_wired_args_positions(vs, bx, pre, t, w);
        if let Ok(w1) = wired_args(vs, bx, pre, t, w) {
            lemma_wired_positions(vs, bx, args[args.len() - 1], w1);
            if let Ok((w2, src)) = wired(vs, bx, args[args.len() - 1], w1) {
                lemma_into_fresh_positions(w1, w2, t);
                let e = (src, t, (args.len() - 1) as u64);
                let w3 = (w2.0, w2.1.push(e));
                assert(w3.1.take(w2.1.len() as int) =~= w2.1);
                assert(into_fresh(wu, w3)) by {
                    lemma_into_fresh_trans(wu, w1, w2);
                    assert(w3.1.take(wu.1.len() as int) =~= w2.1.take(wu.1.len() as int));
                    assert forall|k: int| wu.1.len() <= k < w3.1.len() implies 0 <= (#[trigger] w3.1[k]).1 < wu.0.len() && !wu.0[w3.1[k].1] by {
                        if k < w2.1.len() {
                            assert(w3.1[k] == w2.1[k]);
                        } else {
                            assert(w3.1[k] == e);
                        }
                    }
                }
                assert forall|u: int| 0 <= u < w3.0.len() implies #[trigger] positions_into(w3.1, u) == positions(positions_into(w3.1, u).len())
                    && (positions_into(w3.1, u).len() > 0 ==> w3.0[u]) by {
                    lemma_positions_push(w2.1, e, u);
                    assert(positions_into(w2.1, u) == positions(positions_into(w2.1, u).len()));
                    if u == t {
                        assert(positions_into(w3.1, u) =~= positions(args.len()));
                    }
                }
                assert forall|k: int| 0 <= k < w3.1.len() implies 0 <= (#[trigger] w3.1[k]).1 < w3.0.len() by {
                    if k < w2.1.len() {
                        assert(w3.1[k] == w2.1[k]);
                    }
                }
                lemma_positions_push(w2.1, e, t);
                assert(positions_into(w3.1, t) =~= positions(args.len()));
            }
        }
    }
}

proof fn lemma_wired_let_positions(vs: Seq<Made>, bx: Seq<char>, name: Seq<char>, e: Expr, w: Wiring)
    requires
        positions_in_order(w),
        w.0.len() == vs.len(),
    ensures
        wired_let(vs, bx, name, e, w) matches Ok(w3) ==> positions_in_order(w3) && w3.0.len() == vs.len(),
{
    let req = qualified(bx, name);
    if let Some(d) = resolution(vs, w.0, req) {
        let d2 = choose|i: int| resolves_to(vs, w.0, req, i);
        assert(answers(vs, w.0, d, req));
        let w1 = (w.0.update(d, true), w.1);
        assert forall|u: int| 0 <= u < w1.0.len() implies #[trigger] positions_into(w1.1, u) == positions(positions_into(w1.1, u).len())
            && (positions_into(w1.1, u).len() > 0 ==> w1.0[u]) by {
            assert(positions_into(w.1, u) == positions(positions_into(w.1, u).len()));
        }
        assert(positions_into(w1.1, d).len() == 0) by {
            assert(positions_into(w.1, d) == positions(positions_into(w.1, d).len()));
        }
        lemma_wired_positions(vs, bx, e, w1);
        if let Ok((w2, src)) = wired(vs, bx, e, w1) {
            lemma_into_fresh_positions(w1, w2, d);
            let ed = (src, d, 0u64);
            let w3 = (w2.0, w2.1.push(ed));
            assert forall|u: int| 0 <= u < w3.0.len() implies #[trigger] positions_into(w3.1, u) == positions(positions_into(w3.1, u).len())
                && (positions_into(w3.1, u).len() > 0 ==> w3.0[u]) by {
                lemma_positions_push(w2.1, ed, u);
                assert(positions_into(w2.1, u) == positions(positions_into(w2.1, u).len()));
                if u == d {
                    assert(w1.0[d]);
                    assert(w2.0[d]);
                    assert(positions_into(w2.1, d) =~= Seq::<u64>::empty());
                    assert(positions_into(w3.1, u) =~= positions(1));
                }
            }
            assert forall|k: int| 0 <= k < w3.1.len() implies 0 <= (#[trigger] w3.1[k]).1 < w3.0.len() by {
                if k < w2.1.len() {
                    assert(w3.1[k] == w2.1[k]);
                }
            }
        }
    }
}

proof fn lemma_wired_stmts_positions(vs: Seq<Made>, bx: Seq<char>, ss: Seq<Stmt>, w: Wiring)
    requires
        positions_in_order(w),
        w.0.len() == vs.len(),
    ensures
        wired_stmts(vs, bx, ss, w) matches Ok(w2) ==> positions_in_order(w2) && w2.0.len() == vs.len(),
    decreases ss.len(),
{
    if ss.len() > 0 {
        lemma_wired_stmts_positions(vs, bx, ss.drop_last(), w);
        if let Ok(w1) = wired_stmts(vs, bx, ss.drop_last(), w) {
            if let Stmt::LetDef(LetDef::Let(n, e)) = ss.last() {
                lemma_wired_let_positions(vs, bx, n@, e, w1);
            }
        }
    }
}

proof fn lemma_wired_all_positions(vs: Seq<Made>, bs: Seq<BoxDef>, w: Wiring)
    requires
        positions_in_order(w),
        w.0.len() == vs.len(),
    ensures
        wired_all(vs, bs, w) matches Ok(w2) ==> positions_in_order(w2) && w2.0.len() == vs.len(),
    decreases bs.len(),
{
    if bs.len() > 0 {
        lemma_wired_all_positions(vs, bs.drop_last(), w);
        if let Ok(w1) = wired_all(vs, bs.drop_last(), w) {
            let BoxDef::ModuleBox(name, _, ss) = bs.last();
            lemma_wired_stmts_positions(vs, name@, ss@, w1);
        }
    }
}

/// Argument order, over a whole build: the edges that end at any node
/// carry the positions `0, 1, ..., m - 1`, each once and in that order,
/// whatever order the nodes were made in: an operator's arguments in their
/// left-to-right positions, and a bound name its one value at position 0.
pub proof fn lemma_argument_positions(g: FlowGraph, bs: Seq<BoxDef>, t: int)
    requires
        built_from(g, bs),
        0 <= t < g.nodes@.len(),
    ensures
        positions_into(edge_triples(g.edges@), t) == positions(positions_into(edge_triples(g.edges@), t).len()),
{
    let vs = vertex_views(g.nodes@);
    let w0 = unwired(g.nodes@.len());
    assert forall|u: int| 0 <= u < w0.0.len() implies #[trigger] positions_into(w0.1, u) == positions(positions_into(w0.1, u).len())
        && (positions_into(w0.1, u).len() > 0 ==> w0.0[u]) by {
        assert(positions_into(w0.1, u) =~= positions(0));
    }
    lemma_wired_all_positions(vs, bs, w0);
    let w = (g.popped_nodes@, edge_triples(g.edges@));
    assert(positions_into(w.1, t) == positions(positions_into(w.1, t).len()));
}

/// Determinism: two builds of the same boxes give the same node list: at
/// every position the same qualified name, id, box and constant.
pub proof fn lemma_build_deterministic(n1: Seq<Node>, n2: Seq<Node>, bs: Seq<BoxDef>)
    requires
        nodes_built_from(n1, bs),
        nodes_built_from(n2, bs),
    ensures
        n1.len() == n2.len(),
        forall|i: int|
            0 <= i < n1.len() ==> {
                &&& (#[trigger] n1[i]).name@ == n2[i].name@
                &&& n1[i].id == n2[i].id
                &&& n1[i].parent_box.name@ == n2[i].parent_box.name@
                &&& n1[i].const_data == n2[i].const_data
            },
{
    let ms = created_all(bs);
    let (c1, m1) = choose|c1: Seq<Node>, merged: Seq<Node>|
        holds_made(c1, 0, ms) && merged_from(merged, c1) && same_vertices(merged, n1);
    let (c2, m2) = choose|c1: Seq<Node>, merged: Seq<Node>|
        holds_made(c1, 0, ms) && merged_from(merged, c1) && same_vertices(merged, n2);
    assert forall|k: int| 0 <= k < c1.len() implies (#[trigger] c1[k]).name@ == c2[k].name@
        && c1[k].id == c2[k].id && c1[k].const_data == c2[k].const_data
        && c1[k].parent_box.name@ == c2[k].parent_box.name@ by {
        assert(is_made(c1[0 + k], ms[k], 0 + k));
        assert(is_made(c2[0 + k], ms[k], 0 + k));
    }
    let a = node_names(m1);
    let b = node_names(m2);
    assert forall|i: int| 0 <= i < a.len() implies b.contains(#[trigger] a[i]) by {
        assert(survivor_of(m1[i], c1));
        let f = choose|f: int| #![trigger c1[f]] is_first_named(c1, f, m1[i].name@) && m1[i].id == c1[f].id
            && m1[i].parent_box == c1[f].parent_box && m1[i].const_data == c1[f].const_data
            && m1[i].inputs@ == gathered_inputs(c1, m1[i].name@) && m1[i].outputs@ == gathered_outputs(c1, m1[i].name@);
        assert(c2[f].name@ == c1[f].name@);
        assert(has_name(m2, c2[f].name@));
        let j = choose|j: int| 0 <= j < m2.len() && #[trigger] m2[j].name@ == c2[f].name@;
        assert(b[j] == a[i]);
    }
    assert forall|i: int| 0 <= i < b.len() implies a.contains(#[trigger] b[i]) by {
        assert(survivor_of(m2[i], c2));
        let f = choose|f: int| #![trigger c2[f]] is_first_named(c2, f, m2[i].name@) && m2[i].id == c2[f].id
            && m2[i].parent_box == c2[f].parent_box && m2[i].const_data == c2[f].const_data
            && m2[i].inputs@ == gathered_inputs(c2, m2[i].name@) && m2[i].outputs@ == gathered_outputs(c2, m2[i].name@);
        assert(c1[f].name@ == c2[f].name@);
        assert(has_name(m1, c1[f].name@));
        let j = choose|j: int| 0 <= j < m1.len() && #[trigger] m1[j].name@ == c1[f].name@;
        assert(a[j] == b[i]);
    }
    assert forall|i: int, j: int| 0 <= i < j < a.len() implies name_lt(#[trigger] a[i], #[trigger] a[j]) by {
        assert(name_lt(m1[i].name@, m1[j].name@));
    }
    assert forall|i: int, j: int| 0 <= i < j < b.len() implies name_lt(#[trigger] b[i], #[trigger] b[j]) by {
        assert(name_lt(m2[i].name@, m2[j].name@));
    }
    lemma_sorted_same_names(a, b);
    assert forall|i: int| 0 <= i < n1.len() implies {
        &&& (#[trigger] n1[i]).name@ == n2[i].name@
        &&& n1[i].id == n2[i].id
        &&& n1[i].parent_box.name@ == n2[i].parent_box.name@
        &&& n1[i].const_data == n2[i].const_data
    } by {
        assert(a[i] == b[i]);
        assert(n1[i].name == m1[i].name);
        assert(n2[i].name == m2[i].name);
        assert(survivor_of(m1[i], c1));
        assert(survivor_of(m2[i], c2));
        let f1 = choose|f: int| #![trigger c1[f]] is_first_named(c1, f, m1[i].name@) && m1[i].id == c1[f].id
            && m1[i].parent_box == c1[f].parent_box && m1[i].const_data == c1[f].const_data
            && m1[i].inputs@ == gathered_inputs(c1, m1[i].name@) && m1[i].outputs@ == gathered_outputs(c1, m1[i].name@);
        let f2 = choose|f: int| #![trigger c2[f]] is_first_named(c2, f, m2[i].name@) && m2[i].id == c2[f].id
            && m2[i].parent_box == c2[f].parent_box && m2[i].const_data == c2[f].const_data
            && m2[i].inputs@ == gathered_inputs(c2, m2[i].name@) && m2[i].outputs@ == gathered_outputs(c2, m2[i].name@);
        if f1 < f2 {
            assert(c2[f1].name@ == c1[f1].name@);
        } else if f2 < f1 {
            assert(c1[f2].name@ == c2[f2].name@);
        }
        assert(f1 == f2);
    }
}

/// Determinism: two graphs built from the same boxes hold the same nodes
/// (names, ids, boxes, constants), the same consumption flags and the same
/// edges, up to the ids of the edges.
pub proof fn lemma_graph_deterministic(g1: FlowGraph, g2: FlowGraph, bs: Seq<BoxDef>)
    requires
        built_from(g1, bs),
        built_from(g2, bs),
    ensures
        vertex_views(g1.nodes@) == vertex_views(g2.nodes@),
        forall|i: int| 0 <= i < g1.nodes@.len() ==> (#[trigger] g1.nodes@[i]).id == g2.nodes@[i].id,
        g1.popped_nodes@ == g2.popped_nodes@,
        edge_triples(g1.edges@) == edge_triples(g2.edges@),
{
    lemma_build_deterministic(g1.nodes@, g2.nodes@, bs);
    assert forall|i: int| 0 <= i < g1.nodes@.len() implies vertex_views(g1.nodes@)[i] == vertex_views(g2.nodes@)[i] by {
        assert(g1.nodes@[i].name@ == g2.nodes@[i].name@);
    }
    assert(vertex_views(g1.nodes@) =~= vertex_views(g2.nodes@));
}

/// A build either succeeds or fails, never both: when the wiring of the
/// boxes fails, no graph is built from them.
pub proof fn lemma_failure_excludes_success(g: FlowGraph, bs: Seq<BoxDef>, q: Seq<char>)
    requires
        build_fails(bs, q),
    ensures
        !built_from(g, bs),
{
    let ns = choose|ns: Seq<Node>|
        nodes_built_from(ns, bs) && #[trigger] wired_all(vertex_views(ns), bs, unwired(ns.len()))
            == Err::<Wiring, Seq<char>>(q);
    if built_from(g, bs) {
        lemma_build_deterministic(ns, g.nodes@, bs);
        assert forall|i: int| 0 <= i < ns.len() implies vertex_views(ns)[i] == vertex_views(g.nodes@)[i] by {
            assert(ns[i].name@ == g.nodes@[i].name@);
        }
        assert(vertex_views(ns) =~= vertex_views(g.nodes@));
    }
}

} // verus!
