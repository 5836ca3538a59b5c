//! The flow graph: an arena of named nodes and argument-ordered edges, built
//! from the syntax tree in three phases (create, merge, wire).
use vstd::prelude::*;
use vstd::string::*;

use crate::model::{
    Made, Wiring, answers, arg_nos_into, build_fails, built_from, const_kind, const_node_for,
    count_of, counts, created, created_all, created_box, created_list, created_ports,
    created_stmt, created_stmts, edge_triples, fresh_counts, holds_made, incidence,
    lemma_arg_nos_append, lemma_const_resolution_is, lemma_count_absent, lemma_count_update,
    lemma_counts_bound, lemma_edge_triples_push, lemma_gathered_empty, lemma_holds_concat,
    lemma_incidence_edge, lemma_incidence_fresh, lemma_incidence_new_node, lemma_nodes_built,
    lemma_resolution_is, lemma_same_vertex_views, lemma_wired_all_none, lemma_wired_args_none,
    lemma_wired_stmts_none, lemma_wiring_step_same_edges, lemma_wiring_step_trans, merged_from,
    next_index, nodes_built_from, port_name, positions, ranks_before, resolution, resolves_to,
    same_vertices, survivor_of, unwired, vertex_views, wired, wired_all, wired_args, wired_let,
    wired_stmts, wiring_step,
};
use crate::merge::merge_nodes;
use crate::ast::{BoxDef, BoxWire, Expr, LetDef, Numeric, Port, Stmt, TopDef};
use crate::text::{
    lemma_occurrence_lt_total, lemma_occurrence_lt_transitive, names_match, occurrence,
    occurrence_lt, occurrence_name, occurs_before, qualified, qualify, str_equal,
};

verus! {

/// The value carried by a constant node. Float values are kept as IEEE-754
/// bit patterns.
#[derive(Debug, Clone)]
pub enum Constant {
    Int32(i32),
    Int64(i64),
    Float32(u32),
    Float64(u64),
    Float32Array(Vec<u32>),
}

/// A box (module) of the source, by name.
#[derive(Debug)]
pub struct ModuleBox {
    pub name: String,
}

/// Per-box state of a pass: the box whose names are being qualified, and for
/// each kind of anonymous node (an operator name, or `const`) the next free
/// occurrence index.
#[derive(Debug)]
pub struct Context {
    pub current_box: Option<ModuleBox>,
    pub current_box_op_suffix_cnt: Vec<(String, u64)>,
}

/// A vertex of the graph. `inputs` and `outputs` hold the handles (indices
/// into the edge list) of the edges that end and start here.
#[derive(Debug)]
pub struct Node {
    pub id: u64,
    pub name: String,
    pub inputs: Vec<usize>,
    pub outputs: Vec<usize>,
    pub parent_box: ModuleBox,
    pub const_data: Option<Constant>,
}

/// A directed edge between two nodes, given by their handles (indices into
/// the node list). `arg_no` is the position of `from` among the arguments of
/// `to`.
#[derive(Debug, Clone, Copy)]
pub struct Edge {
    pub id: u64,
    pub arg_no: u64,
    pub from: usize,
    pub to: usize,
}

/// Why a build stopped.
#[derive(Debug)]
pub enum BuildError {
    /// No node that has not been consumed answers this qualified name.
    UnresolvedReference(String),
}

/// The dataflow graph of a program, with the state of its construction.
#[derive(Debug)]
pub struct FlowGraph {
    pub timestamp: u64,
    pub ast: Option<TopDef>,
    pub node_id_counter: u64,
    pub nodes: Vec<Node>,
    pub edge_id_counter: u64,
    pub edges: Vec<Edge>,
    pub boxes: Vec<ModuleBox>,
    pub ctx: Context,
    /// For each node handle, whether a resolution has consumed that node.
    pub popped_nodes: Vec<bool>,
}

impl FlowGraph {
    /// Well-formedness: handles in range, edge ids equal to their handles,
    /// each node's inputs and outputs are the edges that end and start
    /// there, and one consumption flag per node.
    pub open spec fn wf(&self) -> bool {
        &&& incidence(self.nodes@, self.edges@)
        &&& self.popped_nodes@.len() == self.nodes@.len()
        &&& self.edge_id_counter == self.edges@.len()
        &&& forall|k: int|
            0 <= k < self.edges@.len() ==> (#[trigger] self.edges@[k]).id == k
                && self.edges@[k].from < self.nodes@.len() && self.edges@[k].to < self.nodes@.len()
    }

    /// An empty graph over a syntax tree, made at `timestamp`.
    pub fn new(ast: Option<TopDef>, timestamp: u64) -> (r: FlowGraph)
        ensures
            r.ast == ast,
            r.timestamp == timestamp,
            r.nodes@.len() == 0,
            r.edges@.len() == 0,
            r.boxes@.len() == 0,
            r.popped_nodes@.len() == 0,
            r.node_id_counter == 0,
            r.edge_id_counter == 0,
            r.ctx.current_box is None,
            r.ctx.current_box_op_suffix_cnt@.len() == 0,
            r.wf(),
    {
        FlowGraph {
            timestamp,
            ast,
            node_id_counter: 0,
            nodes: Vec::new(),
            edge_id_counter: 0,
            edges: Vec::new(),
            boxes: Vec::new(),
            ctx: Context { current_box: None, current_box_op_suffix_cnt: Vec::new() },
            popped_nodes: Vec::new(),
        }
    }

    /// Appends a node named `box/name` of box `parent_box`, with the next id.
    pub fn new_node(&mut self, name: &str, parent_box: &str)
        requires
            old(self).wf(),
            old(self).node_id_counter == old(self).nodes@.len(),
        ensures
            final(self).nodes@.len() == old(self).nodes@.len() + 1,
            final(self).nodes@.drop_last() == old(self).nodes@,
            final(self).nodes@.last().id == old(self).node_id_counter,
            final(self).nodes@.last().name@ == qualified(parent_box@, name@),
            final(self).nodes@.last().parent_box.name@ == parent_box@,
            final(self).nodes@.last().inputs@.len() == 0,
            final(self).nodes@.last().outputs@.len() == 0,
            final(self).nodes@.last().const_data is None,
            final(self).node_id_counter == final(self).nodes@.len(),
            final(self).edges == old(self).edges,
            final(self).edge_id_counter == old(self).edge_id_counter,
            final(self).popped_nodes@ == old(self).popped_nodes@.push(false),
            final(self).wf(),
            final(self).ctx == old(self).ctx,
            final(self).boxes == old(self).boxes,
            final(self).ast == old(self).ast,
            final(self).timestamp == old(self).timestamp,
    {
        self.push_node(name, parent_box, None)
    }

    fn push_node(&mut self, name: &str, parent_box: &str, const_data: Option<Constant>)
        requires
            old(self).wf(),
            old(self).node_id_counter == old(self).nodes@.len(),
        ensures
            final(self).nodes@.len() == old(self).nodes@.len() + 1,
            final(self).nodes@.drop_last() == old(self).nodes@,
            final(self).nodes@.last().id == old(self).node_id_counter,
            final(self).nodes@.last().name@ == qualified(parent_box@, name@),
            final(self).nodes@.last().parent_box.name@ == parent_box@,
            final(self).nodes@.last().inputs@.len() == 0,
            final(self).nodes@.last().outputs@.len() == 0,
            final(self).nodes@.last().const_data == const_data,
            final(self).node_id_counter == final(self).nodes@.len(),
            final(self).edges == old(self).edges,
            final(self).edge_id_counter == old(self).edge_id_counter,
            final(self).popped_nodes@ == old(self).popped_nodes@.push(false),
            final(self).wf(),
            final(self).ctx == old(self).ctx,
            final(self).boxes == old(self).boxes,
            final(self).ast == old(self).ast,
            final(self).timestamp == old(self).timestamp,
    {
        let node = Node {
            id: self.node_id_counter,
            name: qualify(parent_box, name),
            inputs: Vec::new(),
            outputs: Vec::new(),
            parent_box: ModuleBox { name: String::from_str(parent_box) },
            const_data,
        };
        proof {
            lemma_incidence_new_node(self.nodes@, self.edges@, node);
        }
        self.nodes.push(node);
        self.popped_nodes.push(false);
        self.node_id_counter = self.nodes.len() as u64;
        assert(self.nodes@.drop_last() =~= old(self).nodes@);
    }

    /// The name of the box being processed.
    fn box_name(&self) -> (r: String)
        requires
            self.ctx.current_box is Some,
        ensures
            r@ == self.ctx.current_box->0.name@,
    {
        match &self.ctx.current_box {
            Some(b) => b.name.clone(),
            None => String::new(),
        }
    }

    /// The creation pass over one expression of the current box: appends the
    /// nodes that `created` gives, in that order, and advances the counters.
    pub fn dfs_expr(&mut self, expr: &Expr)
        requires
            old(self).wf(),
            old(self).node_id_counter == old(self).nodes@.len(),
            old(self).ctx.current_box is Some,
            forall|k: Seq<char>|
                #[trigger] count_of(old(self).ctx.current_box_op_suffix_cnt@, k)
                    <= old(self).nodes@.len(),
        ensures
            ({
                let bx = old(self).ctx.current_box->0.name@;
                let r = created(*expr, bx, counts(old(self).ctx.current_box_op_suffix_cnt@));
                &&& holds_made(final(self).nodes@, old(self).nodes@.len() as int, r.0)
                &&& counts(final(self).ctx.current_box_op_suffix_cnt@) == r.1
            }),
            final(self).nodes@.take(old(self).nodes@.len() as int) == old(self).nodes@,
            final(self).node_id_counter == final(self).nodes@.len(),
            forall|k: Seq<char>|
                #[trigger] count_of(final(self).ctx.current_box_op_suffix_cnt@, k)
                    <= final(self).nodes@.len(),
            final(self).ctx.current_box == old(self).ctx.current_box,
            final(self).edges == old(self).edges,
            final(self).edge_id_counter == old(self).edge_id_counter,
            final(self).wf(),
            final(self).boxes == old(self).boxes,
            final(self).ast == old(self).ast,
            final(self).timestamp == old(self).timestamp,
        decreases expr,
    {
        proof {
            reveal_strlit("const");
            assert("const"@ =~= const_kind());
        }
        let bx = self.box_name();
        let ghost start = self.nodes@.len() as int;
        let ghost c0 = counts(self.ctx.current_box_op_suffix_cnt@);
        match expr {
            Expr::Num(x) => {
                let n = peek_index(&self.ctx.current_box_op_suffix_cnt, "const");
                let local = occurrence_name("const", n);
                let c = match x {
                    Numeric::Int32(v) => Constant::Int32(*v),
                    Numeric::Float(v) => Constant::Float32(*v),
                };
                self.push_node(local.as_str(), bx.as_str(), Some(c));
                let ghost pre = self.ctx.current_box_op_suffix_cnt@;
                take_index(&mut self.ctx.current_box_op_suffix_cnt, "const");
                proof {
                    lemma_counts_bound(pre, self.ctx.current_box_op_suffix_cnt@, const_kind(), start);
                    assert(self.nodes@[start] == self.nodes@.last());
                    assert(self.nodes@.take(start) =~= self.nodes@.drop_last());
                }
            },
            Expr::NodeIdent(name) => {
                self.push_node(name.as_str(), bx.as_str(), None);
                proof {
                    assert(self.nodes@[start] == self.nodes@.last());
                    assert(self.nodes@.take(start) =~= self.nodes@.drop_last());
                }
            },
            Expr::Operator(op, args) => {
                let n = peek_index(&self.ctx.current_box_op_suffix_cnt, op.as_str());
                let local = occurrence_name(op.as_str(), n);
                self.push_node(local.as_str(), bx.as_str(), None);
                let ghost pre = self.ctx.current_box_op_suffix_cnt@;
                take_index(&mut self.ctx.current_box_op_suffix_cnt, op.as_str());
                proof {
                    lemma_counts_bound(pre, self.ctx.current_box_op_suffix_cnt@, op@, start);
                }
                let ghost head = seq![(qualified(bx@, occurrence(op@, n as nat)), None::<Constant>, bx@)];
                let ghost ci = c0.insert(op@, n as nat + 1);
                proof {
                    assert(self.nodes@[start] == self.nodes@.last());
                    assert(self.nodes@.take(start) =~= self.nodes@.drop_last());
                    assert(args@.subrange(0, 0) =~= Seq::<Expr>::empty());
                    assert(head + created_list(args@.subrange(0, 0), bx@, ci).0 =~= head);
                }
                let mut i: usize = 0;
                while i < args.len()
                    invariant
                        i <= args@.len(),
                        *expr is Operator,
                        (*expr)->Operator_1 == *args,
                        (*expr)->Operator_0 == *op,
                        old(self).ctx.current_box is Some,
                        bx@ == self.ctx.current_box->0.name@,
                        bx@ == old(self).ctx.current_box->0.name@,
                        self.ctx.current_box == old(self).ctx.current_box,
                        start == old(self).nodes@.len(),
                        c0 == counts(old(self).ctx.current_box_op_suffix_cnt@),
                        n == next_index(c0, op@),
                        head == seq![(qualified(bx@, occurrence(op@, n as nat)), None::<Constant>, bx@)],
                        ci == c0.insert(op@, n as nat + 1),
                        holds_made(
                            self.nodes@,
                            start,
                            head + created_list(args@.subrange(0, i as int), bx@, ci).0,
                        ),
                        counts(self.ctx.current_box_op_suffix_cnt@) == created_list(
                            args@.subrange(0, i as int),
                            bx@,
                            ci,
                        ).1,
                        self.nodes@.take(start) == old(self).nodes@,
                        self.node_id_counter == self.nodes@.len(),
                        forall|k: Seq<char>|
                            #[trigger] count_of(self.ctx.current_box_op_suffix_cnt@, k)
                                <= self.nodes@.len(),
                        self.edges == old(self).edges,
                        self.edge_id_counter == old(self).edge_id_counter,
                        self.wf(),
                        self.boxes == old(self).boxes,
                        self.ast == old(self).ast,
                        self.timestamp == old(self).timestamp,
                    decreases args@.len() - i,
                {
                    let ghost mid = self.nodes@;
                    let ghost before = created_list(args@.subrange(0, i as int), bx@, ci);
                    proof {
                        assert(decreases_to!(*args => args[i as int]));
                        assert(decreases_to!(*expr => (*expr)->Operator_1));
                    }
                    self.dfs_expr(&args[i]);
                    proof {
                        let sub = args@.subrange(0, i + 1);
                        assert(sub.subrange(0, sub.len() - 1) =~= args@.subrange(0, i as int));
                        assert(sub[sub.len() - 1] == args@[i as int]);
                        let step = created(args@[i as int], bx@, before.1);
                        lemma_holds_concat(mid, self.nodes@, start, head + before.0, step.0);
                        assert(head + created_list(sub, bx@, ci).0 =~= head + before.0 + step.0);
                        assert(self.nodes@.take(start) =~= self.nodes@.take(mid.len() as int).take(start));
                    }
                    i = i + 1;
                }
                proof {
                    assert(args@.subrange(0, args@.len() as int) =~= args@);
                }
            },
        }
    }

    /// The wiring pass over one expression of the current box: resolves the
    /// expression to a node and wires its arguments. A literal resolves to
    /// the first constant of the box with an equal value, without consuming
    /// it; an identifier and an operator consume the node their name
    /// resolves to, and an operator's arguments are wired into it with
    /// `arg_no` equal to their position.
    pub fn dfs_edge(&mut self, expr: &Expr) -> (r: Result<usize, BuildError>)
        requires
            old(self).wf(),
            old(self).ctx.current_box is Some,
        ensures
            wiring_step(*old(self), *final(self)),
            final(self).ctx == old(self).ctx,
            ({
                let bx = old(self).ctx.current_box->0.name@;
                let w0 = (old(self).popped_nodes@, edge_triples(old(self).edges@));
                match r {
                    Ok(i) => wired(vertex_views(old(self).nodes@), bx, *expr, w0) == Ok::<(Wiring, int), Seq<char>>(
                        ((final(self).popped_nodes@, edge_triples(final(self).edges@)), i as int),
                    ),
                    Err(BuildError::UnresolvedReference(q)) => wired(vertex_views(old(self).nodes@), bx, *expr, w0)
                        == Err::<(Wiring, int), Seq<char>>(q@),
                }
            }),
            (*expr is Operator && r is Ok) ==> arg_nos_into(
                final(self).edges@.skip(old(self).edges@.len() as int),
                r->Ok_0,
            ) == positions((*expr)->Operator_1@.len()),
            r is Ok ==> r->Ok_0 < final(self).nodes@.len(),
        decreases expr,
    {
        let bx = self.box_name();
        proof {
            reveal_strlit("const");
        }
        match expr {
            Expr::Num(v) => {
                proof {
                    lemma_wiring_step_same_edges(*old(self), *self);
                }
                match self.find_const(&bx, *v) {
                    Some(i) => {
                        proof {
                            lemma_const_resolution_is(vertex_views(self.nodes@), bx@, *v, i as int);
                        }
                        Ok(i)
                    },
                    None => {
                        proof {
                            assert("const"@ =~= const_kind());
                        }
                        Err(BuildError::UnresolvedReference(qualify(bx.as_str(), "const")))
                    },
                }
            },
            Expr::NodeIdent(name) => {
                let q = qualify(bx.as_str(), name.as_str());
                let r = self.pop_node_by_name(&q);
                proof {
                    lemma_wiring_step_same_edges(*old(self), *self);
                    if let Ok(i) = r {
                        lemma_resolution_is(vertex_views(old(self).nodes@), old(self).popped_nodes@, q@, i as int);
                    }
                }
                r
            },
            Expr::Operator(op, args) => {
                let q = qualify(bx.as_str(), op.as_str());
                let target = self.pop_node_by_name(&q);
                proof {
                    lemma_wiring_step_same_edges(*old(self), *self);
                }
                let t = match target {
                    Ok(t) => t,
                    Err(e) => {
                        return Err(e);
                    },
                };
                let ghost g0 = *old(self);
                let ghost start = old(self).edges@.len() as int;
                let ghost vs = vertex_views(g0.nodes@);
                let ghost w1 = (g0.popped_nodes@.update(t as int, true), edge_triples(g0.edges@));
                proof {
                    lemma_resolution_is(vs, g0.popped_nodes@, q@, t as int);
                    assert(args@.subrange(0, 0) =~= Seq::<Expr>::empty());
                    assert(self.edges@.skip(start) =~= Seq::<Edge>::empty());
                    assert(arg_nos_into(self.edges@.skip(start), t) =~= positions(0));
                    assert(self.edges@.take(start) =~= old(self).edges@);
                }
                let mut i: usize = 0;
                while i < args.len()
                    invariant
                        i <= args@.len(),
                        *expr is Operator,
                        (*expr)->Operator_1 == *args,
                        g0 == *old(self),
                        g0.wf(),
                        g0.ctx.current_box is Some,
                        start == g0.edges@.len(),
                        t < self.nodes@.len(),
                        !g0.popped_nodes@[t as int],
                        self.popped_nodes@[t as int],
                        wiring_step(g0, *self),
                        self.ctx == g0.ctx,
                        self.edges@.len() >= start,
                        arg_nos_into(self.edges@.skip(start), t) == positions(i as nat),
                        (*expr)->Operator_0 == *op,
                        vs == vertex_views(g0.nodes@),
                        vs == vertex_views(self.nodes@),
                        bx@ == g0.ctx.current_box->0.name@,
                        q@ == qualified(bx@, op@),
                        resolution(vs, g0.popped_nodes@, q@) == Some(t as int),
                        w1 == (g0.popped_nodes@.update(t as int, true), edge_triples(g0.edges@)),
                        wired_args(vs, bx@, args@.subrange(0, i as int), t as int, w1) == Ok::<Wiring, Seq<char>>(
                            (self.popped_nodes@, edge_triples(self.edges@)),
                        ),
                    decreases args@.len() - i,
                {
                    proof {
                        assert(decreases_to!(*args => args[i as int]));
                        assert(decreases_to!(*expr => (*expr)->Operator_1));
                    }
                    let ghost g1 = *self;
                    let src = self.dfs_edge(&args[i]);
                    let src = match src {
                        Ok(x) => x,
                        Err(e) => {
                            proof {
                                lemma_wiring_step_trans(g0, g1, *self);
                                let sub = args@.subrange(0, i + 1);
                                assert(sub.subrange(0, sub.len() - 1) =~= args@.subrange(0, i as int));
                                assert(sub[sub.len() - 1] == args@[i as int]);
                                let q = e->UnresolvedReference_0@;
                                assert(wired(vs, bx@, args@[i as int], (g1.popped_nodes@, edge_triples(g1.edges@))) == Err::<(Wiring, int), Seq<char>>(q));
                                assert(wired_args(vs, bx@, sub, t as int, w1) == Err::<Wiring, Seq<char>>(q));
                                lemma_wired_args_none(vs, bx@, args@, t as int, w1, i + 1, q);
                            }
                            return Err(e);
                        },
                    };
                    let ghost g2 = *self;
                    proof {
                        lemma_wiring_step_trans(g0, g1, g2);
                        let more = g2.edges@.skip(g1.edges@.len() as int);
                        assert(g2.edges@.skip(start) =~= g1.edges@.skip(start) + more);
                        assert forall|k: int| 0 <= k < more.len() implies (#[trigger] more[k]).to != t by {
                            assert(more[k] == g2.edges@[g1.edges@.len() + k]);
                            assert(g1.popped_nodes@[t as int]);
                        }
                        lemma_arg_nos_append(g1.edges@.skip(start), more, t);
                    }
                    self.add_edge(src, t, i as u64);
                    proof {
                        let e = self.edges@.last();
                        assert(self.edges@.skip(start) =~= g2.edges@.skip(start).push(e));
                        assert(self.edges@.skip(start).drop_last() =~= g2.edges@.skip(start));
                        assert(arg_nos_into(self.edges@.skip(start), t) =~= positions(i as nat + 1));
                        assert(self.edges@ == g2.edges@.push(e));
                        assert(self.edges@.take(start) =~= g2.edges@.take(start));
                        assert forall|k: int| g0.edges@.len() <= k < self.edges@.len() implies !g0.popped_nodes@[#[trigger] self.edges@[k].to as int]
                            && self.popped_nodes@[self.edges@[k].to as int] by {
                            if k < g2.edges@.len() {
                                assert(self.edges@[k] == g2.edges@[k]);
                            } else {
                                assert(self.edges@[k].to == t);
                            }
                        }
                        assert(same_vertices(g0.nodes@, self.nodes@)) by {
                            assert forall|j: int| 0 <= j < g0.nodes@.len() implies (#[trigger] g0.nodes@[j]).name == self.nodes@[j].name
                                && g0.nodes@[j].id == self.nodes@[j].id
                                && g0.nodes@[j].parent_box == self.nodes@[j].parent_box
                                && g0.nodes@[j].const_data == self.nodes@[j].const_data by {
                                assert(g0.nodes@[j].name == g2.nodes@[j].name);
                                assert(self.nodes@[j].name == g2.nodes@[j].name);
                            }
                        }
                        lemma_same_vertex_views(g0.nodes@, self.nodes@);
                        lemma_edge_triples_push(g2.edges@, e);
                        let sub = args@.subrange(0, i + 1);
                        assert(sub.subrange(0, sub.len() - 1) =~= args@.subrange(0, i as int));
                        assert(sub[sub.len() - 1] == args@[i as int]);
                    }
                    i = i + 1;
                }
                proof {
                    assert(args@.subrange(0, args@.len() as int) =~= args@);
                }
                Ok(t)
            },
        }
    }

    /// The creation pass over one box: sets it as the current box with
    /// fresh counters, then makes a node for each port and each statement
    /// and the nodes of each `let` expression.
    fn create_box(&mut self, bd: &BoxDef)
        requires
            old(self).wf(),
            old(self).node_id_counter == old(self).nodes@.len(),
        ensures
            holds_made(final(self).nodes@, old(self).nodes@.len() as int, created_box(*bd)),
            final(self).nodes@.take(old(self).nodes@.len() as int) == old(self).nodes@,
            final(self).node_id_counter == final(self).nodes@.len(),
            final(self).boxes@.len() == old(self).boxes@.len() + 1,
            final(self).edges == old(self).edges,
            final(self).edge_id_counter == old(self).edge_id_counter,
            final(self).wf(),
            final(self).ast == old(self).ast,
            final(self).timestamp == old(self).timestamp,
    {
        let BoxDef::ModuleBox(name, ports, stmts) = bd;
        let ghost bx = name@;
        let ghost start = self.nodes@.len() as int;
        self.boxes.push(ModuleBox { name: name.clone() });
        self.ctx.current_box = Some(ModuleBox { name: name.clone() });
        self.ctx.current_box_op_suffix_cnt = Vec::new();
        proof {
            assert(self.ctx.current_box_op_suffix_cnt@ =~= Seq::<(String, u64)>::empty());
            assert(self.nodes@.take(start) =~= self.nodes@);
            assert(created_ports(ports@.take(0), bx) =~= Seq::<Made>::empty());
        }
        let mut i: usize = 0;
        while i < ports.len()
            invariant
                i <= ports@.len(),
                bx == name@,
                0 <= start <= self.nodes@.len(),
                holds_made(self.nodes@, start, created_ports(ports@.take(i as int), bx)),
                self.nodes@.take(start) == old(self).nodes@,
                self.node_id_counter == self.nodes@.len(),
                self.ctx.current_box_op_suffix_cnt@ == Seq::<(String, u64)>::empty(),
                self.ctx.current_box == Some(ModuleBox { name: self.ctx.current_box->0.name }),
                self.ctx.current_box->0.name@ == bx,
                self.boxes@.len() == old(self).boxes@.len() + 1,
                self.edges == old(self).edges,
                self.edge_id_counter == old(self).edge_id_counter,
                self.wf(),
                self.ast == old(self).ast,
                self.timestamp == old(self).timestamp,
            decreases ports@.len() - i,
        {
            let ghost mid = self.nodes@;
            let pname = match &ports[i] {
                Port::In(n, _) => n,
                Port::Out(n, _) => n,
            };
            self.new_node(pname.as_str(), name.as_str());
            proof {
                let m = (qualified(bx, port_name(ports@[i as int])), None::<Constant>, bx);
                assert(self.nodes@[mid.len() as int] == self.nodes@.last());
                assert(self.nodes@.take(mid.len() as int) =~= mid);
                assert(holds_made(self.nodes@, mid.len() as int, seq![m]));
                lemma_holds_concat(mid, self.nodes@, start, created_ports(ports@.take(i as int), bx), seq![m]);
                assert(created_ports(ports@.take(i + 1), bx) =~= created_ports(ports@.take(i as int), bx) + seq![m]);
                assert(self.nodes@.take(start) =~= self.nodes@.take(mid.len() as int).take(start));
            }
            i = i + 1;
        }
        proof {
            assert(ports@.take(ports@.len() as int) =~= ports@);
            assert(stmts@.take(0) =~= Seq::<Stmt>::empty());
            assert(created_ports(ports@, bx) + created_stmts(stmts@.take(0), bx, fresh_counts()).0 =~= created_ports(ports@, bx));
        }
        let ghost base = created_ports(ports@, bx);
        let mut j: usize = 0;
        while j < stmts.len()
            invariant
                j <= stmts@.len(),
                bx == name@,
                base == created_ports(ports@, bx),
                0 <= start <= self.nodes@.len(),
                holds_made(self.nodes@, start, base + created_stmts(stmts@.take(j as int), bx, fresh_counts()).0),
                counts(self.ctx.current_box_op_suffix_cnt@) == created_stmts(stmts@.take(j as int), bx, fresh_counts()).1,
                forall|k: Seq<char>|
                    #[trigger] count_of(self.ctx.current_box_op_suffix_cnt@, k) <= self.nodes@.len(),
                self.nodes@.take(start) == old(self).nodes@,
                self.node_id_counter == self.nodes@.len(),
                self.ctx.current_box is Some,
                self.ctx.current_box->0.name@ == bx,
                self.boxes@.len() == old(self).boxes@.len() + 1,
                self.edges == old(self).edges,
                self.edge_id_counter == old(self).edge_id_counter,
                self.wf(),
                self.ast == old(self).ast,
                self.timestamp == old(self).timestamp,
            decreases stmts@.len() - j,
        {
            let ghost mid = self.nodes@;
            let ghost prev = created_stmts(stmts@.take(j as int), bx, fresh_counts());
            let ghost made = base + prev.0;
            match &stmts[j] {
                Stmt::LetDef(LetDef::Let(n, e)) => {
                    self.new_node(n.as_str(), name.as_str());
                    let ghost mid2 = self.nodes@;
                    proof {
                        let m = (qualified(bx, n@), None::<Constant>, bx);
                        assert(self.nodes@[mid.len() as int] == self.nodes@.last());
                        assert(self.nodes@.take(mid.len() as int) =~= mid);
                        assert(holds_made(self.nodes@, mid.len() as int, seq![m]));
                        lemma_holds_concat(mid, self.nodes@, start, made, seq![m]);
                    }
                    self.dfs_expr(e);
                    proof {
                        let m = (qualified(bx, n@), None::<Constant>, bx);
                        let r = created(*e, bx, prev.1);
                        lemma_holds_concat(mid2, self.nodes@, start, made + seq![m], r.0);
                        assert(self.nodes@.take(mid.len() as int) =~= mid2.take(mid.len() as int));
                        assert(self.nodes@.take(start) =~= self.nodes@.take(mid.len() as int).take(start));
                    }
                },
                Stmt::BoxWire(BoxWire::Boxw(n, _)) => {
                    self.new_node(n.as_str(), name.as_str());
                    proof {
                        let m = (qualified(bx, n@), None::<Constant>, bx);
                        assert(self.nodes@[mid.len() as int] == self.nodes@.last());
                        assert(self.nodes@.take(mid.len() as int) =~= mid);
                        assert(holds_made(self.nodes@, mid.len() as int, seq![m]));
                        lemma_holds_concat(mid, self.nodes@, start, made, seq![m]);
                        assert(self.nodes@.take(start) =~= self.nodes@.take(mid.len() as int).take(start));
                    }
                },
            }
            proof {
                let st = stmts@.take(j + 1);
                assert(st.drop_last() =~= stmts@.take(j as int));
                assert(st.last() == stmts@[j as int]);
                let l = created_stmt(stmts@[j as int], bx, prev.1);
                assert(base + created_stmts(st, bx, fresh_counts()).0 =~= made + l.0);
            }
            j = j + 1;
        }
        proof {
            assert(stmts@.take(stmts@.len() as int) =~= stmts@);
        }
    }

    /// Wires one `let`: consumes the node of its bound name, resolves its
    /// expression, and adds the edge from that to the bound node at
    /// position 0. Returns the bound node.
    fn wire_let(&mut self, name: &String, expr: &Expr) -> (r: Result<usize, BuildError>)
        requires
            old(self).wf(),
            old(self).ctx.current_box is Some,
        ensures
            wiring_step(*old(self), *final(self)),
            final(self).ctx == old(self).ctx,
            match r {
                Ok(d) => resolves_to(
                    vertex_views(old(self).nodes@),
                    old(self).popped_nodes@,
                    qualified(old(self).ctx.current_box->0.name@, name@),
                    d as int,
                ) && final(self).edges@.last().to == d && final(self).edges@.last().arg_no == 0
                    && final(self).edges@.len() > old(self).edges@.len() && wired_let(
                    vertex_views(old(self).nodes@),
                    old(self).ctx.current_box->0.name@,
                    name@,
                    *expr,
                    (old(self).popped_nodes@, edge_triples(old(self).edges@)),
                ) == Ok::<Wiring, Seq<char>>((final(self).popped_nodes@, edge_triples(final(self).edges@))),
                Err(BuildError::UnresolvedReference(q)) => wired_let(
                    vertex_views(old(self).nodes@),
                    old(self).ctx.current_box->0.name@,
                    name@,
                    *expr,
                    (old(self).popped_nodes@, edge_triples(old(self).edges@)),
                ) == Err::<Wiring, Seq<char>>(q@),
            },
    {
        let bx = self.box_name();
        let q = qualify(bx.as_str(), name.as_str());
        let d = match self.pop_node_by_name(&q) {
            Ok(d) => d,
            Err(e) => {
                proof {
                    lemma_wiring_step_same_edges(*old(self), *self);
                }
                return Err(e);
            },
        };
        let ghost g1 = *self;
        proof {
            lemma_wiring_step_same_edges(*old(self), g1);
            lemma_resolution_is(vertex_views(old(self).nodes@), old(self).popped_nodes@, q@, d as int);
        }
        let src = match self.dfs_edge(expr) {
            Ok(x) => x,
            Err(e) => {
                proof {
                    lemma_wiring_step_trans(*old(self), g1, *self);
                }
                return Err(e);
            },
        };
        let ghost g2 = *self;
        proof {
            lemma_wiring_step_trans(*old(self), g1, g2);
        }
        self.add_edge(src, d, 0);
        proof {
            let g0 = *old(self);
            assert(self.edges@ == g2.edges@.push(self.edges@.last()));
            assert(self.edges@.take(g0.edges@.len() as int) =~= g2.edges@.take(g0.edges@.len() as int));
            assert forall|k: int| g0.edges@.len() <= k < self.edges@.len() implies !g0.popped_nodes@[#[trigger] self.edges@[k].to as int]
                && self.popped_nodes@[self.edges@[k].to as int] by {
                if k < g2.edges@.len() {
                    assert(self.edges@[k] == g2.edges@[k]);
                } else {
                    assert(self.edges@[k].to == d);
                    assert(g1.popped_nodes@[d as int]);
                }
            }
            lemma_edge_triples_push(g2.edges@, self.edges@.last());
            assert(same_vertices(g0.nodes@, self.nodes@)) by {
                assert forall|j: int| 0 <= j < g0.nodes@.len() implies (#[trigger] g0.nodes@[j]).name == self.nodes@[j].name
                    && g0.nodes@[j].id == self.nodes@[j].id
                    && g0.nodes@[j].parent_box == self.nodes@[j].parent_box
                    && g0.nodes@[j].const_data == self.nodes@[j].const_data by {
                    assert(g0.nodes@[j].name == g2.nodes@[j].name);
                }
            }
        }
        Ok(d)
    }

    /// The wiring pass over one box: sets it as the current box with fresh
    /// counters and wires each `let` in order. Wire statements are not
    /// wired.
    fn wire_box(&mut self, bd: &BoxDef) -> (r: Result<(), BuildError>)
        requires
            old(self).wf(),
        ensures
            wiring_step(*old(self), *final(self)),
            ({
                let w0 = (old(self).popped_nodes@, edge_triples(old(self).edges@));
                let vs = vertex_views(old(self).nodes@);
                match *bd {
                    BoxDef::ModuleBox(name, _, ss) => match r {
                        Ok(_) => wired_stmts(vs, name@, ss@, w0) == Ok::<Wiring, Seq<char>>(
                            (final(self).popped_nodes@, edge_triples(final(self).edges@)),
                        ),
                        Err(BuildError::UnresolvedReference(q)) => wired_stmts(vs, name@, ss@, w0)
                            == Err::<Wiring, Seq<char>>(q@),
                    },
                }
            }),
    {
        let BoxDef::ModuleBox(name, _, stmts) = bd;
        self.ctx.current_box = Some(ModuleBox { name: name.clone() });
        self.ctx.current_box_op_suffix_cnt = Vec::new();
        proof {
            lemma_wiring_step_same_edges(*old(self), *self);
            assert(edge_triples(self.edges@) == edge_triples(old(self).edges@));
        }
        let ghost vs = vertex_views(old(self).nodes@);
        let ghost w0 = (old(self).popped_nodes@, edge_triples(old(self).edges@));
        proof {
            assert(stmts@.take(0) =~= Seq::<Stmt>::empty());
        }
        let mut j: usize = 0;
        while j < stmts.len()
            invariant
                j <= stmts@.len(),
                *bd == BoxDef::ModuleBox(*name, bd->ModuleBox_1, *stmts),
                wiring_step(*old(self), *self),
                self.ctx.current_box is Some,
                self.ctx.current_box->0.name@ == name@,
                vs == vertex_views(old(self).nodes@),
                vs == vertex_views(self.nodes@),
                w0 == (old(self).popped_nodes@, edge_triples(old(self).edges@)),
                wired_stmts(vs, name@, stmts@.take(j as int), w0) == Ok::<Wiring, Seq<char>>(
                    (self.popped_nodes@, edge_triples(self.edges@)),
                ),
            decreases stmts@.len() - j,
        {
            let ghost g = *self;
            proof {
                let st = stmts@.take(j + 1);
                assert(st.drop_last() =~= stmts@.take(j as int));
                assert(st.last() == stmts@[j as int]);
            }
            match &stmts[j] {
                Stmt::LetDef(LetDef::Let(n, e)) => {
                    let w = self.wire_let(n, e);
                    proof {
                        lemma_wiring_step_trans(*old(self), g, *self);
                        lemma_same_vertex_views(old(self).nodes@, self.nodes@);
                    }
                    if let Err(e) = w {
                        proof {
                            lemma_wired_stmts_none(vs, name@, stmts@, w0, j + 1, e->UnresolvedReference_0@);
                        }
                        return Err(e);
                    }
                },
                Stmt::BoxWire(_) => {},
            }
            j = j + 1;
        }
        proof {
            assert(stmts@.take(stmts@.len() as int) =~= stmts@);
        }
        Ok(())
    }

    /// Builds the graph of `boxes` into this fresh graph: the creation pass
    /// over every box, the merge of nodes by name, then the wiring pass over
    /// every box. Stops at the first reference that does not resolve.
    pub fn node_create(&mut self, boxes: &Vec<BoxDef>) -> (r: Result<(), BuildError>)
        requires
            old(self).nodes@.len() == 0,
            old(self).node_id_counter == 0,
            old(self).edges@.len() == 0,
            old(self).edge_id_counter == 0,
            old(self).popped_nodes@.len() == 0,
        ensures
            final(self).wf(),
            nodes_built_from(final(self).nodes@, boxes@),
            final(self).boxes@.len() == old(self).boxes@.len() + boxes@.len(),
            final(self).ast == old(self).ast,
            final(self).timestamp == old(self).timestamp,
            match r {
                Ok(_) => built_from(*final(self), boxes@),
                Err(BuildError::UnresolvedReference(q)) => wired_all(
                    vertex_views(final(self).nodes@),
                    boxes@,
                    unwired(final(self).nodes@.len()),
                ) == Err::<Wiring, Seq<char>>(q@),
            },
    {
        proof {
            assert(boxes@.take(0) =~= Seq::<BoxDef>::empty());
        }
        let mut b: usize = 0;
        while b < boxes.len()
            invariant
                b <= boxes@.len(),
                holds_made(self.nodes@, 0, created_all(boxes@.take(b as int))),
                self.node_id_counter == self.nodes@.len(),
                self.boxes@.len() == old(self).boxes@.len() + b,
                self.edges@.len() == 0,
                self.edge_id_counter == 0,
                self.wf(),
                self.ast == old(self).ast,
                self.timestamp == old(self).timestamp,
            decreases boxes@.len() - b,
        {
            let ghost mid = self.nodes@;
            self.create_box(&boxes[b]);
            proof {
                lemma_holds_concat(mid, self.nodes@, 0, created_all(boxes@.take(b as int)), created_box(boxes@[b as int]));
                let bt = boxes@.take(b + 1);
                assert(bt.drop_last() =~= boxes@.take(b as int));
                assert(bt.last() == boxes@[b as int]);
            }
            b = b + 1;
        }
        proof {
            assert(boxes@.take(boxes@.len() as int) =~= boxes@);
        }
        let ghost c1 = self.nodes@;
        let mut first: Vec<Node> = Vec::new();
        std::mem::swap(&mut first, &mut self.nodes);
        self.nodes = merge_nodes(first);
        let ghost merged = self.nodes@;
        self.popped_nodes = Vec::new();
        let mut k: usize = 0;
        while k < self.nodes.len()
            invariant
                k <= self.nodes@.len(),
                self.nodes@ == merged,
                holds_made(c1, 0, created_all(boxes@)),
                merged_from(merged, c1),
                self.popped_nodes@.len() == k,
                forall|i: int| 0 <= i < k ==> !#[trigger] self.popped_nodes@[i],
                self.edges@.len() == 0,
                self.edge_id_counter == 0,
                self.ast == old(self).ast,
                self.timestamp == old(self).timestamp,
                self.boxes@.len() == old(self).boxes@.len() + boxes@.len(),
            decreases merged.len() - k,
        {
            self.popped_nodes.push(false);
            k = k + 1;
        }
        let ghost g0 = *self;
        let ghost vs = vertex_views(merged);
        let ghost wz = (Seq::new(merged.len(), |i: int| false), Seq::<(int, int, u64)>::empty());
        proof {
            assert(same_vertices(merged, merged));
            assert forall|i: int| 0 <= i < merged.len() implies (#[trigger] merged[i]).inputs@.len() == 0
                && merged[i].outputs@.len() == 0 by {
                assert(survivor_of(merged[i], c1));
                lemma_gathered_empty(c1, merged[i].name@);
            }
            lemma_incidence_fresh(merged);
            assert(self.wf());
            assert(self.popped_nodes@ =~= wz.0);
            assert(edge_triples(self.edges@) =~= wz.1);
        }
        b = 0;
        while b < boxes.len()
            invariant
                b <= boxes@.len(),
                g0.wf(),
                g0.nodes@ == merged,
                wiring_step(g0, *self) || *self == g0,
                self.wf(),
                holds_made(c1, 0, created_all(boxes@)),
                merged_from(merged, c1),
                same_vertices(merged, self.nodes@),
                g0.boxes@.len() == old(self).boxes@.len() + boxes@.len(),
                self.boxes == g0.boxes,
                self.ast == old(self).ast,
                self.timestamp == old(self).timestamp,
                vs == vertex_views(merged),
                vs == vertex_views(self.nodes@),
                wz == (Seq::new(merged.len(), |i: int| false), Seq::<(int, int, u64)>::empty()),
                wired_all(vs, boxes@.take(b as int), wz) == Ok::<Wiring, Seq<char>>(
                    (self.popped_nodes@, edge_triples(self.edges@)),
                ),
            decreases boxes@.len() - b,
        {
            let ghost g = *self;
            proof {
                let bt = boxes@.take(b + 1);
                assert(bt.drop_last() =~= boxes@.take(b as int));
                assert(bt.last() == boxes@[b as int]);
            }
            let w = self.wire_box(&boxes[b]);
            proof {
                if g == g0 {
                } else {
                    lemma_wiring_step_trans(g0, g, *self);
                }
                lemma_same_vertex_views(merged, self.nodes@);
            }
            if let Err(e) = w {
                proof {
                    lemma_nodes_built(c1, merged, self.nodes@, boxes@);
                    lemma_wired_all_none(vs, boxes@, wz, b + 1, e->UnresolvedReference_0@);
                }
                return Err(e);
            }
            b = b + 1;
        }
        proof {
            lemma_nodes_built(c1, merged, self.nodes@, boxes@);
            assert(boxes@.take(boxes@.len() as int) =~= boxes@);
        }
        Ok(())
    }

    /// Builds the graph of a whole program, made at `timestamp`.
    pub fn build(top: TopDef, timestamp: u64) -> (r: Result<FlowGraph, BuildError>)
        ensures
            match r {
                Ok(g) => g.wf() && g.ast == Some(top) && g.timestamp == timestamp && built_from(
                    g,
                    match top {
                        TopDef::Boxes(bs) => bs@,
                    },
                ),
                Err(BuildError::UnresolvedReference(q)) => build_fails(
                    match top {
                        TopDef::Boxes(bs) => bs@,
                    },
                    q@,
                ),
            },
    {
        let mut g = FlowGraph::new(None, timestamp);
        let TopDef::Boxes(bs) = &top;
        match g.node_create(bs) {
            Ok(()) => {},
            Err(e) => {
                proof {
                    assert(nodes_built_from(g.nodes@, bs@));
                }
                return Err(e);
            },
        }
        g.ast = Some(top);
        Ok(g)
    }

    /// The boxes of the syntax tree that this graph was made from.
    pub fn generate(&self) -> (r: &Vec<BoxDef>)
        requires
            self.ast is Some,
        ensures
            self.ast == Some(TopDef::Boxes(*r)),
    {
        let TopDef::Boxes(bs) = self.ast.as_ref().unwrap();
        bs
    }

    /// The nodes of the graph.
    pub fn get_nodes(&self) -> (r: &Vec<Node>)
        ensures
            *r == self.nodes,
    {
        &self.nodes
    }

    /// Adds an edge from node `from` to node `to` at argument position
    /// `arg_no`, and records it in the outputs of `from` and the inputs of
    /// `to`.
    #[verifier::rlimit(30)]
    pub fn add_edge(&mut self, from: usize, to: usize, arg_no: u64)
        requires
            old(self).wf(),
            from < old(self).nodes@.len(),
            to < old(self).nodes@.len(),
        ensures
            final(self).wf(),
            final(self).edges@ == old(self).edges@.push(
                Edge { id: old(self).edges@.len() as u64, arg_no, from, to },
            ),
            final(self).nodes@.len() == old(self).nodes@.len(),
            forall|i: int|
                0 <= i < final(self).nodes@.len() ==> {
                    let n = #[trigger] final(self).nodes@[i];
                    let o = old(self).nodes@[i];
                    &&& n.id == o.id
                    &&& n.name == o.name
                    &&& n.parent_box == o.parent_box
                    &&& n.const_data == o.const_data
                    &&& n.outputs@ == if i == from {
                        o.outputs@.push(old(self).edges@.len() as usize)
                    } else {
                        o.outputs@
                    }
                    &&& n.inputs@ == if i == to {
                        o.inputs@.push(old(self).edges@.len() as usize)
                    } else {
                        o.inputs@
                    }
                },
            final(self).popped_nodes == old(self).popped_nodes,
            final(self).ctx == old(self).ctx,
            final(self).node_id_counter == old(self).node_id_counter,
            final(self).boxes == old(self).boxes,
            final(self).ast == old(self).ast,
            final(self).timestamp == old(self).timestamp,
    {
        let handle = self.edges.len();
        let edge = Edge { id: self.edge_id_counter, arg_no, from, to };
        self.edges.push(edge);
        self.edge_id_counter = self.edges.len() as u64;
        let mut n = self.nodes.remove(from);
        n.outputs.push(handle);
        self.nodes.insert(from, n);
        assert(self.nodes@ =~= old(self).nodes@.update(from as int, n));
        let ghost mid = self.nodes@;
        let mut m = self.nodes.remove(to);
        m.inputs.push(handle);
        self.nodes.insert(to, m);
        assert(self.nodes@ =~= mid.update(to as int, m));
        assert forall|k: int| 0 <= k < self.edges@.len() implies #[trigger] self.edges@[k].id == k
            && self.edges@[k].from < self.nodes@.len() && self.edges@[k].to < self.nodes@.len() by {
            assert(self.nodes@.len() == old(self).nodes@.len());
            assert(self.edges@ == old(self).edges@.push(edge));
            if k < old(self).edges@.len() {
                assert(self.edges@[k] == old(self).edges@[k]);
                assert(old(self).edges@[k].id == k);
                assert(old(self).edges@[k].from < old(self).nodes@.len());
            } else {
                assert(self.edges@[k] == edge);
            }
        }
        proof {
            let o = old(self).nodes@;
            let f = self.nodes@;
            assert forall|i: int| 0 <= i < f.len() implies (#[trigger] f[i]).outputs@ == if i == from {
                o[i].outputs@.push(old(self).edges@.len() as usize)
            } else {
                o[i].outputs@
            } && f[i].inputs@ == if i == to {
                o[i].inputs@.push(old(self).edges@.len() as usize)
            } else {
                o[i].inputs@
            } by {
                if i == to {
                    assert(f[i] == m);
                } else {
                    assert(f[i] == mid[i]);
                }
            }
            lemma_incidence_edge(o, old(self).edges@, f, edge);
        }
    }

    /// Consumes and returns the node that `name` resolves to: of the nodes
    /// not consumed yet whose name answers it (see `name_matches`), the one
    /// taken first in `ranks_before`, so that the occurrences of an
    /// operator go in the order of their indices. Fails, consuming nothing,
    /// when there is none.
    pub fn pop_node_by_name(&mut self, name: &String) -> (r: Result<usize, BuildError>)
        requires
            old(self).wf(),
        ensures
            final(self).wf(),
            final(self).nodes == old(self).nodes,
            final(self).edges == old(self).edges,
            final(self).edge_id_counter == old(self).edge_id_counter,
            final(self).ctx == old(self).ctx,
            final(self).node_id_counter == old(self).node_id_counter,
            final(self).boxes == old(self).boxes,
            final(self).ast == old(self).ast,
            final(self).timestamp == old(self).timestamp,
            match r {
                Ok(i) => resolves_to(vertex_views(old(self).nodes@), old(self).popped_nodes@, name@, i as int)
                    && final(self).popped_nodes@ == old(self).popped_nodes@.update(i as int, true),
                Err(BuildError::UnresolvedReference(n)) => n@ == name@
                    && final(self).popped_nodes == old(self).popped_nodes
                    && forall|j: int| !answers(vertex_views(old(self).nodes@), old(self).popped_nodes@, j, name@),
            },
    {
        let ghost vs = vertex_views(self.nodes@);
        let mut best: Option<usize> = None;
        let mut i: usize = 0;
        while i < self.nodes.len()
            invariant
                self == old(self),
                self.wf(),
                vs == vertex_views(self.nodes@),
                i <= self.nodes@.len(),
                best matches Some(b) ==> b < i && answers(vs, self.popped_nodes@, b as int, name@)
                    && forall|j: int| #![trigger answers(vs, self.popped_nodes@, j, name@)]
                    0 <= j < i && j != b && answers(vs, self.popped_nodes@, j, name@)
                        ==> ranks_before(vs, b as int, j),
                best is None ==> forall|j: int| 0 <= j < i ==> !answers(vs, self.popped_nodes@, j, name@),
            decreases self.nodes@.len() - i,
        {
            if !self.popped_nodes[i] && names_match(self.nodes[i].name.as_str(), name.as_str()) {
                match best {
                    None => {
                        best = Some(i);
                    },
                    Some(b) => {
                        if occurs_before(self.nodes[i].name.as_str(), self.nodes[b].name.as_str()) {
                            proof {
                                assert forall|j: int| #![trigger answers(vs, self.popped_nodes@, j, name@)]
                                    0 <= j < i + 1 && j != i && answers(vs, self.popped_nodes@, j, name@)
                                    implies ranks_before(vs, i as int, j) by {
                                    if j != b {
                                        assert(ranks_before(vs, b as int, j));
                                        if occurrence_lt(vs[b as int].0, vs[j].0) {
                                            lemma_occurrence_lt_transitive(vs[i as int].0, vs[b as int].0, vs[j].0);
                                        }
                                    }
                                }
                            }
                            best = Some(i);
                        } else {
                            proof {
                                if vs[b as int].0 != vs[i as int].0 {
                                    lemma_occurrence_lt_total(vs[b as int].0, vs[i as int].0);
                                }
                                assert(ranks_before(vs, b as int, i as int));
                            }
                        }
                    },
                }
            }
            i = i + 1;
        }
        if let Some(b) = best {
            self.popped_nodes.set(b, true);
            return Ok(b);
        }
        Err(BuildError::UnresolvedReference(name.clone()))
    }

    /// The first constant node of box `bx` whose value equals the literal
    /// `v`. Constants are shared by value and never consumed.
    pub fn find_const(&self, bx: &String, v: Numeric) -> (r: Option<usize>)
        ensures
            match r {
                Some(i) => const_node_for(vertex_views(self.nodes@), bx@, v, i as int) && forall|j: int|
                    0 <= j < i ==> !const_node_for(vertex_views(self.nodes@), bx@, v, j),
                None => forall|j: int| !const_node_for(vertex_views(self.nodes@), bx@, v, j),
            },
    {
        let mut i: usize = 0;
        while i < self.nodes.len()
            invariant
                i <= self.nodes@.len(),
                forall|j: int| 0 <= j < i ==> !const_node_for(vertex_views(self.nodes@), bx@, v, j),
            decreases self.nodes@.len() - i,
        {
            let n = &self.nodes[i];
            if str_equal(n.parent_box.name.as_str(), bx.as_str()) {
                let hit = match (&n.const_data, v) {
                    (Some(Constant::Int32(x)), Numeric::Int32(y)) => *x == y,
                    (Some(Constant::Float32(x)), Numeric::Float(y)) => {
                        let a = *x;
                        let a_nan = (a & 0x7f80_0000u32) == 0x7f80_0000u32 && (a & 0x007f_ffffu32)
                            != 0;
                        ((a & 0x7fff_ffffu32) == 0 && (y & 0x7fff_ffffu32) == 0) || (a == y
                            && !a_nan)
                    },
                    _ => false,
                };
                if hit {
                    return Some(i);
                }
            }
            i = i + 1;
        }
        None
    }
}

/// The next occurrence index of `kind`, without advancing it.
fn peek_index(cnt: &Vec<(String, u64)>, kind: &str) -> (r: u64)
    ensures
        r == count_of(cnt@, kind@),
{
    let mut i: usize = cnt.len();
    while i > 0
        invariant
            i <= cnt@.len(),
            forall|j: int| i <= j < cnt@.len() ==> cnt@[j].0@ != kind@,
        decreases i,
    {
        if str_equal(cnt[i - 1].0.as_str(), kind) {
            proof {
                lemma_count_update(cnt@, i - 1, cnt@[i - 1], kind@);
                assert(cnt@.update(i - 1, cnt@[i - 1]) =~= cnt@);
            }
            return cnt[i - 1].1;
        }
        i = i - 1;
    }
    proof {
        lemma_count_absent(cnt@, kind@);
    }
    0
}

/// Takes the next occurrence index of `kind` and advances its counter.
fn take_index(cnt: &mut Vec<(String, u64)>, kind: &str) -> (r: u64)
    requires
        count_of(old(cnt)@, kind@) < u64::MAX,
    ensures
        r == count_of(old(cnt)@, kind@),
        counts(final(cnt)@) == counts(old(cnt)@).insert(kind@, r as nat + 1),
{
    let mut i: usize = cnt.len();
    while i > 0
        invariant
            i <= cnt@.len(),
            cnt == old(cnt),
            count_of(old(cnt)@, kind@) < u64::MAX,
            forall|j: int| i <= j < cnt@.len() ==> cnt@[j].0@ != kind@,
        decreases i,
    {
        if str_equal(cnt[i - 1].0.as_str(), kind) {
            let (key, c) = cnt.remove(i - 1);
            proof {
                assert(key@ == kind@);
                lemma_count_update(old(cnt)@, i - 1, (key, c), kind@);
                assert(old(cnt)@.update(i - 1, (key, c)) =~= old(cnt)@);
                assert(c == count_of(old(cnt)@, kind@));
                assert(c < u64::MAX);
            }
            cnt.insert(i - 1, (key, c + 1));
            assert(cnt@ =~= old(cnt)@.update(i - 1, (key, (c + 1) as u64)));
            proof {
                assert forall|k: Seq<char>| #[trigger]
                    counts(cnt@)[k] == counts(old(cnt)@).insert(kind@, c as nat + 1)[k] by {
                    lemma_count_update(old(cnt)@, i - 1, (key, (c + 1) as u64), k);
                }
                assert(counts(cnt@) =~= counts(old(cnt)@).insert(kind@, c as nat + 1));
            }
            return c;
        }
        i = i - 1;
    }
    proof {
        lemma_count_absent(cnt@, kind@);
    }
    cnt.push((String::from_str(kind), 1));
    proof {
        assert(cnt@.drop_last() =~= old(cnt)@);
        assert(counts(cnt@) =~= counts(old(cnt)@).insert(kind@, 1));
    }
    0
}

} // verus!
