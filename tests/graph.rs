use rasynth::ast::{BoxDef, BoxWire, Expr, LetDef, Numeric, Port, Stmt, TopDef, Type};
use rasynth::graph::{BuildError, Constant, FlowGraph};

fn s(x: &str) -> String {
    x.to_string()
}

fn op(name: &str, args: Vec<Expr>) -> Expr {
    Expr::Operator(s(name), args)
}

fn id(name: &str) -> Expr {
    Expr::NodeIdent(s(name))
}

fn int_lit(v: i32) -> Expr {
    Expr::Num(Numeric::Int32(v))
}

fn float_lit(v: f32) -> Expr {
    Expr::Num(Numeric::Float(v.to_bits()))
}

fn let_(name: &str, e: Expr) -> Stmt {
    Stmt::LetDef(LetDef::Let(s(name), e))
}

fn one_box(name: &str, ports: Vec<Port>, stmts: Vec<Stmt>) -> TopDef {
    TopDef::Boxes(vec![BoxDef::ModuleBox(s(name), ports, stmts)])
}

fn names(g: &FlowGraph) -> Vec<String> {
    g.get_nodes().iter().map(|n| n.name.clone()).collect()
}

fn index_of(g: &FlowGraph, name: &str) -> usize {
    g.nodes.iter().position(|n| n.name == name).expect("node present")
}

fn edge_list(g: &FlowGraph) -> Vec<(String, String, u64)> {
    g.edges
        .iter()
        .map(|e| (g.nodes[e.from].name.clone(), g.nodes[e.to].name.clone(), e.arg_no))
        .collect()
}

fn osc() -> TopDef {
    one_box(
        "osc",
        vec![Port::In(s("freq"), Type::Float), Port::Out(s("sig"), Type::Waveform)],
        vec![let_("sig", op("sine", vec![id("freq")]))],
    )
}

#[test]
fn oscillator_box_nodes_and_edges() {
    let g = FlowGraph::build(osc(), 7).expect("builds");
    assert_eq!(names(&g), vec![s("osc/freq"), s("osc/sig"), s("osc/sine@0")]);
    assert_eq!(
        edge_list(&g),
        vec![
            (s("osc/freq"), s("osc/sine@0"), 0),
            (s("osc/sine@0"), s("osc/sig"), 0),
        ]
    );
    assert_eq!(g.timestamp, 7);
    assert!(g.ast.is_some());
}

#[test]
fn edges_are_recorded_on_both_endpoints() {
    let g = FlowGraph::build(osc(), 0).expect("builds");
    let freq = index_of(&g, "osc/freq");
    let sine = index_of(&g, "osc/sine@0");
    let sig = index_of(&g, "osc/sig");
    assert_eq!(g.nodes[freq].outputs, vec![0]);
    assert_eq!(g.nodes[sine].inputs, vec![0]);
    assert_eq!(g.nodes[sine].outputs, vec![1]);
    assert_eq!(g.nodes[sig].inputs, vec![1]);
    for (k, e) in g.edges.iter().enumerate() {
        assert_eq!(e.id, k as u64);
    }
    assert_eq!(g.edge_id_counter, 2);
}

#[test]
fn equal_literals_share_one_constant_node() {
    let top = one_box(
        "m",
        vec![],
        vec![
            let_("a", op("+", vec![int_lit(1), int_lit(2)])),
            let_("b", op("+", vec![int_lit(1), int_lit(2)])),
        ],
    );
    let g = FlowGraph::build(top, 0).expect("builds");
    let c0 = index_of(&g, "m/const@0");
    let c1 = index_of(&g, "m/const@1");
    assert!(matches!(g.nodes[c0].const_data, Some(Constant::Int32(1))));
    assert!(matches!(g.nodes[c1].const_data, Some(Constant::Int32(2))));
    let edges = edge_list(&g);
    assert!(edges.contains(&(s("m/const@0"), s("m/+@0"), 0)));
    assert!(edges.contains(&(s("m/const@1"), s("m/+@0"), 1)));
    assert!(edges.contains(&(s("m/const@0"), s("m/+@1"), 0)));
    assert!(edges.contains(&(s("m/const@1"), s("m/+@1"), 1)));
    // the second pair of literals made const@2 and const@3, which stay unwired
    let c2 = index_of(&g, "m/const@2");
    let c3 = index_of(&g, "m/const@3");
    assert!(g.nodes[c2].outputs.is_empty());
    assert!(g.nodes[c3].outputs.is_empty());
    assert_eq!(g.nodes[c0].outputs.len(), 2);
}

#[test]
fn operator_arguments_keep_their_positions() {
    let top = one_box(
        "m",
        vec![
            Port::In(s("b"), Type::Int32),
            Port::In(s("a"), Type::Int32),
            Port::Out(s("y"), Type::Int32),
        ],
        vec![let_("y", op("-", vec![id("a"), op("*", vec![id("b"), int_lit(3)])]))],
    );
    let g = FlowGraph::build(top, 0).expect("builds");
    let minus = index_of(&g, "m/-@0");
    let into: Vec<(String, u64)> = g
        .edges
        .iter()
        .filter(|e| e.to == minus)
        .map(|e| (g.nodes[e.from].name.clone(), e.arg_no))
        .collect();
    assert_eq!(into, vec![(s("m/a"), 0), (s("m/*@0"), 1)]);
    let times = index_of(&g, "m/*@0");
    let into_times: Vec<(String, u64)> = g
        .edges
        .iter()
        .filter(|e| e.to == times)
        .map(|e| (g.nodes[e.from].name.clone(), e.arg_no))
        .collect();
    assert_eq!(into_times, vec![(s("m/b"), 0), (s("m/const@0"), 1)]);
}

#[test]
fn a_name_is_consumed_once() {
    let top = one_box(
        "m",
        vec![Port::In(s("x"), Type::Int32), Port::Out(s("y"), Type::Int32)],
        vec![let_("y", op("+", vec![id("x"), id("x")]))],
    );
    match FlowGraph::build(top, 0) {
        Err(BuildError::UnresolvedReference(n)) => assert_eq!(n, "m/x"),
        Ok(_) => panic!("a second use of x must not resolve"),
    }
}

#[test]
fn undeclared_identifier_becomes_its_own_node() {
    let top = one_box("m", vec![], vec![let_("y", id("nowhere"))]);
    let g = FlowGraph::build(top, 0).expect("builds");
    assert_eq!(names(&g), vec![s("m/nowhere"), s("m/y")]);
    assert_eq!(edge_list(&g), vec![(s("m/nowhere"), s("m/y"), 0)]);
}

#[test]
fn a_bound_name_is_consumed_by_its_binding() {
    let top = one_box(
        "m",
        vec![Port::In(s("x"), Type::Int32)],
        vec![let_("t", op("+", vec![id("x"), int_lit(4)])), let_("y", id("t"))],
    );
    match FlowGraph::build(top, 0) {
        Err(BuildError::UnresolvedReference(n)) => assert_eq!(n, "m/t"),
        Ok(_) => panic!("t was consumed as the destination of its own binding"),
    }
}

#[test]
fn nan_literal_finds_no_constant() {
    let top = one_box("m", vec![], vec![let_("y", float_lit(f32::NAN))]);
    let g = FlowGraph::build(top, 0);
    assert!(matches!(g, Err(BuildError::UnresolvedReference(ref n)) if n == "m/const"));
}

#[test]
fn float_zeros_compare_equal() {
    let top = one_box(
        "m",
        vec![],
        vec![let_("a", float_lit(0.0)), let_("b", float_lit(-0.0)), let_("c", float_lit(1.5))],
    );
    let g = FlowGraph::build(top, 0).expect("builds");
    let edges = edge_list(&g);
    assert!(edges.contains(&(s("m/const@0"), s("m/a"), 0)));
    assert!(edges.contains(&(s("m/const@0"), s("m/b"), 0)));
    assert!(edges.contains(&(s("m/const@2"), s("m/c"), 0)));
    let c2 = index_of(&g, "m/const@2");
    assert!(matches!(g.nodes[c2].const_data, Some(Constant::Float32(b)) if b == 1.5f32.to_bits()));
}

#[test]
fn builds_are_deterministic() {
    let make = || {
        one_box(
            "m",
            vec![Port::In(s("x"), Type::Int32), Port::Out(s("y"), Type::Int32)],
            vec![
                let_("t", op("+", vec![id("x"), int_lit(4)])),
                let_("y", op("+", vec![int_lit(4), op("*", vec![int_lit(2), float_lit(0.5)])])),
            ],
        )
    };
    let g1 = FlowGraph::build(make(), 1).expect("builds");
    let g2 = FlowGraph::build(make(), 2).expect("builds");
    assert_eq!(names(&g1), names(&g2));
    assert_eq!(edge_list(&g1), edge_list(&g2));
    let ids1: Vec<u64> = g1.nodes.iter().map(|n| n.id).collect();
    let ids2: Vec<u64> = g2.nodes.iter().map(|n| n.id).collect();
    assert_eq!(ids1, ids2);
}

#[test]
fn node_list_is_sorted_and_unique() {
    let top = TopDef::Boxes(vec![
        BoxDef::ModuleBox(
            s("b"),
            vec![Port::Out(s("o"), Type::Float)],
            vec![let_("o", op("mul", vec![float_lit(2.0), float_lit(3.0)]))],
        ),
        BoxDef::ModuleBox(
            s("a"),
            vec![Port::In(s("i"), Type::Float), Port::Out(s("o"), Type::Float)],
            vec![let_("o", id("i"))],
        ),
    ]);
    let g = FlowGraph::build(top, 0).expect("builds");
    let n = names(&g);
    let mut sorted = n.clone();
    sorted.sort();
    sorted.dedup();
    assert_eq!(n, sorted);
    assert_eq!(
        n,
        vec![s("a/i"), s("a/o"), s("b/const@0"), s("b/const@1"), s("b/mul@0"), s("b/o")]
    );
    assert_eq!(g.boxes.len(), 2);
    assert_eq!(g.boxes[0].name, "b");
}

#[test]
fn occurrence_indices_count_per_box_and_kind() {
    let top = TopDef::Boxes(vec![
        BoxDef::ModuleBox(
            s("p"),
            vec![],
            vec![
                let_("u", op("f", vec![op("g", vec![int_lit(1)]), op("f", vec![int_lit(2)])])),
                let_("v", op("g", vec![int_lit(3)])),
            ],
        ),
        BoxDef::ModuleBox(s("q"), vec![], vec![let_("w", op("f", vec![int_lit(1)]))]),
    ]);
    let g = FlowGraph::build(top, 0).expect("builds");
    let n = names(&g);
    for want in [
        "p/f@0", "p/f@1", "p/g@0", "p/g@1", "p/const@0", "p/const@1", "p/const@2", "q/f@0",
        "q/const@0",
    ] {
        assert!(n.contains(&s(want)), "missing {}", want);
    }
    let edges = edge_list(&g);
    assert!(edges.contains(&(s("p/g@0"), s("p/f@0"), 0)));
    assert!(edges.contains(&(s("p/f@1"), s("p/f@0"), 1)));
    assert!(edges.contains(&(s("p/g@1"), s("p/v"), 0)));
    assert!(edges.contains(&(s("q/f@0"), s("q/w"), 0)));
}

#[test]
fn wire_statements_make_a_node_only() {
    let top = one_box(
        "m",
        vec![Port::In(s("x"), Type::Int32)],
        vec![Stmt::BoxWire(BoxWire::Boxw(s("inst"), vec![op("h", vec![id("x")])]))],
    );
    let g = FlowGraph::build(top, 0).expect("builds");
    assert_eq!(names(&g), vec![s("m/inst"), s("m/x")]);
    assert!(g.edges.is_empty());
}

#[test]
fn empty_program_builds_empty_graph() {
    let g = FlowGraph::build(TopDef::Boxes(vec![]), 0).expect("builds");
    assert!(g.nodes.is_empty());
    assert!(g.edges.is_empty());
    assert_eq!(g.generate().len(), 0);
}

#[test]
fn staged_build_matches_one_call_build() {
    let mut g = FlowGraph::new(None, 0);
    let TopDef::Boxes(bs) = osc();
    g.node_create(&bs).expect("builds");
    let h = FlowGraph::build(osc(), 0).expect("builds");
    assert_eq!(names(&g), names(&h));
    assert_eq!(edge_list(&g), edge_list(&h));
    assert_eq!(g.node_id_counter, 5);
}

#[test]
fn pop_node_by_name_skips_consumed_nodes() {
    let mut g = FlowGraph::new(None, 0);
    let top = one_box("m", vec![], vec![let_("a", op("+", vec![int_lit(1)])), let_("b", op("+", vec![int_lit(1)]))]);
    let TopDef::Boxes(bs) = top;
    g.node_create(&bs).expect("builds");
    // the build consumed both operator nodes and both bindings
    assert!(g.popped_nodes.iter().filter(|p| **p).count() == 4);
    match g.pop_node_by_name(&s("m/+")) {
        Err(BuildError::UnresolvedReference(n)) => assert_eq!(n, "m/+"),
        Ok(_) => panic!("both + nodes are consumed"),
    }
}

#[test]
fn new_node_qualifies_names() {
    let mut g = FlowGraph::new(None, 0);
    g.new_node("freq", "osc");
    g.new_node("sig", "osc");
    assert_eq!(names(&g), vec![s("osc/freq"), s("osc/sig")]);
    assert_eq!(g.nodes[1].id, 1);
    assert_eq!(g.nodes[1].parent_box.name, "osc");
    assert_eq!(g.node_id_counter, 2);
}

#[test]
fn type_keywords() {
    assert_eq!(Type::from_str("i32"), Some(Type::Int32));
    assert_eq!(Type::from_str("float"), Some(Type::Float));
    assert_eq!(Type::from_str("waveform"), Some(Type::Waveform));
    assert_eq!(Type::from_str("wave"), None);
    assert_eq!(Type::from_str(""), None);
}

#[test]
fn dot_export_labels_and_edges() {
    let top = one_box(
        "m",
        vec![Port::Out(s("y"), Type::Int32)],
        vec![let_("y", op("neg", vec![int_lit(5)]))],
    );
    let g = FlowGraph::build(top, 0).expect("builds");
    let values: Vec<String> = g
        .nodes
        .iter()
        .map(|n| match &n.const_data {
            Some(Constant::Int32(v)) => format!("Int32({})", v),
            _ => String::new(),
        })
        .collect();
    let text = g.dump_dot(&values);
    assert!(text.starts_with("digraph {"));
    assert!(text.contains("m/const@0\\lInt32(5)"));
    assert!(text.contains("m/neg@0"));
    // nodes are sorted: const@0 is 0, neg@0 is 1, y is 2
    assert!(text.contains("0 -> 1 [ label = \"0\" ]"));
    assert!(text.contains("1 -> 2 [ label = \"0\" ]"));
}

fn chain(name: &str, depth: usize) -> Expr {
    // (name (name (... (name 0))))
    let mut e = int_lit(0);
    for _ in 0..depth {
        e = op(name, vec![e]);
    }
    e
}

#[test]
fn kth_resolution_takes_kth_occurrence() {
    let top = one_box(
        "m",
        vec![],
        vec![
            let_("a", chain("inc", 3)),
            let_("b", op("inc", vec![op("dec", vec![int_lit(1)])])),
        ],
    );
    let g = FlowGraph::build(top, 0).expect("builds");
    let edges = edge_list(&g);
    // creation order: a's chain is inc@0(inc@1(inc@2(0))), then b's inc@3(dec@0(1))
    assert!(edges.contains(&(s("m/inc@0"), s("m/a"), 0)));
    assert!(edges.contains(&(s("m/inc@1"), s("m/inc@0"), 0)));
    assert!(edges.contains(&(s("m/inc@2"), s("m/inc@1"), 0)));
    assert!(edges.contains(&(s("m/const@0"), s("m/inc@2"), 0)));
    assert!(edges.contains(&(s("m/inc@3"), s("m/b"), 0)));
    assert!(edges.contains(&(s("m/dec@0"), s("m/inc@3"), 0)));
    assert!(edges.contains(&(s("m/const@1"), s("m/dec@0"), 0)));
}

#[test]
fn eleventh_occurrence_keeps_index_order() {
    let top = one_box("m", vec![], vec![let_("a", chain("f", 11))]);
    let g = FlowGraph::build(top, 0).expect("builds");
    let edges = edge_list(&g);
    // the node list is sorted by name (f@0, f@1, f@10, f@2, ...), yet the
    // k-th resolution of f takes f@k
    assert!(edges.contains(&(s("m/f@0"), s("m/a"), 0)));
    for k in 1..11 {
        let from = format!("m/f@{}", k);
        let to = format!("m/f@{}", k - 1);
        assert!(edges.contains(&(from, to, 0)), "f@{} feeds f@{}", k, k - 1);
    }
    assert!(edges.contains(&(s("m/const@0"), s("m/f@10"), 0)));
    assert_eq!(g.edges.len(), 12);
}

#[test]
fn repeated_resolution_takes_occurrences_in_index_order() {
    let mut g = FlowGraph::new(None, 0);
    for local in ["p@3", "p@10", "p@0", "p@2", "p@1"] {
        g.new_node(local, "m");
    }
    assert_eq!(g.popped_nodes.len(), 5);
    let want = ["m/p@0", "m/p@1", "m/p@2", "m/p@3", "m/p@10"];
    for w in want {
        let i = g.pop_node_by_name(&s("m/p")).expect("resolves");
        assert_eq!(g.nodes[i].name, w);
    }
    match g.pop_node_by_name(&s("m/p")) {
        Err(BuildError::UnresolvedReference(n)) => assert_eq!(n, "m/p"),
        Ok(_) => panic!("all occurrences are consumed"),
    }
    assert!(g.popped_nodes.iter().all(|p| *p));
}

#[test]
fn nested_failure_names_the_unresolved_reference() {
    let top = one_box(
        "m",
        vec![Port::In(s("z"), Type::Int32)],
        vec![let_("y", op("+", vec![int_lit(1), op("f", vec![id("z"), id("z")])]))],
    );
    match FlowGraph::build(top, 0) {
        Err(BuildError::UnresolvedReference(n)) => assert_eq!(n, "m/z"),
        Ok(_) => panic!("z is used twice"),
    }
}

#[test]
fn inputs_and_outputs_are_the_incident_edges() {
    let top = one_box(
        "m",
        vec![Port::In(s("x"), Type::Int32), Port::Out(s("y"), Type::Int32)],
        vec![let_("y", op("+", vec![id("x"), int_lit(2)]))],
    );
    let g = FlowGraph::build(top, 0).expect("builds");
    for (i, n) in g.nodes.iter().enumerate() {
        let ins: Vec<usize> = (0..g.edges.len()).filter(|k| g.edges[*k].to == i).collect();
        let outs: Vec<usize> = (0..g.edges.len()).filter(|k| g.edges[*k].from == i).collect();
        assert_eq!(n.inputs, ins);
        assert_eq!(n.outputs, outs);
    }
}

#[test]
fn dot_export_links_prefix_names_to_their_own_nodes() {
    let top = one_box(
        "m",
        vec![
            Port::In(s("x"), Type::Int32),
            Port::In(s("x1"), Type::Int32),
            Port::Out(s("y"), Type::Int32),
        ],
        vec![let_("y", op("+", vec![id("x"), id("x1")]))],
    );
    let g = FlowGraph::build(top, 0).expect("builds");
    assert_eq!(names(&g), vec![s("m/+@0"), s("m/x"), s("m/x1"), s("m/y")]);
    let values = vec![String::new(); g.nodes.len()];
    let text = g.dump_dot(&values);
    assert!(text.contains("1 -> 0 [ label = \"0\" ]"));
    assert!(text.contains("2 -> 0 [ label = \"1\" ]"));
    assert!(text.contains("0 -> 3 [ label = \"0\" ]"));
    assert!(!text.contains("1 -> 0 [ label = \"1\" ]"));
}

#[test]
fn whole_build_edge_sources_and_positions() {
    let top = TopDef::Boxes(vec![
        BoxDef::ModuleBox(
            s("p"),
            vec![Port::In(s("x"), Type::Int32), Port::In(s("w"), Type::Int32), Port::Out(s("y"), Type::Int32)],
            vec![
                let_("t", op("mix", vec![id("x"), int_lit(3), op("mix", vec![int_lit(3), id("w"), int_lit(5)])])),
                let_("y", op("mix", vec![int_lit(5), int_lit(3)])),
            ],
        ),
        BoxDef::ModuleBox(s("q"), vec![], vec![let_("z", op("neg", vec![float_lit(2.5)]))]),
    ]);
    let g = FlowGraph::build(top, 0).expect("builds");
    for (i, n) in g.nodes.iter().enumerate() {
        let from_here = g.edges.iter().filter(|e| e.from == i).count();
        if n.const_data.is_none() {
            assert!(from_here <= 1, "{} starts {} edges", n.name, from_here);
            if from_here == 1 {
                assert!(g.popped_nodes[i]);
            }
        }
        let into: Vec<u64> = g.edges.iter().filter(|e| e.to == i).map(|e| e.arg_no).collect();
        let want: Vec<u64> = (0..into.len() as u64).collect();
        assert_eq!(into, want, "positions into {}", n.name);
    }
    let c3 = index_of(&g, "p/const@0");
    assert!(g.edges.iter().filter(|e| e.from == c3).count() >= 2);
}
