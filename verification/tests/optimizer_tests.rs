//! End-to-end optimizer scenarios: compilation, endpoint handling,
//! saturation budgets, extraction determinism, and the evaluation bridge.

use rpq::CompileError;
use rpq::EGraph;
use rpq::CostModel;
use rpq::EvalError;
use rpq::Extractor;
use rpq::Graph;
use rpq::LabelMeta;
use rpq::MatrixRef;
use rpq::Plan;
use rpq::PlanExpr;
use rpq::Query;
use rpq::RpqMatrixOp;
use rpq::RunLimits;
use rpq::SelectivityCostFn;
use rpq::StopReason;
use rpq::cost::log2_fp;
use rpq::graph::matrix_entry_count;
use rpq::graph::parse_index_line;
use rpq::graph::parse_vertex_line;
use rpq::make_rules;
use rpq::matrix_plan;
use rpq::run_rules;

fn test_graph() -> Graph {
    Graph::new(
        vec![("a".to_string(), 10), ("b".to_string(), 4)],
        vec![("X".to_string(), 1), ("Y".to_string(), 2)],
    )
}

/// Renders a plan as an s-expression for structural comparisons.
fn sexpr_at(e: &PlanExpr, idx: usize) -> String {
    match &e.nodes[idx] {
        Plan::Label(m) => format!("\"({}, {})\"", m.name, m.nvals),
        Plan::Cat(a, b) => format!("(/ {} {})", sexpr_at(e, *a), sexpr_at(e, *b)),
        Plan::Alt(a, b) => format!("(| {} {})", sexpr_at(e, *a), sexpr_at(e, *b)),
        Plan::Star(a) => format!("(* {})", sexpr_at(e, *a)),
        Plan::LStar(a, b) => format!("(l* {} {})", sexpr_at(e, *a), sexpr_at(e, *b)),
        Plan::RStar(a, b) => format!("(*r {} {})", sexpr_at(e, *a), sexpr_at(e, *b)),
    }
}

fn sexpr(e: &PlanExpr) -> String {
    sexpr_at(e, e.nodes.len() - 1)
}

#[test]
fn compile_wraps_bound_source_in_a_selector() {
    let g = test_graph();
    let q: Query = "<X> <a> ?y".parse().unwrap();
    let plan = g.run(&q).unwrap();
    assert_eq!("(/ \"(X, 1)\" \"(a, 10)\")", sexpr(&plan));
}

#[test]
fn compile_wraps_bound_destination_in_a_selector() {
    let g = test_graph();
    let q: Query = "?x <a> <X>".parse().unwrap();
    let plan = g.run(&q).unwrap();
    assert_eq!("(/ \"(a, 10)\" \"(X, 1)\")", sexpr(&plan));
}

#[test]
fn compile_rejects_bound_to_bound_queries() {
    let g = test_graph();
    let q: Query = "<1> <a> <2>".parse().unwrap();
    match g.run(&q) {
        Err(CompileError::Unsupported) => {}
        other => panic!("expected Unsupported, got {:?}", other.map(|p| sexpr(&p))),
    }
}

#[test]
fn compile_rejects_optional_segments() {
    let g = test_graph();
    let q: Query = "?x <a>? ?y".parse().unwrap();
    match g.run(&q) {
        Err(CompileError::Unsupported) => {}
        other => panic!("expected Unsupported, got {:?}", other.map(|p| sexpr(&p))),
    }
}

#[test]
fn compile_reports_the_unknown_label() {
    let g = test_graph();
    let q: Query = "?x <zzz> ?y".parse().unwrap();
    match g.run(&q) {
        Err(CompileError::UnknownLabel(name)) => assert_eq!("zzz", name),
        other => panic!("expected UnknownLabel, got {:?}", other.map(|p| sexpr(&p))),
    }
}

#[test]
fn plus_compiles_like_its_desugaring() {
    let g = test_graph();
    let plus: Query = "?x <a>+ ?y".parse().unwrap();
    let sugar = g.run(&plus).unwrap();
    assert_eq!("(/ \"(a, 10)\" (* \"(a, 10)\"))", sexpr(&sugar));
    // both forms land in one class of a fresh e-graph (hash-consing)
    let mut e = PlanExpr::new();
    let x = e.add(Plan::Label(LabelMeta { name: "a".to_string(), nvals: 10 }));
    let s = e.add(Plan::Star(x));
    e.add(Plan::Cat(x, s));
    let report = run_rules(&e, &make_rules(), &RunLimits::default());
    let mut eg = report.egraph;
    let x2 = eg.add(Plan::Label(LabelMeta { name: "a".to_string(), nvals: 10 }));
    let s2 = eg.add(Plan::Star(x2));
    let both = eg.add(Plan::Cat(x2, s2));
    assert_eq!(eg.find(both), eg.find(report.root));
}

#[test]
fn end_to_end_seq_picks_the_cheaper_branch() {
    // labels {"a": 10 edges, "b": 4 edges}; best root cost is min(10,4)^1.1
    let g = test_graph();
    let q: Query = "?x <a>/<b> ?y".parse().unwrap();
    let plan = g.run(&q).unwrap();
    assert_eq!("(/ \"(a, 10)\" \"(b, 4)\")", sexpr(&plan));
    let report = run_rules(&plan, &make_rules(), &RunLimits::default());
    let ext = Extractor::new(&report.egraph, CostModel::Selectivity);
    let (cost, best) = ext.find_best(&report.egraph, report.root).unwrap();
    assert_eq!("(/ \"(a, 10)\" \"(b, 4)\")", sexpr(&best));
    let f = SelectivityCostFn;
    let expected = f.cost(&Plan::Cat(0, 1), log2_fp(10), log2_fp(4));
    assert_eq!(expected, cost);
    // the cost value is, in fixed-point log space, 4^1.1
    let as_real = ((cost as f64) / 65536.0).exp2();
    assert!((as_real - 4f64.powf(1.1)).abs() < 0.001, "cost was {}", as_real);
}

#[test]
fn node_budget_of_one_keeps_the_input_extractable() {
    let g = test_graph();
    let q: Query = "?x <a>/<b> ?y".parse().unwrap();
    let plan = g.run(&q).unwrap();
    let limits = RunLimits { iter_limit: 30, node_limit: 1 };
    let report = run_rules(&plan, &make_rules(), &limits);
    assert!(matches!(report.stop, StopReason::NodeLimit));
    let ext = Extractor::new(&report.egraph, CostModel::Selectivity);
    let (cost, best) = ext.find_best(&report.egraph, report.root).unwrap();
    assert_eq!(sexpr(&plan), sexpr(&best));
    let f = SelectivityCostFn;
    assert_eq!(f.cost(&Plan::Cat(0, 1), log2_fp(10), log2_fp(4)), cost);
}

#[test]
fn saturation_is_idempotent_across_budgets() {
    // once a pass finds nothing new, more iterations change nothing
    let g = test_graph();
    let q: Query = "?x (<a>|<b>)/<a> ?y".parse().unwrap();
    let plan = g.run(&q).unwrap();
    let small = run_rules(&plan, &make_rules(), &RunLimits { iter_limit: 8, node_limit: 10000 });
    let large = run_rules(&plan, &make_rules(), &RunLimits { iter_limit: 30, node_limit: 10000 });
    assert!(matches!(small.stop, StopReason::Saturated));
    assert!(matches!(large.stop, StopReason::Saturated));
    assert_eq!(small.iterations, large.iterations);
    assert_eq!(small.egraph.num_nodes(), large.egraph.num_nodes());
    assert_eq!(small.egraph.num_classes(), large.egraph.num_classes());
}

#[test]
fn extraction_is_deterministic() {
    let g = test_graph();
    let q: Query = "?x (<a>|<b>)/(<b>)* ?y".parse().unwrap();
    let plan = g.run(&q).unwrap();
    let report = run_rules(&plan, &make_rules(), &RunLimits::default());
    let ext1 = Extractor::new(&report.egraph, CostModel::Selectivity);
    let (c1, b1) = ext1.find_best(&report.egraph, report.root).unwrap();
    let ext2 = Extractor::new(&report.egraph, CostModel::Selectivity);
    let (c2, b2) = ext2.find_best(&report.egraph, report.root).unwrap();
    assert_eq!(c1, c2);
    assert_eq!(sexpr(&b1), sexpr(&b2));
}

#[test]
fn star_fusion_is_applied_by_saturation() {
    // a/(b*) gains the fused form in its class
    let mut e = PlanExpr::new();
    let a = e.add(Plan::Label(LabelMeta { name: "a".to_string(), nvals: 10 }));
    let b = e.add(Plan::Label(LabelMeta { name: "b".to_string(), nvals: 4 }));
    let s = e.add(Plan::Star(b));
    e.add(Plan::Cat(a, s));
    let report = run_rules(&e, &make_rules(), &RunLimits::default());
    let mut eg = report.egraph;
    let a2 = eg.add(Plan::Label(LabelMeta { name: "a".to_string(), nvals: 10 }));
    let b2 = eg.add(Plan::Label(LabelMeta { name: "b".to_string(), nvals: 4 }));
    let fused = eg.add(Plan::RStar(a2, b2));
    assert_eq!(eg.find(fused), eg.find(report.root));
}

#[test]
fn random_extraction_yields_an_equivalent_plan() {
    let g = test_graph();
    let q: Query = "?x <a>/<b>/<a> ?y".parse().unwrap();
    let plan = g.run(&q).unwrap();
    let report = run_rules(&plan, &make_rules(), &RunLimits::default());
    let ext = Extractor::new(&report.egraph, CostModel::Random);
    let (_, best) = ext.find_best(&report.egraph, report.root).unwrap();
    // whatever was sampled sits in the class of the input plan
    let mut eg = report.egraph;
    let mut ids: Vec<usize> = Vec::new();
    for node in &best.nodes {
        let planted = match node {
            Plan::Label(m) => {
                eg.add(Plan::Label(LabelMeta { name: m.name.clone(), nvals: m.nvals }))
            }
            Plan::Cat(a, b) => eg.add(Plan::Cat(ids[*a], ids[*b])),
            Plan::Alt(a, b) => eg.add(Plan::Alt(ids[*a], ids[*b])),
            Plan::Star(a) => eg.add(Plan::Star(ids[*a])),
            Plan::LStar(a, b) => eg.add(Plan::LStar(ids[*a], ids[*b])),
            Plan::RStar(a, b) => eg.add(Plan::RStar(ids[*a], ids[*b])),
        };
        ids.push(planted);
    }
    assert_eq!(eg.find(*ids.last().unwrap()), eg.find(report.root));
}

#[test]
fn matrix_plan_preserves_structure_and_resolves_labels() {
    let g = test_graph();
    let q: Query = "<X> <a>/<b>* ?y".parse().unwrap();
    let plan = g.run(&q).unwrap();
    let recs = matrix_plan(&g, &plan).unwrap();
    assert_eq!(plan.nodes.len(), recs.len());
    // the selector label resolves through the vertex table, zero-based
    let mut saw_selector = false;
    let mut saw_edge_a = false;
    for (node, rec) in plan.nodes.iter().zip(recs.iter()) {
        match node {
            Plan::Label(m) => {
                assert!(matches!(rec.op, RpqMatrixOp::Label));
                assert!(rec.lhs.is_none() && rec.rhs.is_none());
                match (&rec.mat, m.name.as_str()) {
                    (MatrixRef::Edge(n), "a") | (MatrixRef::Edge(n), "b") => {
                        assert_eq!(*n, m.name);
                        if n == "a" {
                            saw_edge_a = true;
                        }
                    }
                    (MatrixRef::Selector { index, dim }, "X") => {
                        assert_eq!(0, *index);
                        assert_eq!(2, *dim);
                        saw_selector = true;
                    }
                    other => panic!("unexpected resolution {:?}", other),
                }
            }
            Plan::Cat(a, b) => {
                assert!(matches!(rec.op, RpqMatrixOp::Concat));
                assert_eq!(Some(*a), rec.lhs);
                assert_eq!(Some(*b), rec.rhs);
            }
            Plan::Star(a) => {
                // the engine takes a star's operand on the right-hand side
                assert!(matches!(rec.op, RpqMatrixOp::Kleene));
                assert_eq!(None, rec.lhs);
                assert_eq!(Some(*a), rec.rhs);
            }
            _ => {}
        }
    }
    assert!(saw_selector && saw_edge_a);
}

#[test]
fn matrix_plan_rejects_unresolvable_labels() {
    let g = test_graph();
    let mut e = PlanExpr::new();
    e.add(Plan::Label(LabelMeta { name: "nope".to_string(), nvals: 1 }));
    match matrix_plan(&g, &e) {
        Err(EvalError::UnknownLabel(name)) => assert_eq!("nope", name),
        Ok(_) => panic!("expected UnknownLabel"),
    }
}

#[test]
fn log_costs_match_the_intended_power_laws() {
    assert_eq!(0, log2_fp(0));
    assert_eq!(0, log2_fp(1));
    assert_eq!(2 * 65536, log2_fp(4));
    assert_eq!(10 * 65536, log2_fp(1024));
    // within one tick of the real logarithm
    let approx = log2_fp(10) as f64;
    assert!((approx - (10f64).log2() * 65536.0).abs() <= 1.0);
    // seq cost is bounded by the 1.1-power of the larger branch
    let f = SelectivityCostFn;
    let ca = log2_fp(1000);
    let cb = log2_fp(7);
    let seq = f.cost(&Plan::Cat(0, 1), ca, cb);
    assert_eq!(11 * cb / 10, seq);
    assert!(seq <= 11 * ca / 10);
    // star squares, fusion multiplies
    assert_eq!(2 * cb, f.cost(&Plan::Star(0), cb, 0));
    assert_eq!(ca + cb, f.cost(&Plan::LStar(0, 1), ca, cb));
}

#[test]
fn loader_lines_parse_exactly() {
    assert_eq!(Some((3, "knows".to_string())), parse_index_line("<knows> 3"));
    assert_eq!(Some(("Article1659".to_string(), 12)), parse_vertex_line("<Article1659> 12"));
    assert_eq!(None, parse_index_line("<knows>"));
    assert_eq!(None, parse_index_line("x 3"));
    assert_eq!(None, parse_index_line("<knows> many"));
    assert_eq!(
        Some(42),
        matrix_entry_count("%%MatrixMarket matrix coordinate\n% comment\n5 5 42\n1 2\n")
    );
    assert_eq!(None, matrix_entry_count("one line only"));
    assert_eq!(None, matrix_entry_count("a\nb\n5 5 notanumber\n"));
}

#[test]
fn congruence_propagates_to_parents() {
    // two distinct labels, each under a star; merging the labels must merge
    // the stars once congruence is rebuilt
    let mut g = EGraph::new();
    let a = g.add(Plan::Label(LabelMeta { name: "a".to_string(), nvals: 2 }));
    let b = g.add(Plan::Label(LabelMeta { name: "b".to_string(), nvals: 3 }));
    let sa = g.add(Plan::Star(a));
    let sb = g.add(Plan::Star(b));
    assert_ne!(g.find(sa), g.find(sb));
    assert!(g.union(a, b));
    g.rebuild();
    assert_eq!(g.find(a), g.find(b));
    assert_eq!(g.find(sa), g.find(sb));
    // adding an equal node is hash-consed into the same class
    let again = g.add(Plan::Star(a));
    assert_eq!(g.find(again), g.find(sa));
}
