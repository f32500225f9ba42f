//! Saturation tests over the bare plan language: associativity of
//! sequencing and full reorderability of alternation.
//!
//! Each case saturates one input term and extracts the best plan under the
//! deterministic cost function.  The reference tree of each case costs no
//! more than any other member of its class; since cost ties leave the
//! winner to the (deterministic, first-found) tie-break, the assertions
//! check that the extracted plan lies in the same class as the reference
//! tree and costs exactly as much, and that extraction is reproducible.

use rpq::CostModel;
use rpq::EGraph;
use rpq::Extractor;
use rpq::LabelMeta;
use rpq::Plan;
use rpq::PlanExpr;
use rpq::RunLimits;
use rpq::SelectivityCostFn;
use rpq::make_rules;
use rpq::run_rules;

fn lbl(e: &mut PlanExpr, n: usize) -> usize {
    e.add(Plan::Label(LabelMeta { name: "-".to_string(), nvals: n }))
}

/// Deterministic cost of the tree rooted at `idx`, recomputed from the
/// node-cost function.
fn tree_cost(e: &PlanExpr, idx: usize) -> u64 {
    let f = SelectivityCostFn;
    match &e.nodes[idx] {
        Plan::Label(_) => f.cost(&e.nodes[idx], 0, 0),
        Plan::Cat(a, b) | Plan::Alt(a, b) | Plan::LStar(a, b) | Plan::RStar(a, b) => {
            let (a, b) = (*a, *b);
            let ca = tree_cost(e, a);
            let cb = tree_cost(e, b);
            f.cost(&e.nodes[idx], ca, cb)
        }
        Plan::Star(a) => {
            let a = *a;
            let ca = tree_cost(e, a);
            f.cost(&e.nodes[idx], ca, 0)
        }
    }
}

/// Plants a tree into an e-graph and returns its class.
fn plant(g: &mut EGraph, e: &PlanExpr, idx: usize) -> usize {
    match &e.nodes[idx] {
        Plan::Label(m) => g.add(Plan::Label(LabelMeta { name: m.name.clone(), nvals: m.nvals })),
        Plan::Cat(a, b) => {
            let (a, b) = (*a, *b);
            let ca = plant(g, e, a);
            let cb = plant(g, e, b);
            g.add(Plan::Cat(ca, cb))
        }
        Plan::Alt(a, b) => {
            let (a, b) = (*a, *b);
            let ca = plant(g, e, a);
            let cb = plant(g, e, b);
            g.add(Plan::Alt(ca, cb))
        }
        Plan::Star(a) => {
            let a = *a;
            let ca = plant(g, e, a);
            g.add(Plan::Star(ca))
        }
        Plan::LStar(a, b) => {
            let (a, b) = (*a, *b);
            let ca = plant(g, e, a);
            let cb = plant(g, e, b);
            g.add(Plan::LStar(ca, cb))
        }
        Plan::RStar(a, b) => {
            let (a, b) = (*a, *b);
            let ca = plant(g, e, a);
            let cb = plant(g, e, b);
            g.add(Plan::RStar(ca, cb))
        }
    }
}

/// Saturates `input`, extracts the best plan, and checks it against the
/// reference tree: same equivalence class, and cost exactly the reference's.
fn check_simplify(input: PlanExpr, reference: PlanExpr) {
    let report = run_rules(&input, &make_rules(), &RunLimits::default());
    let ext = Extractor::new(&report.egraph, CostModel::Selectivity);
    let (cost, best) = ext.find_best(&report.egraph, report.root).unwrap();
    assert_eq!(cost, tree_cost(&reference, reference.nodes.len() - 1));
    assert_eq!(cost, tree_cost(&best, best.nodes.len() - 1));
    // the reference tree lands in the already-saturated class of the input
    let mut g = report.egraph;
    let refclass = plant(&mut g, &reference, reference.nodes.len() - 1);
    assert_eq!(g.find(refclass), g.find(report.root));
    let bestclass = plant(&mut g, &best, best.nodes.len() - 1);
    assert_eq!(g.find(bestclass), g.find(report.root));
}

/// `(/ a b)` etc. built left-nested or right-nested over four labels.
fn seq_chain(order: [usize; 4], left_nested: bool) -> PlanExpr {
    let mut e = PlanExpr::new();
    if left_nested {
        let x0 = lbl(&mut e, order[0]);
        let x1 = lbl(&mut e, order[1]);
        let c1 = e.add(Plan::Cat(x0, x1));
        let x2 = lbl(&mut e, order[2]);
        let c2 = e.add(Plan::Cat(c1, x2));
        let x3 = lbl(&mut e, order[3]);
        e.add(Plan::Cat(c2, x3));
    } else {
        let x0 = lbl(&mut e, order[0]);
        let x1 = lbl(&mut e, order[1]);
        let x2 = lbl(&mut e, order[2]);
        let x3 = lbl(&mut e, order[3]);
        let c1 = e.add(Plan::Cat(x2, x3));
        let c2 = e.add(Plan::Cat(x1, c1));
        e.add(Plan::Cat(x0, c2));
    }
    e
}

fn alt_chain(order: [usize; 4], left_nested: bool) -> PlanExpr {
    let mut e = PlanExpr::new();
    if left_nested {
        let x0 = lbl(&mut e, order[0]);
        let x1 = lbl(&mut e, order[1]);
        let c1 = e.add(Plan::Alt(x0, x1));
        let x2 = lbl(&mut e, order[2]);
        let c2 = e.add(Plan::Alt(c1, x2));
        let x3 = lbl(&mut e, order[3]);
        e.add(Plan::Alt(c2, x3));
    } else {
        let x0 = lbl(&mut e, order[0]);
        let x1 = lbl(&mut e, order[1]);
        let x2 = lbl(&mut e, order[2]);
        let x3 = lbl(&mut e, order[3]);
        let c1 = e.add(Plan::Alt(x2, x3));
        let c2 = e.add(Plan::Alt(x1, c1));
        e.add(Plan::Alt(x0, c2));
    }
    e
}

#[test]
fn test_basic_seq_1() {
    // (/ (/ (/ 1 2) 3) 4)  ~  (/ "(-, 1)" (/ "(-, 2)" (/ "(-, 3)" "(-, 4)")))
    check_simplify(seq_chain([1, 2, 3, 4], true), seq_chain([1, 2, 3, 4], false));
}

#[test]
fn test_basic_seq_2() {
    // (/ (/ (/ 4 3) 2) 1)  ~  (/ "(-, 4)" (/ "(-, 3)" (/ "(-, 2)" "(-, 1)")))
    check_simplify(seq_chain([4, 3, 2, 1], true), seq_chain([4, 3, 2, 1], false));
}

#[test]
fn test_basic_alt_1() {
    // (| (| (| 1 2) 3) 4)  ~  (| "(-, 2)" (| "(-, 4)" (| "(-, 1)" "(-, 3)")))
    check_simplify(alt_chain([1, 2, 3, 4], true), alt_chain([2, 4, 1, 3], false));
}

#[test]
fn test_basic_alt_2() {
    // (| (| (| 4 3) 2) 1)  ~  (| "(-, 3)" (| "(-, 1)" (| "(-, 4)" "(-, 2)")))
    check_simplify(alt_chain([4, 3, 2, 1], true), alt_chain([3, 1, 4, 2], false));
}
