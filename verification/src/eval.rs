//! Shaping an extracted plan for the sparse-matrix evaluation engine.
//!
//! The engine consumes a table of operation records, one per plan node,
//! each naming its operation and the records of its operands; the last
//! record is the root.  This translation owns no algebraic logic: its whole
//! obligation is to preserve the tree structure and the label references of
//! the extracted plan exactly, which is what its contract states.  A label
//! resolves to the stored matrix of an edge label, or, for a constant-vertex
//! selector, to a synthesized one-hot selector over the vertex table.

use vstd::prelude::*;
use crate::graph::Graph;
use crate::graph::table_view;
use crate::graph::table_get;
use crate::plan::Plan;
use crate::plan::PlanExpr;
use crate::plan::PlanV;

verus! {

/// The operation of one evaluation record.
#[derive(Clone, Copy, Debug, PartialEq, Eq, Structural)]
pub enum RpqMatrixOp {
    /// A stored or synthesized matrix.
    Label,
    /// Element-wise OR (alternation).
    Lor,
    /// Boolean matrix product (sequential composition).
    Concat,
    /// Reflexive-transitive closure (star).
    Kleene,
    /// Fused closure-then-product.
    KleeneL,
    /// Fused product-then-closure.
    KleeneR,
}

/// Which matrix a `Label` record evaluates: none for inner operations, a
/// stored edge-label matrix, or a one-hot selector of the given zero-based
/// row in a square matrix of the given dimension.
#[derive(Clone, Debug)]
pub enum MatrixRef {
    Unused,
    Edge(String),
    Selector { index: usize, dim: usize },
}

pub enum MatrixRefV {
    Unused,
    Edge(Seq<char>),
    Selector(int, int),
}

impl View for MatrixRef {
    type V = MatrixRefV;

    open spec fn view(&self) -> MatrixRefV {
        match self {
            MatrixRef::Unused => MatrixRefV::Unused,
            MatrixRef::Edge(s) => MatrixRefV::Edge(s@),
            MatrixRef::Selector { index, dim } => MatrixRefV::Selector(*index as int, *dim as int),
        }
    }
}

/// One record of the evaluation engine's plan table.  Operand references
/// are indices into the same table; `Star` records carry their operand on
/// the right-hand side, as the engine expects.
#[derive(Clone, Debug)]
pub struct RpqMatrixPlan {
    pub op: RpqMatrixOp,
    pub lhs: Option<usize>,
    pub rhs: Option<usize>,
    pub mat: MatrixRef,
}

pub struct RpqMatrixPlanV {
    pub op: RpqMatrixOp,
    pub lhs: Option<int>,
    pub rhs: Option<int>,
    pub mat: MatrixRefV,
}

impl View for RpqMatrixPlan {
    type V = RpqMatrixPlanV;

    open spec fn view(&self) -> RpqMatrixPlanV {
        RpqMatrixPlanV {
            op: self.op,
            lhs: match self.lhs {
                Some(i) => Some(i as int),
                None => None,
            },
            rhs: match self.rhs {
                Some(i) => Some(i as int),
                None => None,
            },
            mat: self.mat@,
        }
    }
}

/// The evaluation engine reported failure for a plan.
#[derive(Debug)]
pub enum EvalError {
    /// A plan label names neither a stored matrix nor a vertex with a
    /// positive index.
    UnknownLabel(String),
}

/// How a label name resolves: stored edge matrices win, then named
/// vertices become zero-based selectors.
pub open spec fn spec_resolve(
    name: Seq<char>,
    nvals: Map<Seq<char>, nat>,
    verts: Map<Seq<char>, nat>,
    dim: int,
) -> Option<MatrixRefV> {
    if nvals.contains_key(name) {
        Some(MatrixRefV::Edge(name))
    } else if verts.contains_key(name) && verts[name] >= 1 {
        Some(MatrixRefV::Selector(verts[name] - 1, dim))
    } else {
        None
    }
}

/// One record faithfully mirrors one plan node: same operator, operand
/// references unchanged, and the label resolved per [`spec_resolve`].
pub open spec fn spec_mirrors(
    n: PlanV,
    m: RpqMatrixPlanV,
    nvals: Map<Seq<char>, nat>,
    verts: Map<Seq<char>, nat>,
    dim: int,
) -> bool {
    match n {
        PlanV::Label(meta) => m.op == RpqMatrixOp::Label && m.lhs is None && m.rhs is None
            && Some(m.mat) == spec_resolve(meta.name, nvals, verts, dim),
        PlanV::Cat(a, b) => m.op == RpqMatrixOp::Concat && m.lhs == Some(a) && m.rhs == Some(b)
            && m.mat is Unused,
        PlanV::Alt(a, b) => m.op == RpqMatrixOp::Lor && m.lhs == Some(a) && m.rhs == Some(b)
            && m.mat is Unused,
        PlanV::Star(a) => m.op == RpqMatrixOp::Kleene && m.lhs is None && m.rhs == Some(a)
            && m.mat is Unused,
        PlanV::LStar(a, b) => m.op == RpqMatrixOp::KleeneL && m.lhs == Some(a) && m.rhs == Some(b)
            && m.mat is Unused,
        PlanV::RStar(a, b) => m.op == RpqMatrixOp::KleeneR && m.lhs == Some(a) && m.rhs == Some(b)
            && m.mat is Unused,
    }
}

/// Does this node's label (if it is one) resolve against the graph?
pub open spec fn spec_resolvable(
    n: PlanV,
    nvals: Map<Seq<char>, nat>,
    verts: Map<Seq<char>, nat>,
) -> bool {
    match n {
        PlanV::Label(meta) => spec_resolve(meta.name, nvals, verts, 0) is Some,
        _ => true,
    }
}

/// Translates an extracted plan into the engine's record table, one record
/// per node in the same order, preserving the structure exactly.  Succeeds
/// if and only if every label resolves.
pub fn matrix_plan(graph: &Graph, expr: &PlanExpr) -> (r: Result<Vec<RpqMatrixPlan>, EvalError>)
    requires
        expr.wf(),
    ensures
        match r {
            Result::Ok(v) => {
                &&& v@.len() == expr@.len()
                &&& forall|i: int|
                    0 <= i < expr@.len() ==> spec_mirrors(
                        expr@[i],
                        (#[trigger] v@[i])@,
                        table_view(graph.nvals@),
                        table_view(graph.verts@),
                        graph.verts@.len() as int,
                    )
            },
            Result::Err(e) => {
                &&& e is UnknownLabel
                &&& exists|i: int|
                    0 <= i < expr@.len() && !spec_resolvable(
                        #[trigger] expr@[i],
                        table_view(graph.nvals@),
                        table_view(graph.verts@),
                    )
            },
        },
        (forall|i: int|
            0 <= i < expr@.len() ==> spec_resolvable(
                #[trigger] expr@[i],
                table_view(graph.nvals@),
                table_view(graph.verts@),
            )) ==> r is Ok,
{
    let mut out: Vec<RpqMatrixPlan> = Vec::new();
    let mut i: usize = 0;
    while i < expr.nodes.len()
        invariant
            expr.wf(),
            i <= expr@.len(),
            out@.len() == i,
            forall|j: int|
                0 <= j < i ==> spec_mirrors(
                    expr@[j],
                    (#[trigger] out@[j])@,
                    table_view(graph.nvals@),
                    table_view(graph.verts@),
                    graph.verts@.len() as int,
                ),
        decreases expr@.len() - i,
    {
        let rec: RpqMatrixPlan = match &expr.nodes[i] {
            Plan::Label(meta) => {
                let mat: MatrixRef = match table_get(&graph.nvals, &meta.name) {
                    Some(_) => MatrixRef::Edge(meta.name.clone()),
                    None => match table_get(&graph.verts, &meta.name) {
                        Some(idx) => {
                            if idx >= 1 {
                                MatrixRef::Selector { index: idx - 1, dim: graph.verts.len() }
                            } else {
                                proof {
                                    assert(!spec_resolvable(
                                        expr@[i as int],
                                        table_view(graph.nvals@),
                                        table_view(graph.verts@),
                                    ));
                                }
                                return Err(EvalError::UnknownLabel(meta.name.clone()));
                            }
                        },
                        None => {
                            proof {
                                assert(!spec_resolvable(
                                    expr@[i as int],
                                    table_view(graph.nvals@),
                                    table_view(graph.verts@),
                                ));
                            }
                            return Err(EvalError::UnknownLabel(meta.name.clone()));
                        },
                    },
                };
                RpqMatrixPlan { op: RpqMatrixOp::Label, lhs: None, rhs: None, mat }
            },
            Plan::Cat(a, b) => RpqMatrixPlan {
                op: RpqMatrixOp::Concat,
                lhs: Some(*a),
                rhs: Some(*b),
                mat: MatrixRef::Unused,
            },
            Plan::Alt(a, b) => RpqMatrixPlan {
                op: RpqMatrixOp::Lor,
                lhs: Some(*a),
                rhs: Some(*b),
                mat: MatrixRef::Unused,
            },
            Plan::Star(a) => RpqMatrixPlan {
                op: RpqMatrixOp::Kleene,
                lhs: None,
                rhs: Some(*a),
                mat: MatrixRef::Unused,
            },
            Plan::LStar(a, b) => RpqMatrixPlan {
                op: RpqMatrixOp::KleeneL,
                lhs: Some(*a),
                rhs: Some(*b),
                mat: MatrixRef::Unused,
            },
            Plan::RStar(a, b) => RpqMatrixPlan {
                op: RpqMatrixOp::KleeneR,
                lhs: Some(*a),
                rhs: Some(*b),
                mat: MatrixRef::Unused,
            },
        };
        proof {
            assert(spec_mirrors(
                expr@[i as int],
                rec@,
                table_view(graph.nvals@),
                table_view(graph.verts@),
                graph.verts@.len() as int,
            ));
        }
        out.push(rec);
        i = i + 1;
    }
    Ok(out)
}

} // verus!
