//! Plan optimizer for regular path queries over labeled graphs.
//!
//! A path query pairs a regex-like pattern over edge labels with optional
//! endpoint constraints.  The crate compiles such a query into a term of a
//! small plan algebra, explores algebraically equivalent plans by equality
//! saturation over an e-graph, extracts the cheapest plan under a cost model,
//! and shapes the result into the operation table that a sparse-matrix
//! evaluation engine consumes.

pub mod cost;
pub mod egraph;
pub mod eval;
pub mod extract;
pub mod graph;
pub mod plan;
pub mod query;
pub mod rules;
pub mod sem;

pub use cost::SelectivityCostFn;
pub use egraph::EGraph;
pub use eval::EvalError;
pub use eval::MatrixRef;
pub use eval::RpqMatrixOp;
pub use eval::RpqMatrixPlan;
pub use eval::matrix_plan;
pub use extract::CostModel;
pub use extract::ExtractError;
pub use extract::Extractor;
pub use extract::RandomCostFn;
pub use graph::CompileError;
pub use graph::Graph;
pub use plan::LabelMeta;
pub use plan::Plan;
pub use plan::PlanExpr;
pub use query::ParseError;
pub use query::Pattern;
pub use query::Query;
pub use query::Vertex;
pub use rules::Rule;
pub use rules::RunLimits;
pub use rules::RunReport;
pub use rules::StopReason;
pub use rules::make_rules;
pub use rules::run_rules;
