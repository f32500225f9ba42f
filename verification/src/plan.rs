//! The plan term language: labels with size estimates, sequential and
//! alternative composition, Kleene star, and the two fused star forms.

use vstd::prelude::*;

verus! {

/// A reference to one edge-label matrix, together with the number of set
/// entries its matrix holds.  The entry count is a cost-model estimate of the
/// result size, not a live statistic; two labels are the same only when both
/// name and estimate agree.
#[derive(Clone, Debug)]
pub struct LabelMeta {
    pub name: String,
    pub nvals: usize,
}

/// Mathematical image of a [`LabelMeta`].
pub struct LabelMetaV {
    pub name: Seq<char>,
    pub nvals: nat,
}

impl View for LabelMeta {
    type V = LabelMetaV;

    open spec fn view(&self) -> LabelMetaV {
        LabelMetaV { name: self.name@, nvals: self.nvals as nat }
    }
}

/// One node of a plan.  Child references are equivalence-class ids (inside an
/// e-graph) or earlier node indices (inside a [`PlanExpr`]), never nested
/// nodes, so that equal subplans can be shared.
#[derive(Clone, Debug)]
pub enum Plan {
    /// A leaf: an edge-label matrix or a constant-vertex selector.
    Label(LabelMeta),
    /// Sequential composition of two subplans (path concatenation).
    Cat(usize, usize),
    /// Alternation of two subplans (union of path sets).
    Alt(usize, usize),
    /// Kleene star: zero or more repetitions of the subplan.
    Star(usize),
    /// Fused form of `Seq(Star(a), b)`, evaluated as one operation.
    LStar(usize, usize),
    /// Fused form of `Seq(a, Star(b))`, evaluated as one operation.
    RStar(usize, usize),
}

/// Mathematical image of a [`Plan`] node, with integer child references.
pub enum PlanV {
    Label(LabelMetaV),
    Cat(int, int),
    Alt(int, int),
    Star(int),
    LStar(int, int),
    RStar(int, int),
}

impl View for Plan {
    type V = PlanV;

    open spec fn view(&self) -> PlanV {
        match self {
            Plan::Label(m) => PlanV::Label(m@),
            Plan::Cat(a, b) => PlanV::Cat(*a as int, *b as int),
            Plan::Alt(a, b) => PlanV::Alt(*a as int, *b as int),
            Plan::Star(a) => PlanV::Star(*a as int),
            Plan::LStar(a, b) => PlanV::LStar(*a as int, *b as int),
            Plan::RStar(a, b) => PlanV::RStar(*a as int, *b as int),
        }
    }
}

/// A plan written out as a tree: the mathematical reading of a [`PlanExpr`]
/// index or of one concrete member of the exponential plan space an e-graph
/// holds.  Contracts and the algebraic laws speak of terms.
pub enum Term {
    Label(LabelMetaV),
    Cat(Box<Term>, Box<Term>),
    Alt(Box<Term>, Box<Term>),
    Star(Box<Term>),
    LStar(Box<Term>, Box<Term>),
    RStar(Box<Term>, Box<Term>),
}

/// Placeholder term for out-of-range references; a well-formed expression
/// never produces it.
pub open spec fn default_term() -> Term {
    Term::Label(LabelMetaV { name: Seq::empty(), nvals: 0 })
}

/// The tree spelled out by node `i` of an expression, resolving child
/// indices recursively.
pub open spec fn term_at(nodes: Seq<PlanV>, i: int) -> Term
    decreases i,
{
    if 0 <= i < nodes.len() && node_wf(nodes[i], i) {
        match nodes[i] {
            PlanV::Label(m) => Term::Label(m),
            PlanV::Cat(a, b) => Term::Cat(
                Box::new(term_at(nodes, a)),
                Box::new(term_at(nodes, b)),
            ),
            PlanV::Alt(a, b) => Term::Alt(
                Box::new(term_at(nodes, a)),
                Box::new(term_at(nodes, b)),
            ),
            PlanV::Star(a) => Term::Star(Box::new(term_at(nodes, a))),
            PlanV::LStar(a, b) => Term::LStar(
                Box::new(term_at(nodes, a)),
                Box::new(term_at(nodes, b)),
            ),
            PlanV::RStar(a, b) => Term::RStar(
                Box::new(term_at(nodes, a)),
                Box::new(term_at(nodes, b)),
            ),
        }
    } else {
        default_term()
    }
}

/// The term of a whole expression: the tree of its last node.
pub open spec fn term_of(e: Seq<PlanV>) -> Term {
    term_at(e, e.len() - 1)
}

/// Appending nodes never changes the tree an existing index spells out.
pub proof fn lemma_term_at_extend(nodes: Seq<PlanV>, more: Seq<PlanV>, i: int)
    requires
        nodes.len() <= more.len(),
        forall|j: int| 0 <= j < nodes.len() ==> more[j] == nodes[j],
        0 <= i < nodes.len(),
    ensures
        term_at(more, i) == term_at(nodes, i),
    decreases i,
{
    if node_wf(nodes[i], i) {
        match nodes[i] {
            PlanV::Label(_) => {},
            PlanV::Cat(a, b) => {
                lemma_term_at_extend(nodes, more, a);
                lemma_term_at_extend(nodes, more, b);
            },
            PlanV::Alt(a, b) => {
                lemma_term_at_extend(nodes, more, a);
                lemma_term_at_extend(nodes, more, b);
            },
            PlanV::Star(a) => {
                lemma_term_at_extend(nodes, more, a);
            },
            PlanV::LStar(a, b) => {
                lemma_term_at_extend(nodes, more, a);
                lemma_term_at_extend(nodes, more, b);
            },
            PlanV::RStar(a, b) => {
                lemma_term_at_extend(nodes, more, a);
                lemma_term_at_extend(nodes, more, b);
            },
        }
    }
}

/// Decides structural equality of two plan nodes, including the label name
/// and its size estimate.
pub fn plan_eq(a: &Plan, b: &Plan) -> (r: bool)
    ensures
        r == (a@ == b@),
{
    match (a, b) {
        (Plan::Label(m), Plan::Label(n)) => m.name == n.name && m.nvals == n.nvals,
        (Plan::Cat(a0, a1), Plan::Cat(b0, b1)) => a0 == b0 && a1 == b1,
        (Plan::Alt(a0, a1), Plan::Alt(b0, b1)) => a0 == b0 && a1 == b1,
        (Plan::Star(a0), Plan::Star(b0)) => a0 == b0,
        (Plan::LStar(a0, a1), Plan::LStar(b0, b1)) => a0 == b0 && a1 == b1,
        (Plan::RStar(a0, a1), Plan::RStar(b0, b1)) => a0 == b0 && a1 == b1,
        _ => false,
    }
}

/// A whole plan term, stored as a vector of nodes in which every child
/// reference points at an earlier index; the last node is the root.
#[derive(Clone, Debug)]
pub struct PlanExpr {
    pub nodes: Vec<Plan>,
}

/// Does node `n` only reference indices below `bound`?
pub open spec fn node_wf(n: PlanV, bound: int) -> bool {
    match n {
        PlanV::Label(_) => true,
        PlanV::Cat(a, b) => 0 <= a < bound && 0 <= b < bound,
        PlanV::Alt(a, b) => 0 <= a < bound && 0 <= b < bound,
        PlanV::Star(a) => 0 <= a < bound,
        PlanV::LStar(a, b) => 0 <= a < bound && 0 <= b < bound,
        PlanV::RStar(a, b) => 0 <= a < bound && 0 <= b < bound,
    }
}

impl View for PlanExpr {
    type V = Seq<PlanV>;

    open spec fn view(&self) -> Seq<PlanV> {
        self.nodes@.map_values(|p: Plan| p@)
    }
}

impl PlanExpr {
    /// Every node points only backwards, so the vector spells out a tree
    /// (or shared DAG) bottom-up.
    pub open spec fn wf(&self) -> bool {
        forall|i: int| 0 <= i < self@.len() ==> node_wf(self@[i], i)
    }

    pub fn new() -> (r: PlanExpr)
        ensures
            r@.len() == 0,
            r.wf(),
    {
        PlanExpr { nodes: Vec::new() }
    }

    pub fn len(&self) -> (n: usize)
        ensures
            n == self@.len(),
    {
        self.nodes.len()
    }

    /// Appends a node whose children must already be present, returning its
    /// index.
    pub fn add(&mut self, node: Plan) -> (idx: usize)
        requires
            old(self).wf(),
            node_wf(node@, old(self)@.len() as int),
            old(self)@.len() < usize::MAX,
        ensures
            final(self).wf(),
            idx == old(self)@.len(),
            final(self)@ == old(self)@.push(node@),
    {
        let idx = self.nodes.len();
        self.nodes.push(node);
        proof {
            assert(self@ =~= old(self)@.push(node@));
        }
        idx
    }
}

} // verus!
