//! Bottom-up extraction of one concrete best plan from a saturated e-graph.
//!
//! Class costs are computed by a worklist fixpoint, never by unbounded
//! recursion, so cycles among class ids (introduced by rewriting) are
//! harmless: a class obtains a cost only through a node whose children are
//! already costed, and a cheaper cost whenever one is found.  Alongside each
//! cost the extractor keeps a concrete plan achieving it, built eagerly in a
//! shared arena, so the best tree is ready the moment the fixpoint settles —
//! with the deterministic cost function the reported cost is exactly the
//! minimum over every plan the root class represents.
//!
//! Both cost functions run through the same extractor; the random one merely
//! supplies unconstrained node costs and is meant for sampling diverse
//! equivalent plans, never for correctness-relevant extraction.

use vstd::prelude::*;
use crate::plan::LabelMeta;
use crate::plan::Plan;
use crate::plan::PlanExpr;
use crate::plan::PlanV;
use crate::plan::Term;
use crate::plan::term_at;
use crate::plan::term_of;
use crate::plan::lemma_term_at_extend;
use crate::cost::SelectivityCostFn;
use crate::cost::spec_node_cost;
use crate::cost::spec_term_cost;
use crate::cost::lemma_node_cost_monotone;
use crate::egraph::EGraph;
use crate::egraph::represents;
use crate::egraph::rootof;
use crate::egraph::lemma_rootof_props;
use crate::rules::lemma_represents_same_root;

verus! {

/// Which cost function extraction runs under: both implement the same
/// node-cost interface and are interchangeable here.
#[derive(Clone, Copy, Debug, PartialEq, Eq, Structural)]
pub enum CostModel {
    /// The deterministic, selectivity-driven cost function.
    Selectivity,
    /// An independent uniform draw per node, for plan-space sampling only.
    Random,
}

/// Relies on rand::random: one uniformly drawn 64-bit value per call.
/// Nothing is assumed of the outcome.
#[verifier::external_body]
fn random_u64() -> u64 {
    rand::random()
}

/// The sampling cost function: every node costs an independent random
/// amount, whatever its children cost.
pub struct RandomCostFn;

impl RandomCostFn {
    pub fn cost(&self, _node: &Plan, _c0: u64, _c1: u64) -> u64 {
        random_u64()
    }
}

/// Dispatches to the selected cost function; only the deterministic one
/// promises anything about its result.
fn model_cost(model: CostModel, node: &Plan, c0: u64, c1: u64) -> (r: u64)
    ensures
        model == CostModel::Selectivity ==> r == spec_node_cost(node@, c0 as int, c1 as int),
{
    match model {
        CostModel::Selectivity => {
            let f = SelectivityCostFn;
            f.cost(node, c0, c1)
        },
        CostModel::Random => {
            let f = RandomCostFn;
            f.cost(node, c0, c1)
        },
    }
}

/// Why extraction could not produce a plan.
#[derive(Clone, Copy, Debug, PartialEq, Eq, Structural)]
pub enum ExtractError {
    /// The class holds no finite plan (its members all cycle).
    NoPlan,
    /// The arena hit the address-space ceiling before the fixpoint settled;
    /// unreachable for real inputs.
    Capacity,
}

/// Bottom-up extractor state over a fixed e-graph: per class, the best cost
/// found and the arena index of a plan achieving it.
pub struct Extractor {
    pub model: CostModel,
    pub costs: Vec<Option<u64>>,
    pub best: Vec<Option<usize>>,
    pub arena: PlanExpr,
    pub complete: bool,
}

impl Extractor {
    /// Cost recorded for the class of `c`.
    pub open spec fn cost_at(self, g: EGraph, c: int) -> Option<u64> {
        self.costs@[rootof(g.uf@, c)]
    }

    pub open spec fn cdef(self, g: EGraph, c: int) -> bool {
        self.cost_at(g, c) is Some
    }

    pub open spec fn cval(self, g: EGraph, c: int) -> int {
        self.cost_at(g, c)->0 as int
    }

    /// Cost of the first child class referenced by a node (0 for leaves).
    pub open spec fn cv0(self, g: EGraph, n: PlanV) -> int {
        match n {
            PlanV::Label(_) => 0,
            PlanV::Cat(a, _) => self.cval(g, a),
            PlanV::Alt(a, _) => self.cval(g, a),
            PlanV::Star(a) => self.cval(g, a),
            PlanV::LStar(a, _) => self.cval(g, a),
            PlanV::RStar(a, _) => self.cval(g, a),
        }
    }

    pub open spec fn cv1(self, g: EGraph, n: PlanV) -> int {
        match n {
            PlanV::Label(_) => 0,
            PlanV::Cat(_, b) => self.cval(g, b),
            PlanV::Alt(_, b) => self.cval(g, b),
            PlanV::Star(_) => 0,
            PlanV::LStar(_, b) => self.cval(g, b),
            PlanV::RStar(_, b) => self.cval(g, b),
        }
    }

    /// Are all child classes of this node costed already?
    pub open spec fn node_ready(self, g: EGraph, n: PlanV) -> bool {
        match n {
            PlanV::Label(_) => true,
            PlanV::Cat(a, b) => self.cdef(g, a) && self.cdef(g, b),
            PlanV::Alt(a, b) => self.cdef(g, a) && self.cdef(g, b),
            PlanV::Star(a) => self.cdef(g, a),
            PlanV::LStar(a, b) => self.cdef(g, a) && self.cdef(g, b),
            PlanV::RStar(a, b) => self.cdef(g, a) && self.cdef(g, b),
        }
    }

    /// The cost this node computes to under the current class costs.
    pub open spec fn node_now_cost(self, g: EGraph, n: PlanV) -> int {
        spec_node_cost(n, self.cv0(g, n), self.cv1(g, n))
    }

    /// Structural invariant: every costed class points at an arena plan the
    /// class represents, whose deterministic cost is within the recorded
    /// bound.
    pub open spec fn inv(self, g: EGraph) -> bool {
        &&& self.costs@.len() == g.n()
        &&& self.best@.len() == g.n()
        &&& self.arena.wf()
        &&& forall|c: int|
            0 <= c < g.n() && (#[trigger] self.costs@[c]) is Some ==> self.best@[c] is Some
                && self.best@[c]->0 < self.arena@.len() && represents(
                g,
                term_at(self.arena@, self.best@[c]->0 as int),
                c,
            ) && (self.model == CostModel::Selectivity ==> spec_term_cost(
                term_at(self.arena@, self.best@[c]->0 as int),
            ) <= self.costs@[c]->0 as int)
    }

    /// Fixpoint: no node with costed children could still cost its class,
    /// or (deterministically) improve it.
    pub open spec fn at_fixpoint(self, g: EGraph) -> bool {
        forall|k: int|
            0 <= k < g.nodes@.len() && self.node_ready(g, (#[trigger] g.nodes@[k]).0@)
                ==> self.cdef(g, g.nodes@[k].1 as int) && (self.model == CostModel::Selectivity
                ==> self.cval(g, g.nodes@[k].1 as int) <= self.node_now_cost(
                g,
                g.nodes@[k].0@,
            ))
    }

    /// What [`Extractor::new`] establishes; `complete` is false only in the
    /// unreachable case that the arena outgrew the address space.
    pub open spec fn valid_for(self, g: EGraph) -> bool {
        &&& self.inv(g)
        &&& self.complete ==> self.at_fixpoint(g)
        &&& self.complete || self.arena@.len() >= usize::MAX - 2
    }
}

/// Ranks a cost table for termination: an uncosted class weighs more than
/// any cost, so both costing a class and lowering a cost shrink the rank.
pub open spec fn entry_measure(e: Option<u64>) -> nat {
    match e {
        Option::None => u64::MAX as nat + 1,
        Option::Some(v) => v as nat,
    }
}

pub open spec fn table_measure(costs: Seq<Option<u64>>) -> nat
    decreases costs.len(),
{
    if costs.len() == 0 {
        0
    } else {
        table_measure(costs.drop_last()) + entry_measure(costs.last())
    }
}

/// Improving one entry strictly shrinks the table rank.
proof fn lemma_table_measure_update(costs: Seq<Option<u64>>, i: int, v: Option<u64>)
    requires
        0 <= i < costs.len(),
        entry_measure(v) < entry_measure(costs[i]),
    ensures
        table_measure(costs.update(i, v)) < table_measure(costs),
    decreases costs.len(),
{
    let upd = costs.update(i, v);
    if i == costs.len() - 1 {
        assert(upd.drop_last() =~= costs.drop_last());
    } else {
        assert(upd.drop_last() =~= costs.drop_last().update(i, v));
        assert(upd.last() == costs.last());
        lemma_table_measure_update(costs.drop_last(), i, v);
    }
}

/// Count of memoized entries, pinning the compacted output's size.
pub open spec fn count_somes(s: Seq<Option<usize>>) -> nat
    decreases s.len(),
{
    if s.len() == 0 {
        0
    } else {
        count_somes(s.drop_last()) + if s.last() is Some {
            1nat
        } else {
            0nat
        }
    }
}

proof fn lemma_count_somes_update(s: Seq<Option<usize>>, i: int, v: usize)
    requires
        0 <= i < s.len(),
        s[i] is None,
    ensures
        count_somes(s.update(i, Some(v))) == count_somes(s) + 1,
    decreases s.len(),
{
    let upd = s.update(i, Some(v));
    if i == s.len() - 1 {
        assert(upd.drop_last() =~= s.drop_last());
    } else {
        assert(upd.drop_last() =~= s.drop_last().update(i, Some(v)));
        assert(upd.last() == s.last());
        lemma_count_somes_update(s.drop_last(), i, v);
    }
}

proof fn lemma_count_somes_bound(s: Seq<Option<usize>>)
    ensures
        count_somes(s) <= s.len(),
    decreases s.len(),
{
    if s.len() > 0 {
        lemma_count_somes_bound(s.drop_last());
    }
}

/// With at least one unset entry the count is strictly below the length.
proof fn lemma_count_somes_lt(s: Seq<Option<usize>>, i: int)
    requires
        0 <= i < s.len(),
        s[i] is None,
    ensures
        count_somes(s) < s.len(),
    decreases s.len(),
{
    if i == s.len() - 1 {
        lemma_count_somes_bound(s.drop_last());
    } else {
        lemma_count_somes_lt(s.drop_last(), i);
    }
}

/// A plan represented in a class with costs at a fixpoint bounds that
/// class's cost from above — so the recorded cost is a true minimum, and a
/// represented class is always costed.
pub proof fn lemma_extract_lower_bound(g: EGraph, ext: Extractor, t: Term, c: int)
    requires
        g.wf(),
        ext.inv(g),
        ext.at_fixpoint(g),
        represents(g, t, c),
    ensures
        ext.cdef(g, c),
        ext.model == CostModel::Selectivity ==> ext.cval(g, c) <= spec_term_cost(t),
    decreases t,
{
    match t {
        Term::Label(m) => {
            let k = choose|k: int|
                0 <= k < g.nodes@.len() && (#[trigger] g.nodes@[k]).0@ == PlanV::Label(m)
                    && rootof(g.uf@, g.nodes@[k].1 as int) == rootof(g.uf@, c);
            assert(ext.node_ready(g, g.nodes@[k].0@));
        },
        Term::Cat(ta, tb) => {
            let (x, y) = choose|x: int, y: int|
                #[trigger] g.has_node(PlanV::Cat(x, y), c) && represents(g, *ta, x) && represents(
                    g,
                    *tb,
                    y,
                );
            lemma_extract_lower_bound(g, ext, *ta, x);
            lemma_extract_lower_bound(g, ext, *tb, y);
            let k = choose|k: int|
                0 <= k < g.nodes@.len() && (#[trigger] g.nodes@[k]).0@ == PlanV::Cat(x, y)
                    && rootof(g.uf@, g.nodes@[k].1 as int) == rootof(g.uf@, c);
            assert(ext.node_ready(g, g.nodes@[k].0@));
            if ext.model == CostModel::Selectivity {
                lemma_node_cost_monotone(
                    PlanV::Cat(x, y),
                    ext.cval(g, x),
                    ext.cval(g, y),
                    spec_term_cost(*ta),
                    spec_term_cost(*tb),
                );
            }
        },
        Term::Alt(ta, tb) => {
            let (x, y) = choose|x: int, y: int|
                #[trigger] g.has_node(PlanV::Alt(x, y), c) && represents(g, *ta, x) && represents(
                    g,
                    *tb,
                    y,
                );
            lemma_extract_lower_bound(g, ext, *ta, x);
            lemma_extract_lower_bound(g, ext, *tb, y);
            let k = choose|k: int|
                0 <= k < g.nodes@.len() && (#[trigger] g.nodes@[k]).0@ == PlanV::Alt(x, y)
                    && rootof(g.uf@, g.nodes@[k].1 as int) == rootof(g.uf@, c);
            assert(ext.node_ready(g, g.nodes@[k].0@));
            if ext.model == CostModel::Selectivity {
                lemma_node_cost_monotone(
                    PlanV::Alt(x, y),
                    ext.cval(g, x),
                    ext.cval(g, y),
                    spec_term_cost(*ta),
                    spec_term_cost(*tb),
                );
            }
        },
        Term::Star(ta) => {
            let x = choose|x: int| #[trigger] g.has_node(PlanV::Star(x), c) && represents(
                g,
                *ta,
                x,
            );
            lemma_extract_lower_bound(g, ext, *ta, x);
            let k = choose|k: int|
                0 <= k < g.nodes@.len() && (#[trigger] g.nodes@[k]).0@ == PlanV::Star(x) && rootof(
                    g.uf@,
                    g.nodes@[k].1 as int,
                ) == rootof(g.uf@, c);
            assert(ext.node_ready(g, g.nodes@[k].0@));
            if ext.model == CostModel::Selectivity {
                lemma_node_cost_monotone(
                    PlanV::Star(x),
                    ext.cval(g, x),
                    0,
                    spec_term_cost(*ta),
                    0,
                );
            }
        },
        Term::LStar(ta, tb) => {
            let (x, y) = choose|x: int, y: int|
                #[trigger] g.has_node(PlanV::LStar(x, y), c) && represents(g, *ta, x)
                    && represents(g, *tb, y);
            lemma_extract_lower_bound(g, ext, *ta, x);
            lemma_extract_lower_bound(g, ext, *tb, y);
            let k = choose|k: int|
                0 <= k < g.nodes@.len() && (#[trigger] g.nodes@[k]).0@ == PlanV::LStar(x, y)
                    && rootof(g.uf@, g.nodes@[k].1 as int) == rootof(g.uf@, c);
            assert(ext.node_ready(g, g.nodes@[k].0@));
            if ext.model == CostModel::Selectivity {
                lemma_node_cost_monotone(
                    PlanV::LStar(x, y),
                    ext.cval(g, x),
                    ext.cval(g, y),
                    spec_term_cost(*ta),
                    spec_term_cost(*tb),
                );
            }
        },
        Term::RStar(ta, tb) => {
            let (x, y) = choose|x: int, y: int|
                #[trigger] g.has_node(PlanV::RStar(x, y), c) && represents(g, *ta, x)
                    && represents(g, *tb, y);
            lemma_extract_lower_bound(g, ext, *ta, x);
            lemma_extract_lower_bound(g, ext, *tb, y);
            let k = choose|k: int|
                0 <= k < g.nodes@.len() && (#[trigger] g.nodes@[k]).0@ == PlanV::RStar(x, y)
                    && rootof(g.uf@, g.nodes@[k].1 as int) == rootof(g.uf@, c);
            assert(ext.node_ready(g, g.nodes@[k].0@));
            if ext.model == CostModel::Selectivity {
                lemma_node_cost_monotone(
                    PlanV::RStar(x, y),
                    ext.cval(g, x),
                    ext.cval(g, y),
                    spec_term_cost(*ta),
                    spec_term_cost(*tb),
                );
            }
        },
    }
}

/// Outcome of one improvement pass.
enum PassResult {
    NoChange,
    Changed,
    Full,
}

impl Extractor {
    /// Resolves the child class costs of a node, or reports that a child is
    /// not yet costed.
    fn child_costs(&self, g: &EGraph, p: &Plan) -> (r: Option<(u64, u64)>)
        requires
            g.wf(),
            self.inv(*g),
            crate::plan::node_wf(p@, g.n()),
        ensures
            match r {
                Option::Some(cc) => self.node_ready(*g, p@) && cc.0 as int == self.cv0(*g, p@)
                    && cc.1 as int == self.cv1(*g, p@),
                Option::None => !self.node_ready(*g, p@),
            },
    {
        match p {
            Plan::Label(_) => Some((0, 0)),
            Plan::Star(a) => {
                let ra = g.find(*a);
                match self.costs[ra] {
                    Some(v) => Some((v, 0)),
                    None => None,
                }
            },
            Plan::Cat(a, b) | Plan::Alt(a, b) | Plan::LStar(a, b) | Plan::RStar(a, b) => {
                let ra = g.find(*a);
                let rb = g.find(*b);
                match (self.costs[ra], self.costs[rb]) {
                    (Some(va), Some(vb)) => Some((va, vb)),
                    _ => None,
                }
            },
        }
    }

    /// Reads a memoized best index that the invariant promises exists.
    fn best_of(&self, g: &EGraph, c: usize) -> (r: usize)
        requires
            g.wf(),
            self.inv(*g),
            c < g.n(),
            self.uf_root(*g, c),
            self.costs@[c as int] is Some,
        ensures
            Some(r) == self.best@[c as int],
            r < self.arena@.len(),
    {
        match self.best[c] {
            Some(i) => i,
            None => vstd::pervasive::unreached(),
        }
    }

    /// Is `c` its own canonical representative?
    pub open spec fn uf_root(self, g: EGraph, c: usize) -> bool {
        rootof(g.uf@, c as int) == c as int
    }

    /// One sweep over every node: cost a class whenever all children are
    /// costed and the node computes a new or cheaper cost, and record the
    /// concrete plan that achieves it.
    fn pass(&mut self, g: &EGraph) -> (r: PassResult)
        requires
            g.wf(),
            old(self).inv(*g),
        ensures
            final(self).inv(*g),
            final(self).model == old(self).model,
            final(self).complete == old(self).complete,
            match r {
                PassResult::NoChange => *final(self) == *old(self) && final(self).at_fixpoint(*g),
                PassResult::Changed => table_measure(final(self).costs@) < table_measure(
                    old(self).costs@,
                ),
                PassResult::Full => final(self).arena@.len() >= usize::MAX - 2,
            },
    {
        let mut changed = false;
        let mut k: usize = 0;
        while k < g.nodes.len()
            invariant
                g.wf(),
                self.inv(*g),
                k <= g.nodes@.len(),
                self.model == old(self).model,
                self.complete == old(self).complete,
                changed ==> table_measure(self.costs@) < table_measure(old(self).costs@),
                !changed ==> *self == *old(self),
                !changed ==> forall|kk: int|
                    0 <= kk < k && self.node_ready(*g, (#[trigger] g.nodes@[kk]).0@) ==> self.cdef(
                        *g,
                        g.nodes@[kk].1 as int,
                    ) && (self.model == CostModel::Selectivity ==> self.cval(
                        *g,
                        g.nodes@[kk].1 as int,
                    ) <= self.node_now_cost(*g, g.nodes@[kk].0@)),
            decreases g.nodes@.len() - k,
        {
            let p = &g.nodes[k].0;
            let tag = g.nodes[k].1;
            if let Some((c0, c1)) = self.child_costs(g, p) {
                let v = model_cost(self.model, p, c0, c1);
                let rt = g.find(tag);
                proof {
                    lemma_rootof_props(g.uf@, tag as int);
                }
                let improve = match self.costs[rt] {
                    None => true,
                    Some(cur) => v < cur,
                };
                if improve {
                    if self.arena.len() >= usize::MAX - 2 {
                        return PassResult::Full;
                    }
                    let ghost pre = *self;
                    let node2: Plan = match p {
                        Plan::Label(m) => Plan::Label(LabelMeta {
                            name: m.name.clone(),
                            nvals: m.nvals,
                        }),
                        Plan::Cat(a, b) => Plan::Cat(
                            self.best_of(g, g.find(*a)),
                            self.best_of(g, g.find(*b)),
                        ),
                        Plan::Alt(a, b) => Plan::Alt(
                            self.best_of(g, g.find(*a)),
                            self.best_of(g, g.find(*b)),
                        ),
                        Plan::Star(a) => Plan::Star(self.best_of(g, g.find(*a))),
                        Plan::LStar(a, b) => Plan::LStar(
                            self.best_of(g, g.find(*a)),
                            self.best_of(g, g.find(*b)),
                        ),
                        Plan::RStar(a, b) => Plan::RStar(
                            self.best_of(g, g.find(*a)),
                            self.best_of(g, g.find(*b)),
                        ),
                    };
                    proof {
                        match p@ {
                            PlanV::Label(_) => {},
                            PlanV::Cat(a, b) => {
                                lemma_rootof_props(g.uf@, a);
                                lemma_rootof_props(g.uf@, b);
                            },
                            PlanV::Alt(a, b) => {
                                lemma_rootof_props(g.uf@, a);
                                lemma_rootof_props(g.uf@, b);
                            },
                            PlanV::Star(a) => {
                                lemma_rootof_props(g.uf@, a);
                            },
                            PlanV::LStar(a, b) => {
                                lemma_rootof_props(g.uf@, a);
                                lemma_rootof_props(g.uf@, b);
                            },
                            PlanV::RStar(a, b) => {
                                lemma_rootof_props(g.uf@, a);
                                lemma_rootof_props(g.uf@, b);
                            },
                        }
                    }
                    let idx = self.arena.add(node2);
                    self.best.set(rt, Some(idx));
                    let ghost before_cost = self.costs@;
                    self.costs.set(rt, Some(v));
                    proof {
                        lemma_table_measure_update(before_cost, rt as int, Some(v));
                        lemma_pass_update_ok(*g, pre, *self, k as int, rt as int, idx, v);
                    }
                    changed = true;
                } else {
                    proof {
                        if !changed && self.model == CostModel::Selectivity {
                            assert(self.cval(*g, tag as int) <= v);
                        }
                    }
                }
            }
            k = k + 1;
        }
        if changed {
            PassResult::Changed
        } else {
            PassResult::NoChange
        }
    }

    /// Computes the cost fixpoint for every class of the e-graph under the
    /// chosen cost function.
    pub fn new(g: &EGraph, model: CostModel) -> (ext: Extractor)
        requires
            g.wf(),
        ensures
            ext.valid_for(*g),
            ext.model == model,
    {
        let n = g.num_classes();
        let mut costs: Vec<Option<u64>> = Vec::new();
        let mut best: Vec<Option<usize>> = Vec::new();
        let mut i: usize = 0;
        while i < n
            invariant
                i <= n,
                costs@.len() == i,
                best@.len() == i,
                forall|j: int| 0 <= j < i ==> (#[trigger] costs@[j]) is None,
            decreases n - i,
        {
            costs.push(None);
            best.push(None);
            i = i + 1;
        }
        let mut ext = Extractor { model, costs, best, arena: PlanExpr::new(), complete: true };
        loop
            invariant
                g.wf(),
                ext.inv(*g),
                ext.model == model,
                ext.complete,
            decreases table_measure(ext.costs@),
        {
            match ext.pass(g) {
                PassResult::NoChange => {
                    return ext;
                },
                PassResult::Changed => {},
                PassResult::Full => {
                    ext.complete = false;
                    return ext;
                },
            }
        }
    }
}

/// Re-establishes the extractor invariant after one cost improvement.
proof fn lemma_pass_update_ok(
    g: EGraph,
    pre: Extractor,
    post: Extractor,
    k: int,
    rt: int,
    idx: usize,
    v: u64,
)
    requires
        g.wf(),
        pre.inv(g),
        0 <= k < g.nodes@.len(),
        rt == rootof(g.uf@, g.nodes@[k].1 as int),
        pre.node_ready(g, g.nodes@[k].0@),
        post.model == pre.model,
        post.arena@ == pre.arena@.push(push_node_view(pre, g, g.nodes@[k].0@)),
        idx == pre.arena@.len(),
        post.best@ == pre.best@.update(rt, Some(idx)),
        post.costs@ == pre.costs@.update(rt, Some(v)),
        pre.model == CostModel::Selectivity ==> v as int == pre.node_now_cost(
            g,
            g.nodes@[k].0@,
        ),
    ensures
        post.inv(g),
{
    let nd = g.nodes@[k].0@;
    let tag = g.nodes@[k].1 as int;
    lemma_rootof_props(g.uf@, tag);
    match nd {
        PlanV::Label(_) => {},
        PlanV::Cat(a, b) => {
            lemma_child_best(g, pre, post, a, idx);
            lemma_child_best(g, pre, post, b, idx);
        },
        PlanV::Alt(a, b) => {
            lemma_child_best(g, pre, post, a, idx);
            lemma_child_best(g, pre, post, b, idx);
        },
        PlanV::Star(a) => {
            lemma_child_best(g, pre, post, a, idx);
        },
        PlanV::LStar(a, b) => {
            lemma_child_best(g, pre, post, a, idx);
            lemma_child_best(g, pre, post, b, idx);
        },
        PlanV::RStar(a, b) => {
            lemma_child_best(g, pre, post, a, idx);
            lemma_child_best(g, pre, post, b, idx);
        },
    }
    assert(crate::plan::node_wf(push_node_view(pre, g, nd), idx as int));
    assert forall|i: int| 0 <= i < post.arena@.len() implies crate::plan::node_wf(
        post.arena@[i],
        i,
    ) by {
        if i < pre.arena@.len() {
            assert(crate::plan::node_wf(pre.arena@[i], i));
        }
    }
    assert(post.arena.wf());
    assert forall|c: int| 0 <= c < g.n() && (#[trigger] post.costs@[c]) is Some implies
        post.best@[c] is Some && post.best@[c]->0 < post.arena@.len() && represents(
        g,
        term_at(post.arena@, post.best@[c]->0 as int),
        c,
    ) && (post.model == CostModel::Selectivity ==> spec_term_cost(
        term_at(post.arena@, post.best@[c]->0 as int),
    ) <= post.costs@[c]->0 as int) by {
        if c != rt {
            assert(pre.costs@[c] is Some);
            lemma_term_at_extend(pre.arena@, post.arena@, pre.best@[c]->0 as int);
        } else {
            lemma_new_arena_node_good(g, pre, post, k, rt, idx, v);
        }
    }
}

/// The view of the arena node appended for a stored e-graph node: the same
/// shape, with each child replaced by the best plan of its class.
pub open spec fn push_node_view(pre: Extractor, g: EGraph, nd: PlanV) -> PlanV {
    match nd {
        PlanV::Label(m) => PlanV::Label(m),
        PlanV::Cat(a, b) => PlanV::Cat(
            pre.best@[rootof(g.uf@, a)]->0 as int,
            pre.best@[rootof(g.uf@, b)]->0 as int,
        ),
        PlanV::Alt(a, b) => PlanV::Alt(
            pre.best@[rootof(g.uf@, a)]->0 as int,
            pre.best@[rootof(g.uf@, b)]->0 as int,
        ),
        PlanV::Star(a) => PlanV::Star(pre.best@[rootof(g.uf@, a)]->0 as int),
        PlanV::LStar(a, b) => PlanV::LStar(
            pre.best@[rootof(g.uf@, a)]->0 as int,
            pre.best@[rootof(g.uf@, b)]->0 as int,
        ),
        PlanV::RStar(a, b) => PlanV::RStar(
            pre.best@[rootof(g.uf@, a)]->0 as int,
            pre.best@[rootof(g.uf@, b)]->0 as int,
        ),
    }
}

/// The freshly appended arena node represents the updated class, at a
/// deterministic cost within the recorded one.
proof fn lemma_new_arena_node_good(
    g: EGraph,
    pre: Extractor,
    post: Extractor,
    k: int,
    rt: int,
    idx: usize,
    v: u64,
)
    requires
        g.wf(),
        pre.inv(g),
        0 <= k < g.nodes@.len(),
        rt == rootof(g.uf@, g.nodes@[k].1 as int),
        pre.node_ready(g, g.nodes@[k].0@),
        post.model == pre.model,
        post.arena@ == pre.arena@.push(push_node_view(pre, g, g.nodes@[k].0@)),
        idx == pre.arena@.len(),
        post.best@ == pre.best@.update(rt, Some(idx)),
        post.costs@ == pre.costs@.update(rt, Some(v)),
        pre.model == CostModel::Selectivity ==> v as int == pre.node_now_cost(
            g,
            g.nodes@[k].0@,
        ),
    ensures
        post.best@[rt] is Some,
        post.best@[rt]->0 < post.arena@.len(),
        represents(g, term_at(post.arena@, idx as int), rt),
        post.model == CostModel::Selectivity ==> spec_term_cost(
            term_at(post.arena@, idx as int),
        ) <= v as int,
{
    let nd = g.nodes@[k].0@;
    let tag = g.nodes@[k].1 as int;
    lemma_rootof_props(g.uf@, tag);
    assert(g.has_node(nd, rt));
    match nd {
        PlanV::Label(m) => {
            assert(term_at(post.arena@, idx as int) == Term::Label(m));
        },
        PlanV::Cat(a, b) => {
            lemma_child_best(g, pre, post, a, idx);
            lemma_child_best(g, pre, post, b, idx);
            let ta = term_at(post.arena@, pre.best@[rootof(g.uf@, a)]->0 as int);
            let tb = term_at(post.arena@, pre.best@[rootof(g.uf@, b)]->0 as int);
            assert(term_at(post.arena@, idx as int) == Term::Cat(Box::new(ta), Box::new(tb)));
            assert(g.has_node(PlanV::Cat(a, b), rt));
            assert(represents(g, ta, a) && represents(g, tb, b));
            if pre.model == CostModel::Selectivity {
                lemma_node_cost_monotone(
                    nd,
                    spec_term_cost(ta),
                    spec_term_cost(tb),
                    pre.cval(g, a),
                    pre.cval(g, b),
                );
            }
        },
        PlanV::Alt(a, b) => {
            lemma_child_best(g, pre, post, a, idx);
            lemma_child_best(g, pre, post, b, idx);
            let ta = term_at(post.arena@, pre.best@[rootof(g.uf@, a)]->0 as int);
            let tb = term_at(post.arena@, pre.best@[rootof(g.uf@, b)]->0 as int);
            assert(term_at(post.arena@, idx as int) == Term::Alt(Box::new(ta), Box::new(tb)));
            assert(g.has_node(PlanV::Alt(a, b), rt));
            if pre.model == CostModel::Selectivity {
                lemma_node_cost_monotone(
                    nd,
                    spec_term_cost(ta),
                    spec_term_cost(tb),
                    pre.cval(g, a),
                    pre.cval(g, b),
                );
            }
        },
        PlanV::Star(a) => {
            lemma_child_best(g, pre, post, a, idx);
            let ta = term_at(post.arena@, pre.best@[rootof(g.uf@, a)]->0 as int);
            assert(term_at(post.arena@, idx as int) == Term::Star(Box::new(ta)));
            assert(g.has_node(PlanV::Star(a), rt));
            if pre.model == CostModel::Selectivity {
                lemma_node_cost_monotone(nd, spec_term_cost(ta), 0, pre.cval(g, a), 0);
            }
        },
        PlanV::LStar(a, b) => {
            lemma_child_best(g, pre, post, a, idx);
            lemma_child_best(g, pre, post, b, idx);
            let ta = term_at(post.arena@, pre.best@[rootof(g.uf@, a)]->0 as int);
            let tb = term_at(post.arena@, pre.best@[rootof(g.uf@, b)]->0 as int);
            assert(term_at(post.arena@, idx as int) == Term::LStar(Box::new(ta), Box::new(tb)));
            assert(g.has_node(PlanV::LStar(a, b), rt));
            if pre.model == CostModel::Selectivity {
                lemma_node_cost_monotone(
                    nd,
                    spec_term_cost(ta),
                    spec_term_cost(tb),
                    pre.cval(g, a),
                    pre.cval(g, b),
                );
            }
        },
        PlanV::RStar(a, b) => {
            lemma_child_best(g, pre, post, a, idx);
            lemma_child_best(g, pre, post, b, idx);
            let ta = term_at(post.arena@, pre.best@[rootof(g.uf@, a)]->0 as int);
            let tb = term_at(post.arena@, pre.best@[rootof(g.uf@, b)]->0 as int);
            assert(term_at(post.arena@, idx as int) == Term::RStar(Box::new(ta), Box::new(tb)));
            assert(g.has_node(PlanV::RStar(a, b), rt));
            if pre.model == CostModel::Selectivity {
                lemma_node_cost_monotone(
                    nd,
                    spec_term_cost(ta),
                    spec_term_cost(tb),
                    pre.cval(g, a),
                    pre.cval(g, b),
                );
            }
        },
    }
}

/// Memoized copy of one arena subplan into a fresh expression, preserving
/// sharing; linear in the number of distinct reachable nodes.
fn compact_rec(
    arena: &PlanExpr,
    idx: usize,
    out: &mut PlanExpr,
    memo: &mut Vec<Option<usize>>,
) -> (r: usize)
    requires
        arena.wf(),
        arena@.len() <= usize::MAX,
        idx < arena@.len(),
        old(memo)@.len() == arena@.len(),
        old(out).wf(),
        old(out)@.len() == count_somes(old(memo)@),
        forall|i: int|
            0 <= i < old(memo)@.len() && (#[trigger] old(memo)@[i]) is Some ==> old(memo)@[i]->0 < old(out)@.len() && term_at(old(out)@, old(memo)@[i]->0 as int) == term_at(
                arena@,
                i,
            ),
    ensures
        final(out).wf(),
        final(memo)@.len() == arena@.len(),
        final(out)@.len() == count_somes(final(memo)@),
        old(out)@.len() <= final(out)@.len(),
        forall|j: int| 0 <= j < old(out)@.len() ==> final(out)@[j] == old(out)@[j],
        forall|i: int|
            0 <= i < final(memo)@.len() && (#[trigger] final(memo)@[i]) is Some ==> final(memo)@[i]->0 < final(out)@.len() && term_at(final(out)@, final(memo)@[i]->0 as int)
                == term_at(arena@, i),
        forall|i: int|
            0 <= i < arena@.len() && (#[trigger] old(memo)@[i]) is Some ==> final(memo)@[i] == old(memo)@[i],
        forall|i: int|
            idx < i < arena@.len() ==> final(memo)@[i] == (#[trigger] old(memo)@[i]),
        r < final(out)@.len(),
        term_at(final(out)@, r as int) == term_at(arena@, idx as int),
        final(memo)@[idx as int] == Some(r),
        old(memo)@[idx as int] is None ==> r == final(out)@.len() - 1,
    decreases idx,
{
    if let Some(m) = memo[idx] {
        return m;
    }
    let node2: Plan = match &arena.nodes[idx] {
        Plan::Label(m) => Plan::Label(LabelMeta { name: m.name.clone(), nvals: m.nvals }),
        Plan::Cat(a, b) => {
            let ra = compact_rec(arena, *a, out, memo);
            let ghost mid = *out;
            let rb = compact_rec(arena, *b, out, memo);
            proof {
                lemma_term_at_extend(mid@, out@, ra as int);
            }
            Plan::Cat(ra, rb)
        },
        Plan::Alt(a, b) => {
            let ra = compact_rec(arena, *a, out, memo);
            let ghost mid = *out;
            let rb = compact_rec(arena, *b, out, memo);
            proof {
                lemma_term_at_extend(mid@, out@, ra as int);
            }
            Plan::Alt(ra, rb)
        },
        Plan::Star(a) => {
            let ra = compact_rec(arena, *a, out, memo);
            Plan::Star(ra)
        },
        Plan::LStar(a, b) => {
            let ra = compact_rec(arena, *a, out, memo);
            let ghost mid = *out;
            let rb = compact_rec(arena, *b, out, memo);
            proof {
                lemma_term_at_extend(mid@, out@, ra as int);
            }
            Plan::LStar(ra, rb)
        },
        Plan::RStar(a, b) => {
            let ra = compact_rec(arena, *a, out, memo);
            let ghost mid = *out;
            let rb = compact_rec(arena, *b, out, memo);
            proof {
                lemma_term_at_extend(mid@, out@, ra as int);
            }
            Plan::RStar(ra, rb)
        },
    };
    proof {
        lemma_count_somes_lt(memo@, idx as int);
    }
    let ghost before = *out;
    let r = out.add(node2);
    proof {
        lemma_count_somes_update(memo@, idx as int, r);
        assert forall|i: int|
            0 <= i < memo@.len() && (#[trigger] memo@[i]) is Some implies memo@[i]->0 < out@.len()
            && term_at(out@, memo@[i]->0 as int) == term_at(arena@, i) by {
            lemma_term_at_extend(before@, out@, memo@[i]->0 as int);
        }
        assert(term_at(out@, r as int) == term_at(arena@, idx as int));
    }
    memo.set(idx, Some(r));
    r
}

impl Extractor {
    /// Returns the cheapest plan the class of `root` represents, with its
    /// cost: under the deterministic cost function the reported cost equals
    /// the plan's cost and no represented plan is cheaper.  Fails only when
    /// the class holds no finite plan at all.
    pub fn find_best(&self, g: &EGraph, root: usize) -> (r: Result<(u64, PlanExpr), ExtractError>)
        requires
            g.wf(),
            self.valid_for(*g),
            root < g.n(),
        ensures
            match r {
                Result::Ok(p) => {
                    &&& p.1.wf()
                    &&& p.1@.len() > 0
                    &&& represents(*g, term_of(p.1@), root as int)
                    &&& self.model == CostModel::Selectivity ==> spec_term_cost(term_of(p.1@))
                        == p.0 as int
                    &&& self.model == CostModel::Selectivity ==> forall|t: Term|
                        represents(*g, t, root as int) ==> p.0 as int <= spec_term_cost(t)
                },
                Result::Err(_) => true,
            },
            self.complete && (exists|t: Term| represents(*g, t, root as int)) ==> r is Ok,
    {
        if !self.complete {
            return Err(ExtractError::Capacity);
        }
        let rt = g.find(root);
        proof {
            lemma_rootof_props(g.uf@, root as int);
        }
        match self.costs[rt] {
            Some(v) => {
                let bi = self.best_of(g, rt);
                let mut out = PlanExpr::new();
                let mut memo: Vec<Option<usize>> = Vec::new();
                let mut i: usize = 0;
                let alen = self.arena.len();
                while i < alen
                    invariant
                        i <= alen,
                        alen == self.arena@.len(),
                        memo@.len() == i,
                        forall|j: int| 0 <= j < i ==> (#[trigger] memo@[j]) is None,
                    decreases alen - i,
                {
                    memo.push(None);
                    i = i + 1;
                }
                proof {
                    lemma_count_somes_all_none(memo@);
                }
                let ri = compact_rec(&self.arena, bi, &mut out, &mut memo);
                let ghost t = term_at(self.arena@, bi as int);
                proof {
                    assert(term_of(out@) == t);
                    lemma_represents_same_root(*g, t, rt as int, root as int);
                    if self.model == CostModel::Selectivity {
                        // the recorded cost bounds the plan from above, and the
                        // fixpoint bounds every represented plan from below
                        lemma_extract_lower_bound(*g, *self, t, root as int);
                        assert(spec_term_cost(t) == v as int);
                        assert forall|t2: Term| represents(*g, t2, root as int) implies v as int
                            <= spec_term_cost(t2) by {
                            lemma_extract_lower_bound(*g, *self, t2, root as int);
                        }
                    }
                }
                Ok((v, out))
            },
            None => {
                proof {
                    if exists|t: Term| represents(*g, t, root as int) {
                        let t = choose|t: Term| represents(*g, t, root as int);
                        lemma_extract_lower_bound_defined(*g, *self, t, root as int);
                        assert(false);
                    }
                }
                Err(ExtractError::NoPlan)
            },
        }
    }
}

/// An all-unset memo table counts zero entries.
proof fn lemma_count_somes_all_none(s: Seq<Option<usize>>)
    requires
        forall|j: int| 0 <= j < s.len() ==> (#[trigger] s[j]) is None,
    ensures
        count_somes(s) == 0,
    decreases s.len(),
{
    if s.len() > 0 {
        lemma_count_somes_all_none(s.drop_last());
    }
}

/// A class that represents any plan is costed once the fixpoint holds, for
/// either cost model.
pub proof fn lemma_extract_lower_bound_defined(g: EGraph, ext: Extractor, t: Term, c: int)
    requires
        g.wf(),
        ext.inv(g),
        ext.at_fixpoint(g),
        represents(g, t, c),
    ensures
        ext.cdef(g, c),
    decreases t,
{
    lemma_extract_lower_bound_any(g, ext, t, c);
}

/// Core of the lower-bound argument, for any cost model: every represented
/// class is costed at the fixpoint.
proof fn lemma_extract_lower_bound_any(g: EGraph, ext: Extractor, t: Term, c: int)
    requires
        g.wf(),
        ext.inv(g),
        ext.at_fixpoint(g),
        represents(g, t, c),
    ensures
        ext.cdef(g, c),
    decreases t,
{
    match t {
        Term::Label(m) => {
            let k = choose|k: int|
                0 <= k < g.nodes@.len() && (#[trigger] g.nodes@[k]).0@ == PlanV::Label(m)
                    && rootof(g.uf@, g.nodes@[k].1 as int) == rootof(g.uf@, c);
            assert(ext.node_ready(g, g.nodes@[k].0@));
        },
        Term::Cat(ta, tb) => {
            let (x, y) = choose|x: int, y: int|
                #[trigger] g.has_node(PlanV::Cat(x, y), c) && represents(g, *ta, x) && represents(
                    g,
                    *tb,
                    y,
                );
            lemma_extract_lower_bound_any(g, ext, *ta, x);
            lemma_extract_lower_bound_any(g, ext, *tb, y);
            let k = choose|k: int|
                0 <= k < g.nodes@.len() && (#[trigger] g.nodes@[k]).0@ == PlanV::Cat(x, y)
                    && rootof(g.uf@, g.nodes@[k].1 as int) == rootof(g.uf@, c);
            assert(ext.node_ready(g, g.nodes@[k].0@));
        },
        Term::Alt(ta, tb) => {
            let (x, y) = choose|x: int, y: int|
                #[trigger] g.has_node(PlanV::Alt(x, y), c) && represents(g, *ta, x) && represents(
                    g,
                    *tb,
                    y,
                );
            lemma_extract_lower_bound_any(g, ext, *ta, x);
            lemma_extract_lower_bound_any(g, ext, *tb, y);
            let k = choose|k: int|
                0 <= k < g.nodes@.len() && (#[trigger] g.nodes@[k]).0@ == PlanV::Alt(x, y)
                    && rootof(g.uf@, g.nodes@[k].1 as int) == rootof(g.uf@, c);
            assert(ext.node_ready(g, g.nodes@[k].0@));
        },
        Term::Star(ta) => {
            let x = choose|x: int| #[trigger] g.has_node(PlanV::Star(x), c) && represents(
                g,
                *ta,
                x,
            );
            lemma_extract_lower_bound_any(g, ext, *ta, x);
            let k = choose|k: int|
                0 <= k < g.nodes@.len() && (#[trigger] g.nodes@[k]).0@ == PlanV::Star(x) && rootof(
                    g.uf@,
                    g.nodes@[k].1 as int,
                ) == rootof(g.uf@, c);
            assert(ext.node_ready(g, g.nodes@[k].0@));
        },
        Term::LStar(ta, tb) => {
            let (x, y) = choose|x: int, y: int|
                #[trigger] g.has_node(PlanV::LStar(x, y), c) && represents(g, *ta, x)
                    && represents(g, *tb, y);
            lemma_extract_lower_bound_any(g, ext, *ta, x);
            lemma_extract_lower_bound_any(g, ext, *tb, y);
            let k = choose|k: int|
                0 <= k < g.nodes@.len() && (#[trigger] g.nodes@[k]).0@ == PlanV::LStar(x, y)
                    && rootof(g.uf@, g.nodes@[k].1 as int) == rootof(g.uf@, c);
            assert(ext.node_ready(g, g.nodes@[k].0@));
        },
        Term::RStar(ta, tb) => {
            let (x, y) = choose|x: int, y: int|
                #[trigger] g.has_node(PlanV::RStar(x, y), c) && represents(g, *ta, x)
                    && represents(g, *tb, y);
            lemma_extract_lower_bound_any(g, ext, *ta, x);
            lemma_extract_lower_bound_any(g, ext, *tb, y);
            let k = choose|k: int|
                0 <= k < g.nodes@.len() && (#[trigger] g.nodes@[k]).0@ == PlanV::RStar(x, y)
                    && rootof(g.uf@, g.nodes@[k].1 as int) == rootof(g.uf@, c);
            assert(ext.node_ready(g, g.nodes@[k].0@));
        },
    }
}

/// The best plan stored for a costed child class is still the same plan in
/// the grown arena, and it represents the child class itself, at a cost
/// within the recorded one.
proof fn lemma_child_best(g: EGraph, pre: Extractor, post: Extractor, a: int, idx: usize)
    requires
        g.wf(),
        pre.inv(g),
        0 <= a < g.n(),
        pre.cdef(g, a),
        idx == pre.arena@.len(),
        post.arena@.len() == pre.arena@.len() + 1,
        forall|j: int| 0 <= j < pre.arena@.len() ==> post.arena@[j] == pre.arena@[j],
    ensures
        pre.best@[rootof(g.uf@, a)] is Some,
        pre.best@[rootof(g.uf@, a)]->0 < idx,
        term_at(post.arena@, pre.best@[rootof(g.uf@, a)]->0 as int) == term_at(
            pre.arena@,
            pre.best@[rootof(g.uf@, a)]->0 as int,
        ),
        represents(g, term_at(post.arena@, pre.best@[rootof(g.uf@, a)]->0 as int), a),
        pre.model == CostModel::Selectivity ==> spec_term_cost(
            term_at(post.arena@, pre.best@[rootof(g.uf@, a)]->0 as int),
        ) <= pre.cval(g, a),
{
    let ra = rootof(g.uf@, a);
    lemma_rootof_props(g.uf@, a);
    assert(pre.costs@[ra] is Some);
    lemma_term_at_extend(pre.arena@, post.arena@, pre.best@[ra]->0 as int);
    lemma_represents_same_root(g, term_at(pre.arena@, pre.best@[ra]->0 as int), ra, a);
}

} // verus!
