//! The rewrite rule set and the equality-saturation runner.
//!
//! A rule is a pattern over plan shapes with numbered variables on the left,
//! and a replacement over the same variables on the right.  Rules are applied
//! in the listed direction only; the set is not auto-symmetrized.  Saturation
//! repeatedly matches every rule against every class, records all matches,
//! adds each instantiated right-hand side and merges it with the matched
//! class, then restores congruence — until a full pass finds nothing new
//! (saturation) or a budget is exhausted.  A budget stop is not a failure:
//! the partially saturated e-graph is still sound and extractable.

use vstd::prelude::*;
use crate::plan::Plan;
use crate::plan::PlanExpr;
use crate::plan::PlanV;
use crate::plan::node_wf;
use crate::plan::term_at;
use crate::plan::term_of;
use crate::egraph::EGraph;
use crate::egraph::extends;
use crate::egraph::represents;
use crate::egraph::rootof;
use crate::egraph::lemma_extends_trans;
use crate::egraph::lemma_extends_refl;
use crate::egraph::lemma_represents_extends;
use crate::egraph::lemma_rootof_props;

verus! {

/// One side of a rewrite rule: a plan shape with numbered pattern variables
/// at the leaves.  Labels cannot be matched literally; the rules are purely
/// algebraic.
pub enum Pat {
    Var(usize),
    Cat(Box<Pat>, Box<Pat>),
    Alt(Box<Pat>, Box<Pat>),
    Star(Box<Pat>),
    LStar(Box<Pat>, Box<Pat>),
    RStar(Box<Pat>, Box<Pat>),
}

/// Mathematical image of a pattern.
pub enum PatV {
    Var(int),
    Cat(Box<PatV>, Box<PatV>),
    Alt(Box<PatV>, Box<PatV>),
    Star(Box<PatV>),
    LStar(Box<PatV>, Box<PatV>),
    RStar(Box<PatV>, Box<PatV>),
}

pub open spec fn pat_view(p: Pat) -> PatV
    decreases p,
{
    match p {
        Pat::Var(v) => PatV::Var(v as int),
        Pat::Cat(a, b) => PatV::Cat(Box::new(pat_view(*a)), Box::new(pat_view(*b))),
        Pat::Alt(a, b) => PatV::Alt(Box::new(pat_view(*a)), Box::new(pat_view(*b))),
        Pat::Star(a) => PatV::Star(Box::new(pat_view(*a))),
        Pat::LStar(a, b) => PatV::LStar(Box::new(pat_view(*a)), Box::new(pat_view(*b))),
        Pat::RStar(a, b) => PatV::RStar(Box::new(pat_view(*a)), Box::new(pat_view(*b))),
    }
}

impl View for Pat {
    type V = PatV;

    open spec fn view(&self) -> PatV {
        pat_view(*self)
    }
}

/// A rewrite rule `lhs => rhs` with `nvars` pattern variables.
pub struct Rule {
    pub name: String,
    pub lhs: Pat,
    pub rhs: Pat,
    pub nvars: usize,
}

/// Mathematical image of a rule, as the algebraic laws speak of it.
pub struct RuleV {
    pub lhs: PatV,
    pub rhs: PatV,
}

/// Rule: `a/(b/c) => (a/b)/c`.
pub open spec fn rule_cat_assoc_left() -> RuleV {
    RuleV {
        lhs: PatV::Cat(
            Box::new(PatV::Var(0)),
            Box::new(PatV::Cat(Box::new(PatV::Var(1)), Box::new(PatV::Var(2)))),
        ),
        rhs: PatV::Cat(
            Box::new(PatV::Cat(Box::new(PatV::Var(0)), Box::new(PatV::Var(1)))),
            Box::new(PatV::Var(2)),
        ),
    }
}

/// Rule: `(a/b)/c => a/(b/c)`.
pub open spec fn rule_cat_assoc_right() -> RuleV {
    RuleV {
        lhs: PatV::Cat(
            Box::new(PatV::Cat(Box::new(PatV::Var(0)), Box::new(PatV::Var(1)))),
            Box::new(PatV::Var(2)),
        ),
        rhs: PatV::Cat(
            Box::new(PatV::Var(0)),
            Box::new(PatV::Cat(Box::new(PatV::Var(1)), Box::new(PatV::Var(2)))),
        ),
    }
}

/// Rule: `a|b => b|a`.
pub open spec fn rule_alt_commute() -> RuleV {
    RuleV {
        lhs: PatV::Alt(Box::new(PatV::Var(0)), Box::new(PatV::Var(1))),
        rhs: PatV::Alt(Box::new(PatV::Var(1)), Box::new(PatV::Var(0))),
    }
}

/// Rule: `a|(b|c) => (a|b)|c`.
pub open spec fn rule_alt_assoc() -> RuleV {
    RuleV {
        lhs: PatV::Alt(
            Box::new(PatV::Var(0)),
            Box::new(PatV::Alt(Box::new(PatV::Var(1)), Box::new(PatV::Var(2)))),
        ),
        rhs: PatV::Alt(
            Box::new(PatV::Alt(Box::new(PatV::Var(0)), Box::new(PatV::Var(1)))),
            Box::new(PatV::Var(2)),
        ),
    }
}

/// Rule: `a/(b|c) => (a/b)|(a/c)`.
pub open spec fn rule_dist_right() -> RuleV {
    RuleV {
        lhs: PatV::Cat(
            Box::new(PatV::Var(0)),
            Box::new(PatV::Alt(Box::new(PatV::Var(1)), Box::new(PatV::Var(2)))),
        ),
        rhs: PatV::Alt(
            Box::new(PatV::Cat(Box::new(PatV::Var(0)), Box::new(PatV::Var(1)))),
            Box::new(PatV::Cat(Box::new(PatV::Var(0)), Box::new(PatV::Var(2)))),
        ),
    }
}

/// Rule: `(a|b)/c => (a/c)|(b/c)`.
pub open spec fn rule_dist_left() -> RuleV {
    RuleV {
        lhs: PatV::Cat(
            Box::new(PatV::Alt(Box::new(PatV::Var(0)), Box::new(PatV::Var(1)))),
            Box::new(PatV::Var(2)),
        ),
        rhs: PatV::Alt(
            Box::new(PatV::Cat(Box::new(PatV::Var(0)), Box::new(PatV::Var(2)))),
            Box::new(PatV::Cat(Box::new(PatV::Var(1)), Box::new(PatV::Var(2)))),
        ),
    }
}

/// Rule: `a/(b*)` collapses to the fused "iterate after a" form.
pub open spec fn rule_fuse_rstar() -> RuleV {
    RuleV {
        lhs: PatV::Cat(Box::new(PatV::Var(0)), Box::new(PatV::Star(Box::new(PatV::Var(1))))),
        rhs: PatV::RStar(Box::new(PatV::Var(0)), Box::new(PatV::Var(1))),
    }
}

/// Rule: `(a*)/b` collapses to the fused "iterate before b" form.
pub open spec fn rule_fuse_lstar() -> RuleV {
    RuleV {
        lhs: PatV::Cat(Box::new(PatV::Star(Box::new(PatV::Var(0)))), Box::new(PatV::Var(1))),
        rhs: PatV::LStar(Box::new(PatV::Var(0)), Box::new(PatV::Var(1))),
    }
}

/// The fixed algebraic identities over the plan language:
/// sequential composition associates in both directions, alternation
/// commutes and associates, composition distributes over alternation on both
/// sides, and a composition against a starred operand collapses into the
/// matching fused star form.
pub open spec fn spec_rules() -> Seq<RuleV> {
    seq![
        rule_cat_assoc_left(),
        rule_cat_assoc_right(),
        rule_alt_commute(),
        rule_alt_assoc(),
        rule_dist_right(),
        rule_dist_left(),
        rule_fuse_rstar(),
        rule_fuse_lstar(),
    ]
}

/// Builds the rule set; its content is pinned to [`spec_rules`], which the
/// soundness theorem speaks about.
pub fn make_rules() -> (r: Vec<Rule>)
    ensures
        r@.len() == spec_rules().len(),
        forall|i: int|
            0 <= i < r@.len() ==> (#[trigger] r@[i]).lhs@ == spec_rules()[i].lhs && r@[i].rhs@
                == spec_rules()[i].rhs,
{
    let mut r: Vec<Rule> = Vec::new();
    r.push(Rule {
        name: "assoc-sec-1".to_owned(),
        lhs: Pat::Cat(
            Box::new(Pat::Var(0)),
            Box::new(Pat::Cat(Box::new(Pat::Var(1)), Box::new(Pat::Var(2)))),
        ),
        rhs: Pat::Cat(
            Box::new(Pat::Cat(Box::new(Pat::Var(0)), Box::new(Pat::Var(1)))),
            Box::new(Pat::Var(2)),
        ),
        nvars: 3,
    });
    r.push(Rule {
        name: "assoc-sec-2".to_owned(),
        lhs: Pat::Cat(
            Box::new(Pat::Cat(Box::new(Pat::Var(0)), Box::new(Pat::Var(1)))),
            Box::new(Pat::Var(2)),
        ),
        rhs: Pat::Cat(
            Box::new(Pat::Var(0)),
            Box::new(Pat::Cat(Box::new(Pat::Var(1)), Box::new(Pat::Var(2)))),
        ),
        nvars: 3,
    });
    r.push(Rule {
        name: "commute-alt".to_owned(),
        lhs: Pat::Alt(Box::new(Pat::Var(0)), Box::new(Pat::Var(1))),
        rhs: Pat::Alt(Box::new(Pat::Var(1)), Box::new(Pat::Var(0))),
        nvars: 2,
    });
    r.push(Rule {
        name: "assoc-alt".to_owned(),
        lhs: Pat::Alt(
            Box::new(Pat::Var(0)),
            Box::new(Pat::Alt(Box::new(Pat::Var(1)), Box::new(Pat::Var(2)))),
        ),
        rhs: Pat::Alt(
            Box::new(Pat::Alt(Box::new(Pat::Var(0)), Box::new(Pat::Var(1)))),
            Box::new(Pat::Var(2)),
        ),
        nvars: 3,
    });
    r.push(Rule {
        name: "distribute-1".to_owned(),
        lhs: Pat::Cat(
            Box::new(Pat::Var(0)),
            Box::new(Pat::Alt(Box::new(Pat::Var(1)), Box::new(Pat::Var(2)))),
        ),
        rhs: Pat::Alt(
            Box::new(Pat::Cat(Box::new(Pat::Var(0)), Box::new(Pat::Var(1)))),
            Box::new(Pat::Cat(Box::new(Pat::Var(0)), Box::new(Pat::Var(2)))),
        ),
        nvars: 3,
    });
    r.push(Rule {
        name: "distribute-2".to_owned(),
        lhs: Pat::Cat(
            Box::new(Pat::Alt(Box::new(Pat::Var(0)), Box::new(Pat::Var(1)))),
            Box::new(Pat::Var(2)),
        ),
        rhs: Pat::Alt(
            Box::new(Pat::Cat(Box::new(Pat::Var(0)), Box::new(Pat::Var(2)))),
            Box::new(Pat::Cat(Box::new(Pat::Var(1)), Box::new(Pat::Var(2)))),
        ),
        nvars: 3,
    });
    r.push(Rule {
        name: "build-lstar".to_owned(),
        lhs: Pat::Cat(Box::new(Pat::Var(0)), Box::new(Pat::Star(Box::new(Pat::Var(1))))),
        rhs: Pat::RStar(Box::new(Pat::Var(0)), Box::new(Pat::Var(1))),
        nvars: 2,
    });
    r.push(Rule {
        name: "build-rstar".to_owned(),
        lhs: Pat::Cat(Box::new(Pat::Star(Box::new(Pat::Var(0)))), Box::new(Pat::Var(1))),
        rhs: Pat::LStar(Box::new(Pat::Var(0)), Box::new(Pat::Var(1))),
        nvars: 2,
    });
    proof {
        reveal_with_fuel(pat_view, 6);
        assert(r@[0].lhs@ == spec_rules()[0].lhs);
        assert(r@[0].rhs@ == spec_rules()[0].rhs);
        assert(r@[1].lhs@ == spec_rules()[1].lhs);
        assert(r@[1].rhs@ == spec_rules()[1].rhs);
        assert(r@[2].lhs@ == spec_rules()[2].lhs);
        assert(r@[2].rhs@ == spec_rules()[2].rhs);
        assert(r@[3].lhs@ == spec_rules()[3].lhs);
        assert(r@[3].rhs@ == spec_rules()[3].rhs);
        assert(r@[4].lhs@ == spec_rules()[4].lhs);
        assert(r@[4].rhs@ == spec_rules()[4].rhs);
        assert(r@[5].lhs@ == spec_rules()[5].lhs);
        assert(r@[5].rhs@ == spec_rules()[5].rhs);
        assert(r@[6].lhs@ == spec_rules()[6].lhs);
        assert(r@[6].rhs@ == spec_rules()[6].rhs);
        assert(r@[7].lhs@ == spec_rules()[7].lhs);
        assert(r@[7].rhs@ == spec_rules()[7].rhs);
    }
    r
}

/// A substitution binds each pattern variable to a class id, or leaves it
/// free.
pub open spec fn subst_wf(s: Seq<Option<usize>>, n: int) -> bool {
    forall|v: int| 0 <= v < s.len() && (#[trigger] s[v]) is Some ==> s[v]->0 < n
}

/// A fully unbound substitution of the given width.
fn empty_subst(nvars: usize) -> (r: Vec<Option<usize>>)
    ensures
        r@.len() == nvars,
        forall|v: int| 0 <= v < nvars ==> (#[trigger] r@[v]) is None,
{
    let mut r: Vec<Option<usize>> = Vec::new();
    let mut i: usize = 0;
    while i < nvars
        invariant
            i <= nvars,
            r@.len() == i,
            forall|v: int| 0 <= v < i ==> (#[trigger] r@[v]) is None,
        decreases nvars - i,
    {
        r.push(None);
        i = i + 1;
    }
    r
}

/// Combines the bindings of two partial substitutions; fails only when both
/// bind the same variable differently (which linear patterns never do).
fn merge_subst(a: &Vec<Option<usize>>, b: &Vec<Option<usize>>) -> (r: Option<Vec<Option<usize>>>)
    requires
        a@.len() == b@.len(),
    ensures
        match r {
            Option::Some(m) => m@.len() == a@.len() && forall|v: int|
                0 <= v < m@.len() && (#[trigger] m@[v]) is Some ==> m@[v] == a@[v] || m@[v]
                    == b@[v],
            Option::None => true,
        },
{
    let mut m: Vec<Option<usize>> = Vec::new();
    let mut i: usize = 0;
    while i < a.len()
        invariant
            a@.len() == b@.len(),
            i <= a@.len(),
            m@.len() == i,
            forall|v: int|
                0 <= v < i && (#[trigger] m@[v]) is Some ==> m@[v] == a@[v] || m@[v] == b@[v],
        decreases a@.len() - i,
    {
        match (a[i], b[i]) {
            (Some(x), Some(y)) => {
                if x == y {
                    m.push(Some(x));
                } else {
                    return None;
                }
            },
            (Some(x), None) => m.push(Some(x)),
            (None, Some(y)) => m.push(Some(y)),
            (None, None) => m.push(None),
        }
        i = i + 1;
    }
    Some(m)
}

/// All substitutions in a match list are well formed for the e-graph.
pub open spec fn substs_wf(r: Seq<Vec<Option<usize>>>, nvars: int, n: int) -> bool {
    forall|i: int|
        0 <= i < r.len() ==> (#[trigger] r[i])@.len() == nvars && subst_wf(r[i]@, n)
}

/// Finds every way the pattern matches into the class of `c`, one
/// substitution per match.
#[verifier::loop_isolation(false)]
fn match_pat(g: &EGraph, pat: &Pat, c: usize, nvars: usize) -> (r: Vec<Vec<Option<usize>>>)
    requires
        g.wf(),
        c < g.n(),
    ensures
        substs_wf(r@, nvars as int, g.n()),
    decreases pat, 1int,
{
    let mut out: Vec<Vec<Option<usize>>> = Vec::new();
    match pat {
        Pat::Var(v) => {
            if *v < nvars {
                let mut s = empty_subst(nvars);
                let root = g.find(c);
                proof {
                    lemma_rootof_props(g.uf@, c as int);
                }
                s.set(*v, Some(root));
                out.push(s);
            }
        },
        Pat::Cat(p1, p2) => {
            match_binary_cat(g, p1, p2, c, nvars, &mut out, 0, Ghost(*pat));
        },
        Pat::Alt(p1, p2) => {
            match_binary_cat(g, p1, p2, c, nvars, &mut out, 1, Ghost(*pat));
        },
        Pat::LStar(p1, p2) => {
            match_binary_cat(g, p1, p2, c, nvars, &mut out, 2, Ghost(*pat));
        },
        Pat::RStar(p1, p2) => {
            match_binary_cat(g, p1, p2, c, nvars, &mut out, 3, Ghost(*pat));
        },
        Pat::Star(p1) => {
            let rc = g.find(c);
            let mut k: usize = 0;
            while k < g.nodes.len()
                invariant
                    g.wf(),
                    c < g.n(),
                    rc as int == rootof(g.uf@, c as int),
                    k <= g.nodes@.len(),
                    substs_wf(out@, nvars as int, g.n()),
                decreases g.nodes@.len() - k,
            {
                let tag = g.nodes[k].1;
                if let Plan::Star(a) = g.nodes[k].0 {
                    if g.find(tag) == rc {
                        let subs = match_pat(g, p1, a, nvars);
                        push_all(&mut out, &subs, Ghost(nvars as int), Ghost(g.n()));
                    }
                }
                k = k + 1;
            }
        },
    }
    out
}

/// Matches a binary pattern shape against every member of the class of `c`
/// whose operator agrees (`which`: 0 Cat, 1 Alt, 2 LStar, 3 RStar), taking
/// the cartesian product of the child matches.
#[verifier::loop_isolation(false)]
fn match_binary_cat(
    g: &EGraph,
    p1: &Pat,
    p2: &Pat,
    c: usize,
    nvars: usize,
    out: &mut Vec<Vec<Option<usize>>>,
    which: u8,
    Ghost(parent): Ghost<Pat>,
) -> (nothing: ())
    requires
        g.wf(),
        c < g.n(),
        substs_wf(old(out)@, nvars as int, g.n()),
        decreases_to!(parent => *p1),
        decreases_to!(parent => *p2),
    ensures
        substs_wf(final(out)@, nvars as int, g.n()),
    decreases parent, 0int,
{
    let rc = g.find(c);
    let mut k: usize = 0;
    while k < g.nodes.len()
        invariant
            g.wf(),
            c < g.n(),
            rc as int == rootof(g.uf@, c as int),
            k <= g.nodes@.len(),
            substs_wf(out@, nvars as int, g.n()),
        decreases g.nodes@.len() - k,
    {
        let tag = g.nodes[k].1;
        let children: Option<(usize, usize)> = match (&g.nodes[k].0, which) {
            (Plan::Cat(a, b), 0u8) => Some((*a, *b)),
            (Plan::Alt(a, b), 1u8) => Some((*a, *b)),
            (Plan::LStar(a, b), 2u8) => Some((*a, *b)),
            (Plan::RStar(a, b), 3u8) => Some((*a, *b)),
            _ => None,
        };
        if let Some((a, b)) = children {
            if g.find(tag) == rc {
                let s1s = match_pat(g, p1, a, nvars);
                let s2s = match_pat(g, p2, b, nvars);
                let mut i: usize = 0;
                while i < s1s.len()
                    invariant
                        g.wf(),
                        i <= s1s@.len(),
                        substs_wf(s1s@, nvars as int, g.n()),
                        substs_wf(s2s@, nvars as int, g.n()),
                        substs_wf(out@, nvars as int, g.n()),
                    decreases s1s@.len() - i,
                {
                    let mut j: usize = 0;
                    while j < s2s.len()
                        invariant
                            g.wf(),
                            i < s1s@.len(),
                            j <= s2s@.len(),
                            substs_wf(s1s@, nvars as int, g.n()),
                            substs_wf(s2s@, nvars as int, g.n()),
                            substs_wf(out@, nvars as int, g.n()),
                        decreases s2s@.len() - j,
                    {
                        if let Some(m) = merge_subst(&s1s[i], &s2s[j]) {
                            out.push(m);
                        }
                        j = j + 1;
                    }
                    i = i + 1;
                }
            }
        }
        k = k + 1;
    }
}

/// Appends all substitutions of `src` to `dst`.
fn push_all(
    dst: &mut Vec<Vec<Option<usize>>>,
    src: &Vec<Vec<Option<usize>>>,
    Ghost(nvars): Ghost<int>,
    Ghost(n): Ghost<int>,
) -> (nothing: ())
    requires
        substs_wf(old(dst)@, nvars, n),
        substs_wf(src@, nvars, n),
    ensures
        substs_wf(final(dst)@, nvars, n),
{
    let mut i: usize = 0;
    while i < src.len()
        invariant
            i <= src@.len(),
            substs_wf(dst@, nvars, n),
            substs_wf(src@, nvars, n),
        decreases src@.len() - i,
    {
        let s = clone_subst(&src[i]);
        dst.push(s);
        i = i + 1;
    }
}

/// Copies a substitution entry by entry.
fn clone_subst(s: &Vec<Option<usize>>) -> (r: Vec<Option<usize>>)
    ensures
        r@ == s@,
{
    let mut r: Vec<Option<usize>> = Vec::new();
    let mut i: usize = 0;
    while i < s.len()
        invariant
            i <= s@.len(),
            r@ == s@.subrange(0, i as int),
        decreases s@.len() - i,
    {
        r.push(s[i]);
        i = i + 1;
        proof {
            assert(r@ =~= s@.subrange(0, i as int));
        }
    }
    proof {
        assert(r@ =~= s@);
    }
    r
}

/// Builds the instance of a pattern under a substitution inside the e-graph,
/// returning its class; `None` if the pattern uses an unbound variable (or
/// the store is at capacity, which real inputs never reach).
fn instantiate(g: &mut EGraph, pat: &Pat, s: &Vec<Option<usize>>) -> (r: Option<usize>)
    requires
        old(g).wf(),
        subst_wf(s@, old(g).n()),
    ensures
        final(g).wf(),
        extends(*old(g), *final(g)),
        old(g).n() <= final(g).n(),
        subst_wf(s@, final(g).n()),
        match r {
            Option::Some(c) => c < final(g).n(),
            Option::None => true,
        },
    decreases pat, 1int,
{
    let ghost pre = *g;
    proof {
        lemma_extends_refl(pre);
    }
    match pat {
        Pat::Var(v) => {
            if *v < s.len() {
                match s[*v] {
                    Some(c) => Some(c),
                    None => None,
                }
            } else {
                None
            }
        },
        Pat::Star(p1) => {
            let a = instantiate(g, p1, s);
            match a {
                Some(ca) => add_guarded(g, Plan::Star(ca), Ghost(pre)),
                None => None,
            }
        },
        Pat::Cat(p1, p2) => {
            instantiate_binary(g, p1, p2, s, 0, Ghost(*pat))
        },
        Pat::Alt(p1, p2) => {
            instantiate_binary(g, p1, p2, s, 1, Ghost(*pat))
        },
        Pat::LStar(p1, p2) => {
            instantiate_binary(g, p1, p2, s, 2, Ghost(*pat))
        },
        Pat::RStar(p1, p2) => {
            instantiate_binary(g, p1, p2, s, 3, Ghost(*pat))
        },
    }
}

/// Instantiates both children of a binary pattern and adds the combining
/// node (`which`: 0 Cat, 1 Alt, 2 LStar, 3 RStar).
fn instantiate_binary(
    g: &mut EGraph,
    p1: &Pat,
    p2: &Pat,
    s: &Vec<Option<usize>>,
    which: u8,
    Ghost(parent): Ghost<Pat>,
) -> (r: Option<usize>)
    requires
        old(g).wf(),
        subst_wf(s@, old(g).n()),
        decreases_to!(parent => *p1),
        decreases_to!(parent => *p2),
    ensures
        final(g).wf(),
        extends(*old(g), *final(g)),
        old(g).n() <= final(g).n(),
        subst_wf(s@, final(g).n()),
        match r {
            Option::Some(c) => c < final(g).n(),
            Option::None => true,
        },
    decreases parent, 0int,
{
    let ghost pre = *g;
    let a = instantiate(g, p1, s);
    let ghost mid = *g;
    let b = instantiate(g, p2, s);
    proof {
        lemma_extends_trans(pre, mid, *g);
    }
    match (a, b) {
        (Some(ca), Some(cb)) => {
            let node = match which {
                0u8 => Plan::Cat(ca, cb),
                1u8 => Plan::Alt(ca, cb),
                2u8 => Plan::LStar(ca, cb),
                _ => Plan::RStar(ca, cb),
            };
            add_guarded(g, node, Ghost(pre))
        },
        _ => None,
    }
}

/// Adds a node after a capacity check, chaining the extension facts.
fn add_guarded(g: &mut EGraph, node: Plan, Ghost(pre): Ghost<EGraph>) -> (r: Option<usize>)
    requires
        old(g).wf(),
        extends(pre, *old(g)),
        node_wf(node@, old(g).n()),
    ensures
        final(g).wf(),
        extends(pre, *final(g)),
        extends(*old(g), *final(g)),
        old(g).n() <= final(g).n(),
        match r {
            Option::Some(c) => c < final(g).n(),
            Option::None => true,
        },
{
    proof {
        lemma_extends_refl(*g);
    }
    if g.num_classes() >= usize::MAX - 1 || g.num_nodes() >= usize::MAX - 1 {
        return None;
    }
    let ghost before = *g;
    let c = g.add(node);
    proof {
        lemma_extends_trans(pre, before, *g);
    }
    Some(c)
}

/// Why a saturation run stopped.
#[derive(Clone, Copy, Debug, PartialEq, Eq, Structural)]
pub enum StopReason {
    /// A full pass over all rules produced no new union: the e-graph is
    /// saturated, and further passes would change nothing.
    Saturated,
    /// The iteration budget ran out first.
    IterationLimit,
    /// The node budget ran out first.  The e-graph is still valid and
    /// extractable; the plan space is just not fully explored.
    NodeLimit,
}

/// Budgets for a saturation run.  Termination of saturation is not
/// guaranteed in general — associativity and commutativity alone can grow
/// the e-graph forever — so a budget is mandatory, not optional.
pub struct RunLimits {
    pub iter_limit: usize,
    pub node_limit: usize,
}

impl Default for RunLimits {
    fn default() -> (r: RunLimits)
        ensures
            r.iter_limit == 30,
            r.node_limit == 10000,
    {
        RunLimits { iter_limit: 30, node_limit: 10000 }
    }
}

/// The outcome of a saturation run.
pub struct RunReport {
    pub egraph: EGraph,
    pub root: usize,
    pub stop: StopReason,
    pub iterations: usize,
}

/// Transfers a represented plan between two ids of the same class.
pub proof fn lemma_represents_same_root(g: EGraph, t: crate::plan::Term, c1: int, c2: int)
    requires
        represents(g, t, c1),
        0 <= c2 < g.n(),
        rootof(g.uf@, c1) == rootof(g.uf@, c2),
    ensures
        represents(g, t, c2),
{
    match t {
        crate::plan::Term::Label(m) => {
            assert(g.has_node(PlanV::Label(m), c2));
        },
        crate::plan::Term::Cat(ta, tb) => {
            let (x, y) = choose|x: int, y: int|
                #[trigger] g.has_node(PlanV::Cat(x, y), c1) && represents(g, *ta, x) && represents(
                    g,
                    *tb,
                    y,
                );
            assert(g.has_node(PlanV::Cat(x, y), c2));
        },
        crate::plan::Term::Alt(ta, tb) => {
            let (x, y) = choose|x: int, y: int|
                #[trigger] g.has_node(PlanV::Alt(x, y), c1) && represents(g, *ta, x) && represents(
                    g,
                    *tb,
                    y,
                );
            assert(g.has_node(PlanV::Alt(x, y), c2));
        },
        crate::plan::Term::Star(ta) => {
            let x = choose|x: int| #[trigger] g.has_node(PlanV::Star(x), c1) && represents(
                g,
                *ta,
                x,
            );
            assert(g.has_node(PlanV::Star(x), c2));
        },
        crate::plan::Term::LStar(ta, tb) => {
            let (x, y) = choose|x: int, y: int|
                #[trigger] g.has_node(PlanV::LStar(x, y), c1) && represents(g, *ta, x)
                    && represents(g, *tb, y);
            assert(g.has_node(PlanV::LStar(x, y), c2));
        },
        crate::plan::Term::RStar(ta, tb) => {
            let (x, y) = choose|x: int, y: int|
                #[trigger] g.has_node(PlanV::RStar(x, y), c1) && represents(g, *ta, x)
                    && represents(g, *tb, y);
            assert(g.has_node(PlanV::RStar(x, y), c2));
        },
    }
}

/// Seeds an e-graph with every node of the expression, sharing structure
/// through hash-consing; returns the graph and the class of the root.
fn seed_egraph(expr: &PlanExpr) -> (r: (EGraph, usize))
    requires
        expr.wf(),
        expr@.len() > 0,
    ensures
        r.0.wf(),
        r.0.congruent(),
        r.1 < r.0.n(),
        represents(r.0, term_of(expr@), r.1 as int),
        r.0.nodes@.len() <= expr@.len(),
{
    let mut g = EGraph::new();
    let mut ids: Vec<usize> = Vec::new();
    let mut i: usize = 0;
    while i < expr.nodes.len()
        invariant
            expr.wf(),
            g.wf(),
            g.congruent(),
            crate::egraph::uf_identity(g.uf@),
            ids@.len() == i,
            i <= expr@.len(),
            g.nodes@.len() <= i,
            g.n() <= i,
            forall|j: int| 0 <= j < i ==> (#[trigger] ids@[j]) < g.n(),
            forall|j: int|
                0 <= j < i ==> represents(g, term_at(expr@, j), #[trigger] ids@[j] as int),
        decreases expr@.len() - i,
    {
        let ghost pre = g;
        let node: Plan = match &expr.nodes[i] {
            Plan::Label(m) => Plan::Label(crate::plan::LabelMeta {
                name: m.name.clone(),
                nvals: m.nvals,
            }),
            Plan::Cat(a, b) => Plan::Cat(ids[*a], ids[*b]),
            Plan::Alt(a, b) => Plan::Alt(ids[*a], ids[*b]),
            Plan::Star(a) => Plan::Star(ids[*a]),
            Plan::LStar(a, b) => Plan::LStar(ids[*a], ids[*b]),
            Plan::RStar(a, b) => Plan::RStar(ids[*a], ids[*b]),
        };
        proof {
            assert(node_wf(expr@[i as int], i as int));
        }
        let c = g.add(node);
        proof {
            assert forall|j: int| 0 <= j < i implies represents(
                g,
                term_at(expr@, j),
                #[trigger] ids@[j] as int,
            ) by {
                lemma_represents_extends(pre, g, term_at(expr@, j), ids@[j] as int);
            }
            let cn = crate::egraph::canon_node(pre.uf@, node@);
            assert(g.has_node(cn, c as int));
            // the canonical children are roots of the classes the subterms sit in
            if i > 0 || true {
                match expr@[i as int] {
                    PlanV::Label(_) => {
                        assert(represents(g, term_at(expr@, i as int), c as int));
                    },
                    PlanV::Cat(a, b) => {
                        let x = rootof(pre.uf@, ids@[a] as int);
                        let y = rootof(pre.uf@, ids@[b] as int);
                        lemma_root_transfer(pre, g, ids@[a] as int);
                        lemma_root_transfer(pre, g, ids@[b] as int);
                        crate::egraph::lemma_rootof_props(pre.uf@, ids@[a] as int);
                        crate::egraph::lemma_rootof_props(pre.uf@, ids@[b] as int);
                        lemma_root_transfer(pre, g, x);
                        lemma_root_transfer(pre, g, y);
                        lemma_represents_same_root(g, term_at(expr@, a), ids@[a] as int, x);
                        lemma_represents_same_root(g, term_at(expr@, b), ids@[b] as int, y);
                        assert(g.has_node(PlanV::Cat(x, y), c as int));
                        assert(represents(g, term_at(expr@, i as int), c as int));
                    },
                    PlanV::Alt(a, b) => {
                        let x = rootof(pre.uf@, ids@[a] as int);
                        let y = rootof(pre.uf@, ids@[b] as int);
                        lemma_root_transfer(pre, g, ids@[a] as int);
                        lemma_root_transfer(pre, g, ids@[b] as int);
                        crate::egraph::lemma_rootof_props(pre.uf@, ids@[a] as int);
                        crate::egraph::lemma_rootof_props(pre.uf@, ids@[b] as int);
                        lemma_root_transfer(pre, g, x);
                        lemma_root_transfer(pre, g, y);
                        lemma_represents_same_root(g, term_at(expr@, a), ids@[a] as int, x);
                        lemma_represents_same_root(g, term_at(expr@, b), ids@[b] as int, y);
                        assert(g.has_node(PlanV::Alt(x, y), c as int));
                        assert(represents(g, term_at(expr@, i as int), c as int));
                    },
                    PlanV::Star(a) => {
                        let x = rootof(pre.uf@, ids@[a] as int);
                        lemma_root_transfer(pre, g, ids@[a] as int);
                        crate::egraph::lemma_rootof_props(pre.uf@, ids@[a] as int);
                        lemma_root_transfer(pre, g, x);
                        lemma_represents_same_root(g, term_at(expr@, a), ids@[a] as int, x);
                        assert(g.has_node(PlanV::Star(x), c as int));
                        assert(represents(g, term_at(expr@, i as int), c as int));
                    },
                    PlanV::LStar(a, b) => {
                        let x = rootof(pre.uf@, ids@[a] as int);
                        let y = rootof(pre.uf@, ids@[b] as int);
                        lemma_root_transfer(pre, g, ids@[a] as int);
                        lemma_root_transfer(pre, g, ids@[b] as int);
                        crate::egraph::lemma_rootof_props(pre.uf@, ids@[a] as int);
                        crate::egraph::lemma_rootof_props(pre.uf@, ids@[b] as int);
                        lemma_root_transfer(pre, g, x);
                        lemma_root_transfer(pre, g, y);
                        lemma_represents_same_root(g, term_at(expr@, a), ids@[a] as int, x);
                        lemma_represents_same_root(g, term_at(expr@, b), ids@[b] as int, y);
                        assert(g.has_node(PlanV::LStar(x, y), c as int));
                        assert(represents(g, term_at(expr@, i as int), c as int));
                    },
                    PlanV::RStar(a, b) => {
                        let x = rootof(pre.uf@, ids@[a] as int);
                        let y = rootof(pre.uf@, ids@[b] as int);
                        lemma_root_transfer(pre, g, ids@[a] as int);
                        lemma_root_transfer(pre, g, ids@[b] as int);
                        crate::egraph::lemma_rootof_props(pre.uf@, ids@[a] as int);
                        crate::egraph::lemma_rootof_props(pre.uf@, ids@[b] as int);
                        lemma_root_transfer(pre, g, x);
                        lemma_root_transfer(pre, g, y);
                        lemma_represents_same_root(g, term_at(expr@, a), ids@[a] as int, x);
                        lemma_represents_same_root(g, term_at(expr@, b), ids@[b] as int, y);
                        assert(g.has_node(PlanV::RStar(x, y), c as int));
                        assert(represents(g, term_at(expr@, i as int), c as int));
                    },
                }
            }
        }
        ids.push(c);
        i = i + 1;
    }
    let root = ids[ids.len() - 1];
    (g, root)
}

/// After an `add`, old ids resolve to the same root as before.
proof fn lemma_root_transfer(pre: EGraph, post: EGraph, c: int)
    requires
        pre.wf(),
        0 <= c < pre.n(),
        post.uf@ =~= pre.uf@ || post.uf@ =~= pre.uf@.push(pre.n() as usize),
    ensures
        rootof(post.uf@, c) == rootof(pre.uf@, c),
{
    if post.uf@ =~= pre.uf@.push(pre.n() as usize) {
        crate::egraph::lemma_rootof_push(pre.uf@, pre.n() as usize, c);
    }
}

/// Runs equality saturation: seeds the e-graph with the expression, then
/// applies every rule to every class, merging each matched class with its
/// instantiated replacement and restoring congruence, until a pass changes
/// nothing or a budget is hit.  Whatever stops the run, the result is a
/// well-formed, congruent e-graph that still represents the input plan.
pub fn run_rules(expr: &PlanExpr, rules: &Vec<Rule>, limits: &RunLimits) -> (r: RunReport)
    requires
        expr.wf(),
        expr@.len() > 0,
    ensures
        r.egraph.wf(),
        r.egraph.congruent(),
        r.root < r.egraph.n(),
        represents(r.egraph, term_of(expr@), r.root as int),
        r.iterations <= limits.iter_limit,
        r.stop is NodeLimit ==> r.egraph.nodes@.len() > limits.node_limit,
        r.stop is IterationLimit ==> r.iterations == limits.iter_limit,
{
    let (mut g, root) = seed_egraph(expr);
    let mut iters: usize = 0;
    let stop: StopReason;
    loop
        invariant
            g.wf(),
            g.congruent(),
            root < g.n(),
            represents(g, term_of(expr@), root as int),
            iters <= limits.iter_limit,
        ensures
            g.wf(),
            g.congruent(),
            root < g.n(),
            represents(g, term_of(expr@), root as int),
            iters <= limits.iter_limit,
            stop is NodeLimit ==> g.nodes@.len() > limits.node_limit,
            stop is IterationLimit ==> iters == limits.iter_limit,
        decreases limits.iter_limit - iters,
    {
        if g.num_nodes() > limits.node_limit {
            stop = StopReason::NodeLimit;
            break ;
        }
        if iters >= limits.iter_limit {
            stop = StopReason::IterationLimit;
            break ;
        }
        let mut changed = false;
        let mut ri: usize = 0;
        while ri < rules.len()
            invariant
                g.wf(),
                root < g.n(),
                represents(g, term_of(expr@), root as int),
                ri <= rules@.len(),
            decreases rules@.len() - ri,
        {
            // record every match of this rule before applying any of them
            let nvars = rules[ri].nvars;
            let mut matches: Vec<(Vec<Option<usize>>, usize)> = Vec::new();
            let mut c: usize = 0;
            while c < g.num_classes()
                invariant
                    g.wf(),
                    ri < rules@.len(),
                    c <= g.n(),
                    forall|mi: int|
                        0 <= mi < matches@.len() ==> subst_wf((#[trigger] matches@[mi]).0@, g.n())
                            && matches@[mi].1 < g.n(),
                decreases g.n() - c,
            {
                let rc = g.find(c);
                if rc == c {
                    let subs = match_pat(&g, &rules[ri].lhs, c, nvars);
                    let mut si: usize = 0;
                    while si < subs.len()
                        invariant
                            g.wf(),
                            c < g.n(),
                            si <= subs@.len(),
                            substs_wf(subs@, nvars as int, g.n()),
                            forall|mi: int|
                                0 <= mi < matches@.len() ==> subst_wf(
                                    (#[trigger] matches@[mi]).0@,
                                    g.n(),
                                ) && matches@[mi].1 < g.n(),
                        decreases subs@.len() - si,
                    {
                        let sub = clone_subst(&subs[si]);
                        matches.push((sub, c));
                        si = si + 1;
                    }
                }
                c = c + 1;
            }
            // apply them all
            let mut mi: usize = 0;
            while mi < matches.len()
                invariant
                    g.wf(),
                    root < g.n(),
                    represents(g, term_of(expr@), root as int),
                    ri < rules@.len(),
                    mi <= matches@.len(),
                    forall|k: int|
                        0 <= k < matches@.len() ==> subst_wf((#[trigger] matches@[k]).0@, g.n())
                            && matches@[k].1 < g.n(),
                decreases matches@.len() - mi,
            {
                let ghost pre = g;
                let inst = instantiate(&mut g, &rules[ri].rhs, &matches[mi].0);
                proof {
                    lemma_represents_extends(pre, g, term_of(expr@), root as int);
                    assert forall|k: int| 0 <= k < matches@.len() implies subst_wf(
                        (#[trigger] matches@[k]).0@,
                        g.n(),
                    ) && matches@[k].1 < g.n() by {
                        assert(subst_wf(matches@[k].0@, pre.n()));
                    }
                }
                if let Some(nc) = inst {
                    let ghost mid = g;
                    let merged = g.union(nc, matches[mi].1);
                    proof {
                        lemma_represents_extends(mid, g, term_of(expr@), root as int);
                    }
                    if merged {
                        changed = true;
                    }
                }
                mi = mi + 1;
            }
            ri = ri + 1;
        }
        let ghost before_rebuild = g;
        g.rebuild();
        proof {
            lemma_represents_extends(before_rebuild, g, term_of(expr@), root as int);
        }
        iters = iters + 1;
        if !changed {
            stop = StopReason::Saturated;
            break ;
        }
    }
    RunReport { egraph: g, root, stop, iterations: iters }
}

} // verus!
