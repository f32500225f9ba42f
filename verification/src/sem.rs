//! Relational semantics of plans, and soundness of the rewrite rules.
//!
//! A plan denotes a relation over vertices, given an environment assigning
//! each label name the relation of its matrix: sequential composition is
//! relational composition, alternation is union, and star is the
//! reflexive-transitive closure.  The fused star forms denote exactly the
//! compositions they abbreviate.  The soundness theorem shows that both
//! sides of every rewrite rule denote the same relation under every variable
//! assignment and every environment — the core contract of the rule set.

use vstd::prelude::*;
use crate::plan::Term;
use crate::rules::PatV;
use crate::rules::spec_rules;

verus! {

/// A relation over vertices: the mathematical reading of a sparse boolean
/// matrix.
pub type Rel = Set<(int, int)>;

/// Relational composition: a path through some intermediate vertex.
pub open spec fn compose(r: Rel, s: Rel) -> Rel {
    Set::new(|p: (int, int)| exists|y: int| r.contains((p.0, y)) && s.contains((y, p.1)))
}

/// The identity relation (paths of length zero).
pub open spec fn rid() -> Rel {
    Set::new(|p: (int, int)| p.0 == p.1)
}

/// Paths of exactly `k` steps through `r`.
pub open spec fn rpow(r: Rel, k: nat) -> Rel
    decreases k,
{
    if k == 0 {
        rid()
    } else {
        compose(r, rpow(r, (k - 1) as nat))
    }
}

/// Reflexive-transitive closure: paths of any length.
pub open spec fn rclosure(r: Rel) -> Rel {
    Set::new(|p: (int, int)| exists|k: nat| rpow(r, k).contains(p))
}

/// The relation a plan tree denotes under a label environment; an unknown
/// label denotes the empty relation (compilation rules such labels out).
pub open spec fn sem(t: Term, env: Map<Seq<char>, Rel>) -> Rel
    decreases t,
{
    match t {
        Term::Label(m) => if env.dom().contains(m.name) {
            env[m.name]
        } else {
            Set::empty()
        },
        Term::Cat(a, b) => compose(sem(*a, env), sem(*b, env)),
        Term::Alt(a, b) => sem(*a, env).union(sem(*b, env)),
        Term::Star(a) => rclosure(sem(*a, env)),
        Term::LStar(a, b) => compose(rclosure(sem(*a, env)), sem(*b, env)),
        Term::RStar(a, b) => compose(sem(*a, env), rclosure(sem(*b, env))),
    }
}

/// Relational composition is associative.
pub proof fn lemma_compose_assoc(r: Rel, s: Rel, t: Rel)
    ensures
        compose(r, compose(s, t)) == compose(compose(r, s), t),
{
    let lhs = compose(r, compose(s, t));
    let rhs = compose(compose(r, s), t);
    assert forall|p: (int, int)| lhs.contains(p) implies rhs.contains(p) by {
        let y = choose|y: int| r.contains((p.0, y)) && compose(s, t).contains((y, p.1));
        let z = choose|z: int| s.contains((y, z)) && t.contains((z, p.1));
        assert(compose(r, s).contains((p.0, z))) by {
            let q = (p.0, z);
            assert(r.contains((q.0, y)) && s.contains((y, q.1)));
        }
        assert(compose(r, s).contains((p.0, z)) && t.contains((z, p.1)));
    }
    assert forall|p: (int, int)| rhs.contains(p) implies lhs.contains(p) by {
        let z = choose|z: int| compose(r, s).contains((p.0, z)) && t.contains((z, p.1));
        let y = choose|y: int| r.contains((p.0, y)) && s.contains((y, z));
        assert(compose(s, t).contains((y, p.1))) by {
            let q = (y, p.1);
            assert(s.contains((q.0, z)) && t.contains((z, q.1)));
        }
        assert(r.contains((p.0, y)) && compose(s, t).contains((y, p.1)));
    }
    assert(lhs =~= rhs);
}

/// Composition distributes over union on the right.
pub proof fn lemma_compose_dist_right(r: Rel, s: Rel, t: Rel)
    ensures
        compose(r, s.union(t)) == compose(r, s).union(compose(r, t)),
{
    let lhs = compose(r, s.union(t));
    let rhs = compose(r, s).union(compose(r, t));
    assert forall|p: (int, int)| lhs.contains(p) implies rhs.contains(p) by {
        let y = choose|y: int| r.contains((p.0, y)) && s.union(t).contains((y, p.1));
        if s.contains((y, p.1)) {
            assert(r.contains((p.0, y)) && s.contains((y, p.1)));
            assert(compose(r, s).contains(p));
        } else {
            assert(r.contains((p.0, y)) && t.contains((y, p.1)));
            assert(compose(r, t).contains(p));
        }
    }
    assert forall|p: (int, int)| rhs.contains(p) implies lhs.contains(p) by {
        if compose(r, s).contains(p) {
            let y = choose|y: int| r.contains((p.0, y)) && s.contains((y, p.1));
            assert(r.contains((p.0, y)) && s.union(t).contains((y, p.1)));
        } else {
            let y = choose|y: int| r.contains((p.0, y)) && t.contains((y, p.1));
            assert(r.contains((p.0, y)) && s.union(t).contains((y, p.1)));
        }
    }
    assert(lhs =~= rhs);
}

/// Composition distributes over union on the left.
pub proof fn lemma_compose_dist_left(r: Rel, s: Rel, t: Rel)
    ensures
        compose(r.union(s), t) == compose(r, t).union(compose(s, t)),
{
    let lhs = compose(r.union(s), t);
    let rhs = compose(r, t).union(compose(s, t));
    assert forall|p: (int, int)| lhs.contains(p) implies rhs.contains(p) by {
        let y = choose|y: int| r.union(s).contains((p.0, y)) && t.contains((y, p.1));
        if r.contains((p.0, y)) {
            assert(r.contains((p.0, y)) && t.contains((y, p.1)));
            assert(compose(r, t).contains(p));
        } else {
            assert(s.contains((p.0, y)) && t.contains((y, p.1)));
            assert(compose(s, t).contains(p));
        }
    }
    assert forall|p: (int, int)| rhs.contains(p) implies lhs.contains(p) by {
        if compose(r, t).contains(p) {
            let y = choose|y: int| r.contains((p.0, y)) && t.contains((y, p.1));
            assert(r.union(s).contains((p.0, y)) && t.contains((y, p.1)));
        } else {
            let y = choose|y: int| s.contains((p.0, y)) && t.contains((y, p.1));
            assert(r.union(s).contains((p.0, y)) && t.contains((y, p.1)));
        }
    }
    assert(lhs =~= rhs);
}

/// A pattern side written out as a plan tree under a variable assignment.
pub open spec fn pat_term(p: PatV, s: spec_fn(int) -> Term) -> Term
    decreases p,
{
    match p {
        PatV::Var(v) => s(v),
        PatV::Cat(a, b) => Term::Cat(Box::new(pat_term(*a, s)), Box::new(pat_term(*b, s))),
        PatV::Alt(a, b) => Term::Alt(Box::new(pat_term(*a, s)), Box::new(pat_term(*b, s))),
        PatV::Star(a) => Term::Star(Box::new(pat_term(*a, s))),
        PatV::LStar(a, b) => Term::LStar(Box::new(pat_term(*a, s)), Box::new(pat_term(*b, s))),
        PatV::RStar(a, b) => Term::RStar(Box::new(pat_term(*a, s)), Box::new(pat_term(*b, s))),
    }
}

/// Rewrite soundness: for every rule of the set, under every assignment of
/// plans to its variables and every label environment, the left- and
/// right-hand sides denote the same relation — rewriting never changes the
/// answer of a query.
pub proof fn lemma_rules_sound(i: int, s: spec_fn(int) -> Term, env: Map<Seq<char>, Rel>)
    requires
        0 <= i < spec_rules().len(),
    ensures
        sem(pat_term(spec_rules()[i].lhs, s), env) == sem(pat_term(spec_rules()[i].rhs, s), env),
{
    if i == 0 {
        lemma_rule_sound_case(i, s, env, 0);
    } else if i == 1 {
        lemma_rule_sound_case(i, s, env, 1);
    } else if i == 2 {
        lemma_rule_sound_case(i, s, env, 2);
    } else if i == 3 {
        lemma_rule_sound_case(i, s, env, 3);
    } else if i == 4 {
        lemma_rule_sound_case(i, s, env, 4);
    } else if i == 5 {
        lemma_rule_sound_case(i, s, env, 5);
    } else if i == 6 {
        lemma_rule_sound_case(i, s, env, 6);
    } else {
        lemma_rule_sound_case(i, s, env, 7);
    }
}

/// One case of the soundness theorem, dispatched on a literal index so each
/// rule is unfolded in isolation.
#[verifier::rlimit(100)]
#[verifier::spinoff_prover]
proof fn lemma_rule_sound_case(i: int, s: spec_fn(int) -> Term, env: Map<Seq<char>, Rel>, which: u8)
    requires
        0 <= i < spec_rules().len(),
        i == which as int,
        which < 8,
    ensures
        sem(pat_term(spec_rules()[i].lhs, s), env) == sem(pat_term(spec_rules()[i].rhs, s), env),
{
    reveal_with_fuel(pat_term, 5);
    reveal_with_fuel(sem, 5);
    let sa = sem(s(0), env);
    let sb = sem(s(1), env);
    let sc = sem(s(2), env);
    if which == 0u8 {
        assert(spec_rules()[i] == crate::rules::rule_cat_assoc_left());
        lemma_compose_assoc(sa, sb, sc);
    } else if which == 1u8 {
        assert(spec_rules()[i] == crate::rules::rule_cat_assoc_right());
        lemma_compose_assoc(sa, sb, sc);
    } else if which == 2u8 {
        assert(spec_rules()[i] == crate::rules::rule_alt_commute());
        assert(sa.union(sb) =~= sb.union(sa));
    } else if which == 3u8 {
        assert(spec_rules()[i] == crate::rules::rule_alt_assoc());
        assert(sa.union(sb.union(sc)) =~= sa.union(sb).union(sc));
    } else if which == 4u8 {
        assert(spec_rules()[i] == crate::rules::rule_dist_right());
        lemma_compose_dist_right(sa, sb, sc);
    } else if which == 5u8 {
        assert(spec_rules()[i] == crate::rules::rule_dist_left());
        lemma_compose_dist_left(sa, sb, sc);
    } else if which == 6u8 {
        assert(spec_rules()[i] == crate::rules::rule_fuse_rstar());
    } else {
        assert(spec_rules()[i] == crate::rules::rule_fuse_lstar());
    }
}

} // verus!
