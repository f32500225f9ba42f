//! The e-graph: a congruence-closed partition of plan nodes into
//! equivalence classes.
//!
//! A class id is an index into a union-find array; a stale id resolves to its
//! canonical representative through [`rootof`].  Nodes live in one flat store
//! tagged with the class they were added to, so membership of a node in a
//! class is always read through the union-find and merging two classes is a
//! single union-find update.  Rewriting only ever adds nodes and merges
//! classes; nothing is deleted, so saturation is monotone.
//!
//! Merges are propagated to parent nodes by rescanning for congruent pairs
//! until none is left, rather than through per-class parent lists: the scan
//! that ends a rebuild directly certifies the congruence invariant, and a
//! rebuild of an already-congruent e-graph provably changes nothing.

use vstd::prelude::*;
use crate::plan::Plan;
use crate::plan::PlanV;
use crate::plan::Term;
use crate::plan::node_wf;
use crate::plan::plan_eq;

verus! {

/// Resolves a class id to its canonical representative: follow parent links
/// while they point strictly downwards.  Total in the id, for any array.
pub open spec fn rootof(uf: Seq<usize>, i: int) -> int
    decreases i,
{
    if 0 <= i < uf.len() && uf[i] < i {
        rootof(uf, uf[i] as int)
    } else {
        i
    }
}

/// Every parent link points at the same index or an earlier one.
pub open spec fn uf_wf(uf: Seq<usize>) -> bool {
    forall|i: int| 0 <= i < uf.len() ==> uf[i] <= i
}

/// A union-find in which nothing has been merged yet.
pub open spec fn uf_identity(uf: Seq<usize>) -> bool {
    forall|i: int| 0 <= i < uf.len() ==> uf[i] == i
}

/// A node with every child reference replaced by its canonical class.
pub open spec fn canon_node(uf: Seq<usize>, n: PlanV) -> PlanV {
    match n {
        PlanV::Label(m) => PlanV::Label(m),
        PlanV::Cat(a, b) => PlanV::Cat(rootof(uf, a), rootof(uf, b)),
        PlanV::Alt(a, b) => PlanV::Alt(rootof(uf, a), rootof(uf, b)),
        PlanV::Star(a) => PlanV::Star(rootof(uf, a)),
        PlanV::LStar(a, b) => PlanV::LStar(rootof(uf, a), rootof(uf, b)),
        PlanV::RStar(a, b) => PlanV::RStar(rootof(uf, a), rootof(uf, b)),
    }
}

/// The equality-saturation state: a union-find over class ids and the flat
/// store of all nodes ever added, each tagged with its class.
pub struct EGraph {
    pub uf: Vec<usize>,
    pub nodes: Vec<(Plan, usize)>,
}

impl EGraph {
    /// Number of classes ever created (stale ids included).
    pub open spec fn n(&self) -> int {
        self.uf@.len() as int
    }

    pub open spec fn wf(&self) -> bool {
        &&& uf_wf(self.uf@)
        &&& forall|k: int|
            0 <= k < self.nodes@.len() ==> (#[trigger] self.nodes@[k]).1 < self.uf@.len()
                && node_wf(self.nodes@[k].0@, self.uf@.len() as int)
    }

    /// Is node `nd` a member of the class of `c`?
    pub open spec fn has_node(&self, nd: PlanV, c: int) -> bool {
        &&& 0 <= c < self.n()
        &&& exists|k: int|
            0 <= k < self.nodes@.len() && (#[trigger] self.nodes@[k]).0@ == nd && rootof(
                self.uf@,
                self.nodes@[k].1 as int,
            ) == rootof(self.uf@, c)
    }

    /// Congruence: two nodes that agree after canonicalizing their children
    /// always sit in the same class.
    pub open spec fn congruent(&self) -> bool {
        forall|k1: int, k2: int|
            0 <= k1 < self.nodes@.len() && 0 <= k2 < self.nodes@.len() && canon_node(
                self.uf@,
                (#[trigger] self.nodes@[k1]).0@,
            ) == canon_node(self.uf@, (#[trigger] self.nodes@[k2]).0@) ==> rootof(
                self.uf@,
                self.nodes@[k1].1 as int,
            ) == rootof(self.uf@, self.nodes@[k2].1 as int)
    }

    pub fn new() -> (g: EGraph)
        ensures
            g.wf(),
            g.n() == 0,
            g.nodes@.len() == 0,
    {
        EGraph { uf: Vec::new(), nodes: Vec::new() }
    }

    /// Total number of stored nodes, the measure the saturation budget caps.
    pub fn num_nodes(&self) -> (r: usize)
        ensures
            r == self.nodes@.len(),
    {
        self.nodes.len()
    }

    pub fn num_classes(&self) -> (r: usize)
        ensures
            r == self.n(),
    {
        self.uf.len()
    }

    /// Canonical representative of class `i`.
    pub fn find(&self, i: usize) -> (r: usize)
        requires
            self.wf(),
            i < self.n(),
        ensures
            r as int == rootof(self.uf@, i as int),
            r <= i,
            self.uf@[r as int] == r,
    {
        let mut c = i;
        while self.uf[c] != c
            invariant
                self.wf(),
                c < self.uf@.len(),
                c <= i,
                rootof(self.uf@, c as int) == rootof(self.uf@, i as int),
            decreases c,
        {
            c = self.uf[c];
        }
        c
    }
}

/// One e-graph grew out of another: every class survives (possibly merged
/// further), and every node stays in its class.  Rewriting only extends.
pub open spec fn extends(a: EGraph, b: EGraph) -> bool {
    &&& a.n() <= b.n()
    &&& forall|nd: PlanV, c: int| #[trigger] a.has_node(nd, c) ==> b.has_node(nd, c)
    &&& forall|c1: int, c2: int|
        0 <= c1 < a.n() && 0 <= c2 < a.n() && #[trigger] rootof(a.uf@, c1) == #[trigger] rootof(
            a.uf@,
            c2,
        ) ==> rootof(b.uf@, c1) == rootof(b.uf@, c2)
}

/// Extension is transitive, so a whole saturation run extends its seed.
pub proof fn lemma_extends_trans(a: EGraph, b: EGraph, c: EGraph)
    requires
        extends(a, b),
        extends(b, c),
    ensures
        extends(a, c),
{
    assert forall|nd: PlanV, d: int| #[trigger] a.has_node(nd, d) implies c.has_node(nd, d) by {
        assert(b.has_node(nd, d));
    }
}

pub proof fn lemma_extends_refl(a: EGraph)
    ensures
        extends(a, a),
{
}

/// Is the concrete plan tree `t` one of the plans the class of `c`
/// represents?  The node for each tree level must be a member of the
/// respective class, with children drawn from the referenced classes.
pub open spec fn represents(g: EGraph, t: Term, c: int) -> bool
    decreases t,
{
    match t {
        Term::Label(m) => g.has_node(PlanV::Label(m), c),
        Term::Cat(a, b) => exists|x: int, y: int|
            #[trigger] g.has_node(PlanV::Cat(x, y), c) && represents(g, *a, x) && represents(
                g,
                *b,
                y,
            ),
        Term::Alt(a, b) => exists|x: int, y: int|
            #[trigger] g.has_node(PlanV::Alt(x, y), c) && represents(g, *a, x) && represents(
                g,
                *b,
                y,
            ),
        Term::Star(a) => exists|x: int| #[trigger] g.has_node(PlanV::Star(x), c) && represents(
            g,
            *a,
            x,
        ),
        Term::LStar(a, b) => exists|x: int, y: int|
            #[trigger] g.has_node(PlanV::LStar(x, y), c) && represents(g, *a, x) && represents(
                g,
                *b,
                y,
            ),
        Term::RStar(a, b) => exists|x: int, y: int|
            #[trigger] g.has_node(PlanV::RStar(x, y), c) && represents(g, *a, x) && represents(
                g,
                *b,
                y,
            ),
    }
}

/// Whatever a class represents, it still represents after the e-graph grows:
/// saturation never loses a plan.
pub proof fn lemma_represents_extends(a: EGraph, b: EGraph, t: Term, c: int)
    requires
        extends(a, b),
        represents(a, t, c),
    ensures
        represents(b, t, c),
    decreases t,
{
    match t {
        Term::Label(_) => {},
        Term::Cat(ta, tb) => {
            let (x, y) = choose|x: int, y: int|
                #[trigger] a.has_node(PlanV::Cat(x, y), c) && represents(a, *ta, x) && represents(
                    a,
                    *tb,
                    y,
                );
            lemma_represents_extends(a, b, *ta, x);
            lemma_represents_extends(a, b, *tb, y);
            assert(b.has_node(PlanV::Cat(x, y), c));
        },
        Term::Alt(ta, tb) => {
            let (x, y) = choose|x: int, y: int|
                #[trigger] a.has_node(PlanV::Alt(x, y), c) && represents(a, *ta, x) && represents(
                    a,
                    *tb,
                    y,
                );
            lemma_represents_extends(a, b, *ta, x);
            lemma_represents_extends(a, b, *tb, y);
            assert(b.has_node(PlanV::Alt(x, y), c));
        },
        Term::Star(ta) => {
            let x = choose|x: int| #[trigger] a.has_node(PlanV::Star(x), c) && represents(
                a,
                *ta,
                x,
            );
            lemma_represents_extends(a, b, *ta, x);
            assert(b.has_node(PlanV::Star(x), c));
        },
        Term::LStar(ta, tb) => {
            let (x, y) = choose|x: int, y: int|
                #[trigger] a.has_node(PlanV::LStar(x, y), c) && represents(a, *ta, x) && represents(
                    a,
                    *tb,
                    y,
                );
            lemma_represents_extends(a, b, *ta, x);
            lemma_represents_extends(a, b, *tb, y);
            assert(b.has_node(PlanV::LStar(x, y), c));
        },
        Term::RStar(ta, tb) => {
            let (x, y) = choose|x: int, y: int|
                #[trigger] a.has_node(PlanV::RStar(x, y), c) && represents(a, *ta, x) && represents(
                    a,
                    *tb,
                    y,
                );
            lemma_represents_extends(a, b, *ta, x);
            lemma_represents_extends(a, b, *tb, y);
            assert(b.has_node(PlanV::RStar(x, y), c));
        },
    }
}

/// The canonical root is itself a fixpoint of the parent array, and no
/// larger than the id it resolves.
pub proof fn lemma_rootof_props(uf: Seq<usize>, i: int)
    requires
        uf_wf(uf),
        0 <= i < uf.len(),
    ensures
        0 <= rootof(uf, i) <= i,
        uf[rootof(uf, i)] == rootof(uf, i),
        rootof(uf, rootof(uf, i)) == rootof(uf, i),
    decreases i,
{
    if uf[i] < i {
        lemma_rootof_props(uf, uf[i] as int);
    }
}

/// Appending a fresh class leaves every existing resolution unchanged.
pub proof fn lemma_rootof_push(uf: Seq<usize>, x: usize, i: int)
    requires
        0 <= i < uf.len(),
    ensures
        rootof(uf.push(x), i) == rootof(uf, i),
    decreases i,
{
    if uf[i] < i {
        lemma_rootof_push(uf, x, uf[i] as int);
    }
}

/// Re-pointing the root `drop` at `keep` redirects exactly the ids that
/// resolved to `drop` and leaves all others alone.
pub proof fn lemma_rootof_update(uf: Seq<usize>, drop: int, keep: usize, i: int)
    requires
        uf_wf(uf),
        0 <= keep < drop < uf.len(),
        uf[drop] == drop,
        0 <= i < uf.len(),
    ensures
        rootof(uf.update(drop, keep), i) == if rootof(uf, i) == drop {
            rootof(uf, keep as int)
        } else {
            rootof(uf, i)
        },
    decreases i,
{
    let uf2 = uf.update(drop, keep);
    if i == drop {
        lemma_rootof_props(uf, keep as int);
        if rootof(uf, keep as int) == drop {
            lemma_rootof_props(uf, keep as int);
            assert(false);
        }
        lemma_rootof_update_below(uf, drop, keep, keep as int);
    } else if uf[i] < i {
        lemma_rootof_update(uf, drop, keep, uf[i] as int);
    }
}

/// Helper: ids strictly below `drop` never pass through it.
proof fn lemma_rootof_update_below(uf: Seq<usize>, drop: int, keep: usize, i: int)
    requires
        uf_wf(uf),
        0 <= keep < drop < uf.len(),
        uf[drop] == drop,
        0 <= i < drop,
    ensures
        rootof(uf.update(drop, keep), i) == rootof(uf, i),
    decreases i,
{
    if uf[i] < i {
        lemma_rootof_update_below(uf, drop, keep, uf[i] as int);
    }
}

/// Number of canonical roots among the first `k` class ids.
pub open spec fn roots_below(uf: Seq<usize>, k: int) -> nat
    decreases k,
{
    if k <= 0 {
        0
    } else {
        roots_below(uf, k - 1) + if 0 <= k - 1 < uf.len() && uf[k - 1] == k - 1 {
            1nat
        } else {
            0nat
        }
    }
}

/// Merging removes exactly one root from the count.
proof fn lemma_roots_below_update(uf: Seq<usize>, drop: int, keep: usize, k: int)
    requires
        0 <= keep < drop < uf.len(),
        uf[drop] == drop,
        0 <= k <= uf.len(),
    ensures
        roots_below(uf.update(drop, keep), k) == roots_below(uf, k) - if drop < k {
            1int
        } else {
            0int
        },
    decreases k,
{
    if k > 0 {
        lemma_roots_below_update(uf, drop, keep, k - 1);
    }
}

impl EGraph {
    /// Replaces each child reference with its canonical class.
    fn canonize(&self, node: &Plan) -> (r: Plan)
        requires
            self.wf(),
            node_wf(node@, self.n()),
        ensures
            r@ == canon_node(self.uf@, node@),
            node_wf(r@, self.n()),
    {
        proof {
            match node@ {
                PlanV::Label(_) => {},
                PlanV::Cat(a, b) => {
                    lemma_rootof_props(self.uf@, a);
                    lemma_rootof_props(self.uf@, b);
                },
                PlanV::Alt(a, b) => {
                    lemma_rootof_props(self.uf@, a);
                    lemma_rootof_props(self.uf@, b);
                },
                PlanV::Star(a) => {
                    lemma_rootof_props(self.uf@, a);
                },
                PlanV::LStar(a, b) => {
                    lemma_rootof_props(self.uf@, a);
                    lemma_rootof_props(self.uf@, b);
                },
                PlanV::RStar(a, b) => {
                    lemma_rootof_props(self.uf@, a);
                    lemma_rootof_props(self.uf@, b);
                },
            }
        }
        match node {
            Plan::Label(m) => Plan::Label(crate::plan::LabelMeta {
                name: m.name.clone(),
                nvals: m.nvals,
            }),
            Plan::Cat(a, b) => Plan::Cat(self.find(*a), self.find(*b)),
            Plan::Alt(a, b) => Plan::Alt(self.find(*a), self.find(*b)),
            Plan::Star(a) => Plan::Star(self.find(*a)),
            Plan::LStar(a, b) => Plan::LStar(self.find(*a), self.find(*b)),
            Plan::RStar(a, b) => Plan::RStar(self.find(*a), self.find(*b)),
        }
    }

    /// Scans the store for a node whose canonical form equals the (already
    /// canonical) `cn`; returns the canonical class of the first hit.
    fn lookup_canon(&self, cn: &Plan) -> (r: Option<usize>)
        requires
            self.wf(),
            node_wf(cn@, self.n()),
        ensures
            match r {
                Option::Some(c) => {
                    &&& c < self.n()
                    &&& self.uf@[c as int] == c
                    &&& exists|k: int|
                        0 <= k < self.nodes@.len() && canon_node(
                            self.uf@,
                            (#[trigger] self.nodes@[k]).0@,
                        ) == cn@ && rootof(self.uf@, self.nodes@[k].1 as int) == c
                },
                Option::None => forall|k: int|
                    0 <= k < self.nodes@.len() ==> canon_node(
                        self.uf@,
                        (#[trigger] self.nodes@[k]).0@,
                    ) != cn@,
            },
    {
        let mut k: usize = 0;
        while k < self.nodes.len()
            invariant
                self.wf(),
                node_wf(cn@, self.n()),
                k <= self.nodes@.len(),
                forall|kk: int|
                    0 <= kk < k ==> canon_node(self.uf@, (#[trigger] self.nodes@[kk]).0@) != cn@,
            decreases self.nodes@.len() - k,
        {
            let cand = self.canonize(&self.nodes[k].0);
            if plan_eq(&cand, cn) {
                let tag = self.nodes[k].1;
                let root = self.find(tag);
                return Some(root);
            }
            k = k + 1;
        }
        None
    }

    /// Adds a node, canonicalizing its children first; structurally equal
    /// nodes land in the same class (hash-consing), a new node opens a fresh
    /// class.  Returns the canonical class holding the node.
    pub fn add(&mut self, node: Plan) -> (c: usize)
        requires
            old(self).wf(),
            node_wf(node@, old(self).n()),
            old(self).n() < usize::MAX,
            old(self).nodes@.len() < usize::MAX,
        ensures
            final(self).wf(),
            extends(*old(self), *final(self)),
            final(self).uf@ =~= old(self).uf@ || final(self).uf@ =~= old(self).uf@.push(
                old(self).n() as usize,
            ),
            c < final(self).n(),
            final(self).uf@[c as int] == c,
            uf_identity(old(self).uf@) ==> final(self).has_node(
                canon_node(old(self).uf@, node@),
                c as int,
            ),
            uf_identity(old(self).uf@) ==> uf_identity(final(self).uf@),
            final(self).n() <= old(self).n() + 1,
            final(self).nodes@.len() <= old(self).nodes@.len() + 1,
            old(self).congruent() ==> final(self).congruent(),
            old(self).congruent() ==> forall|d: int|
                #[trigger] old(self).has_node(canon_node(old(self).uf@, node@), d) ==> c == rootof(
                    old(self).uf@,
                    d,
                ),
    {
        let cn = self.canonize(&node);
        proof {
            lemma_canon_idempotent(self.uf@, node@);
        }
        match self.lookup_canon(&cn) {
            Some(c) => {
                // hash-consing: the canonical node is already known; nothing
                // is stored again
                proof {
                    lemma_extends_refl(*self);
                    lemma_rootof_props(self.uf@, c as int);
                    if uf_identity(self.uf@) {
                        let k = choose|k: int|
                            0 <= k < self.nodes@.len() && canon_node(
                                self.uf@,
                                (#[trigger] self.nodes@[k]).0@,
                            ) == cn@ && rootof(self.uf@, self.nodes@[k].1 as int) == c;
                        lemma_canon_identity(self.uf@, self.nodes@[k].0@);
                        assert(self.nodes@[k].0@ == canon_node(self.uf@, node@));
                        assert(self.has_node(canon_node(self.uf@, node@), c as int));
                    }
                    if self.congruent() {
                        assert forall|d: int|
                            #[trigger] self.has_node(canon_node(self.uf@, node@), d) implies c
                            == rootof(self.uf@, d) by {
                            let k = choose|k: int|
                                0 <= k < self.nodes@.len() && (#[trigger] self.nodes@[k]).0@ == cn@
                                    && rootof(self.uf@, self.nodes@[k].1 as int) == rootof(
                                    self.uf@,
                                    d,
                                );
                            lemma_canon_idempotent(self.uf@, self.nodes@[k].0@);
                        }
                    }
                }
                c
            },
            None => {
                let ghost pre = *self;
                let c = self.uf.len();
                self.uf.push(c);
                self.nodes.push((cn, c));
                proof {
                    assert forall|i: int| 0 <= i < pre.uf@.len() implies rootof(self.uf@, i)
                        == rootof(pre.uf@, i) by {
                        lemma_rootof_push(pre.uf@, c, i);
                    }
                    assert(rootof(self.uf@, c as int) == c);
                    let ghost k0 = self.nodes@.len() - 1;
                    assert(self.nodes@[k0].0@ == canon_node(pre.uf@, node@));
                    assert(self.has_node(canon_node(pre.uf@, node@), c as int));
                    assert forall|nd: PlanV, d: int| #[trigger] pre.has_node(nd, d) implies
                        self.has_node(nd, d) by {
                        let k = choose|k: int|
                            0 <= k < pre.nodes@.len() && (#[trigger] pre.nodes@[k]).0@ == nd
                                && rootof(pre.uf@, pre.nodes@[k].1 as int) == rootof(pre.uf@, d);
                        assert(self.nodes@[k].0@ == nd);
                        assert(rootof(self.uf@, self.nodes@[k].1 as int) == rootof(self.uf@, d));
                    }
                    if pre.congruent() {
                        assert forall|k1: int, k2: int|
                            0 <= k1 < self.nodes@.len() && 0 <= k2 < self.nodes@.len()
                                && canon_node(self.uf@, (#[trigger] self.nodes@[k1]).0@)
                                == canon_node(self.uf@, (#[trigger] self.nodes@[k2]).0@) implies
                            rootof(self.uf@, self.nodes@[k1].1 as int) == rootof(
                                self.uf@,
                                self.nodes@[k2].1 as int,
                            ) by {
                            if k1 < k0 && k2 < k0 {
                                lemma_canon_push_unchanged(pre, c, self.nodes@[k1].0@);
                                lemma_canon_push_unchanged(pre, c, self.nodes@[k2].0@);
                            } else if k1 == k0 && k2 < k0 {
                                lemma_canon_push_unchanged(pre, c, self.nodes@[k2].0@);
                                lemma_canon_push_unchanged(pre, c, cn@);
                                lemma_canon_idempotent(pre.uf@, node@);
                                assert(false);
                            } else if k2 == k0 && k1 < k0 {
                                lemma_canon_push_unchanged(pre, c, self.nodes@[k1].0@);
                                lemma_canon_push_unchanged(pre, c, cn@);
                                lemma_canon_idempotent(pre.uf@, node@);
                                assert(false);
                            }
                        }
                    }
                }
                c
            },
        }
    }

    /// Merges the classes of `a` and `b`; reports whether they were
    /// distinct.  Only the union-find changes: every node keeps its tag, the
    /// merged class holds the members of both.
    pub fn union(&mut self, a: usize, b: usize) -> (merged: bool)
        requires
            old(self).wf(),
            a < old(self).n(),
            b < old(self).n(),
        ensures
            final(self).wf(),
            extends(*old(self), *final(self)),
            final(self).n() == old(self).n(),
            final(self).nodes@ == old(self).nodes@,
            rootof(final(self).uf@, a as int) == rootof(final(self).uf@, b as int),
            merged == (rootof(old(self).uf@, a as int) != rootof(old(self).uf@, b as int)),
            !merged ==> final(self).uf@ == old(self).uf@,
            merged ==> roots_below(final(self).uf@, final(self).n()) < roots_below(
                old(self).uf@,
                old(self).n(),
            ),
            forall|c: int|
                0 <= c < old(self).n() ==> rootof(final(self).uf@, c) == (
                if rootof(old(self).uf@, c) == rootof(old(self).uf@, a as int) || rootof(old(self).uf@, c)
                    == rootof(old(self).uf@, b as int) {
                    rootof(final(self).uf@, a as int)
                } else {
                    rootof(old(self).uf@, c)
                }),
    {
        let ra = self.find(a);
        let rb = self.find(b);
        if ra == rb {
            proof {
                lemma_rootof_props(self.uf@, a as int);
            }
            return false;
        }
        let (keep, drop) = if ra < rb {
            (ra, rb)
        } else {
            (rb, ra)
        };
        let ghost pre = *self;
        self.uf.set(drop, keep);
        proof {
            assert(pre.uf@[drop as int] == drop);
            assert(self.uf@ =~= pre.uf@.update(drop as int, keep));
            assert forall|i: int| 0 <= i < pre.uf@.len() implies rootof(self.uf@, i) == (
            if rootof(pre.uf@, i) == drop {
                keep as int
            } else {
                rootof(pre.uf@, i)
            }) by {
                lemma_rootof_update(pre.uf@, drop as int, keep, i);
                lemma_rootof_props(pre.uf@, keep as int);
            }
            lemma_roots_below_update(pre.uf@, drop as int, keep, pre.uf@.len() as int);
            assert forall|nd: PlanV, d: int| #[trigger] pre.has_node(nd, d) implies self.has_node(
                nd,
                d,
            ) by {
                let k = choose|k: int|
                    0 <= k < pre.nodes@.len() && (#[trigger] pre.nodes@[k]).0@ == nd && rootof(
                        pre.uf@,
                        pre.nodes@[k].1 as int,
                    ) == rootof(pre.uf@, d);
                assert(self.nodes@[k].0@ == nd);
            }
        }
        true
    }

    /// Searches for two nodes that are congruent (equal after
    /// canonicalizing children) yet sit in different classes.  Canonical
    /// forms and class roots are computed once up front.
    fn find_congruence_pair(&self) -> (r: Option<(usize, usize)>)
        requires
            self.wf(),
        ensures
            match r {
                Option::None => self.congruent(),
                Option::Some((a, b)) => a < self.n() && b < self.n() && rootof(self.uf@, a as int)
                    != rootof(self.uf@, b as int) && !self.congruent(),
            },
    {
        let mut canon: Vec<Plan> = Vec::new();
        let mut roots: Vec<usize> = Vec::new();
        let mut k: usize = 0;
        while k < self.nodes.len()
            invariant
                self.wf(),
                k <= self.nodes@.len(),
                canon@.len() == k,
                roots@.len() == k,
                forall|kk: int|
                    0 <= kk < k ==> (#[trigger] canon@[kk])@ == canon_node(
                        self.uf@,
                        self.nodes@[kk].0@,
                    ),
                forall|kk: int|
                    0 <= kk < k ==> (#[trigger] roots@[kk]) as int == rootof(
                        self.uf@,
                        self.nodes@[kk].1 as int,
                    ),
            decreases self.nodes@.len() - k,
        {
            let cn = self.canonize(&self.nodes[k].0);
            let rt = self.find(self.nodes[k].1);
            canon.push(cn);
            roots.push(rt);
            k = k + 1;
        }
        let mut k1: usize = 0;
        while k1 < self.nodes.len()
            invariant
                self.wf(),
                k1 <= self.nodes@.len(),
                canon@.len() == self.nodes@.len(),
                roots@.len() == self.nodes@.len(),
                forall|kk: int|
                    0 <= kk < self.nodes@.len() ==> (#[trigger] canon@[kk])@ == canon_node(
                        self.uf@,
                        self.nodes@[kk].0@,
                    ),
                forall|kk: int|
                    0 <= kk < self.nodes@.len() ==> (#[trigger] roots@[kk]) as int == rootof(
                        self.uf@,
                        self.nodes@[kk].1 as int,
                    ),
                forall|i1: int, i2: int|
                    0 <= i1 < k1 && 0 <= i2 < self.nodes@.len() && canon_node(
                        self.uf@,
                        (#[trigger] self.nodes@[i1]).0@,
                    ) == canon_node(self.uf@, (#[trigger] self.nodes@[i2]).0@) ==> rootof(
                        self.uf@,
                        self.nodes@[i1].1 as int,
                    ) == rootof(self.uf@, self.nodes@[i2].1 as int),
            decreases self.nodes@.len() - k1,
        {
            let mut k2: usize = 0;
            while k2 < self.nodes.len()
                invariant
                    self.wf(),
                    k1 < self.nodes@.len(),
                    k2 <= self.nodes@.len(),
                    canon@.len() == self.nodes@.len(),
                    roots@.len() == self.nodes@.len(),
                    forall|kk: int|
                        0 <= kk < self.nodes@.len() ==> (#[trigger] canon@[kk])@ == canon_node(
                            self.uf@,
                            self.nodes@[kk].0@,
                        ),
                    forall|kk: int|
                        0 <= kk < self.nodes@.len() ==> (#[trigger] roots@[kk]) as int == rootof(
                            self.uf@,
                            self.nodes@[kk].1 as int,
                        ),
                    forall|i2: int|
                        0 <= i2 < k2 && canon_node(self.uf@, self.nodes@[k1 as int].0@)
                            == canon_node(self.uf@, (#[trigger] self.nodes@[i2]).0@) ==> rootof(
                            self.uf@,
                            self.nodes@[k1 as int].1 as int,
                        ) == rootof(self.uf@, self.nodes@[i2].1 as int),
                decreases self.nodes@.len() - k2,
            {
                if roots[k1] != roots[k2] {
                    if plan_eq(&canon[k1], &canon[k2]) {
                        proof {
                            lemma_rootof_props(self.uf@, self.nodes@[k1 as int].1 as int);
                            lemma_rootof_props(self.uf@, self.nodes@[k2 as int].1 as int);
                            assert(canon_node(self.uf@, self.nodes@[k1 as int].0@) == canon_node(
                                self.uf@,
                                self.nodes@[k2 as int].0@,
                            ));
                            assert(!self.congruent());
                        }
                        return Some((roots[k1], roots[k2]));
                    }
                }
                k2 = k2 + 1;
            }
            k1 = k1 + 1;
        }
        None
    }

    /// Restores congruence after unions: repeatedly merge classes holding
    /// congruent nodes until no such pair is left.  This is the
    /// rebuild-to-fixpoint step; each merge can expose further merges, and
    /// the loop runs until none remains.
    pub fn rebuild(&mut self)
        requires
            old(self).wf(),
        ensures
            final(self).wf(),
            extends(*old(self), *final(self)),
            final(self).congruent(),
            final(self).n() == old(self).n(),
            final(self).nodes@ == old(self).nodes@,
            old(self).congruent() ==> *final(self) == *old(self),
    {
        let ghost orig = *self;
        proof {
            lemma_extends_refl(orig);
        }
        loop
            invariant
                orig == *old(self),
                self.wf(),
                extends(orig, *self),
                self.n() == orig.n(),
                self.nodes@ == orig.nodes@,
                orig.congruent() ==> *self == orig,
            decreases roots_below(self.uf@, self.n()),
        {
            match self.find_congruence_pair() {
                None => {
                    return ;
                },
                Some((a, b)) => {
                    let ghost pre = *self;
                    self.union(a, b);
                    proof {
                        lemma_extends_trans(orig, pre, *self);
                    }
                },
            }
        }
    }
}

/// Canonicalizing twice is the same as once.
pub proof fn lemma_canon_idempotent(uf: Seq<usize>, n: PlanV)
    requires
        uf_wf(uf),
        node_wf(n, uf.len() as int),
    ensures
        canon_node(uf, canon_node(uf, n)) == canon_node(uf, n),
{
    match n {
        PlanV::Label(_) => {},
        PlanV::Cat(a, b) => {
            lemma_rootof_props(uf, a);
            lemma_rootof_props(uf, b);
        },
        PlanV::Alt(a, b) => {
            lemma_rootof_props(uf, a);
            lemma_rootof_props(uf, b);
        },
        PlanV::Star(a) => {
            lemma_rootof_props(uf, a);
        },
        PlanV::LStar(a, b) => {
            lemma_rootof_props(uf, a);
            lemma_rootof_props(uf, b);
        },
        PlanV::RStar(a, b) => {
            lemma_rootof_props(uf, a);
            lemma_rootof_props(uf, b);
        },
    }
}

/// Before any merge, canonicalization changes nothing.
pub proof fn lemma_canon_identity(uf: Seq<usize>, n: PlanV)
    requires
        uf_identity(uf),
        node_wf(n, uf.len() as int),
    ensures
        canon_node(uf, n) == n,
{
}

/// Appending a fresh class changes no canonical form of an existing node.
proof fn lemma_canon_push_unchanged(g: EGraph, x: usize, n: PlanV)
    requires
        g.wf(),
        node_wf(n, g.n()),
    ensures
        canon_node(g.uf@.push(x), n) == canon_node(g.uf@, n),
{
    match n {
        PlanV::Label(_) => {},
        PlanV::Cat(a, b) => {
            lemma_rootof_push(g.uf@, x, a);
            lemma_rootof_push(g.uf@, x, b);
        },
        PlanV::Alt(a, b) => {
            lemma_rootof_push(g.uf@, x, a);
            lemma_rootof_push(g.uf@, x, b);
        },
        PlanV::Star(a) => {
            lemma_rootof_push(g.uf@, x, a);
        },
        PlanV::LStar(a, b) => {
            lemma_rootof_push(g.uf@, x, a);
            lemma_rootof_push(g.uf@, x, b);
        },
        PlanV::RStar(a, b) => {
            lemma_rootof_push(g.uf@, x, a);
            lemma_rootof_push(g.uf@, x, b);
        },
    }
}

} // verus!
