//! The graph's statistics tables and the query compiler.
//!
//! The optimizer never touches the matrices themselves; what it needs from
//! the loaded graph is the entry-count estimate of each edge label and the
//! index of each named vertex, held here as plain tables.  The compiler
//! lowers a parsed query onto the plan language: patterns translate
//! structurally, one-or-more desugars into "once, then any number" sharing
//! the compiled operand, and a constant endpoint becomes a synthetic
//! selector label of estimated size one wrapped around the pattern plan.
//! Optional segments and queries with both endpoints bound are rejected,
//! never silently mishandled.

use vstd::prelude::*;
use crate::plan::LabelMeta;
use crate::plan::LabelMetaV;
use crate::plan::Plan;
use crate::plan::PlanExpr;
use crate::plan::PlanV;
use crate::plan::Term;
use crate::plan::term_at;
use crate::plan::term_of;
use crate::plan::lemma_term_at_extend;
use crate::query::Pattern;
use crate::query::PatternV;
use crate::query::Query;
use crate::query::QueryV;
use crate::query::Vertex;
use crate::query::VertexV;

verus! {

/// Why a query could not be compiled to a plan.
#[derive(Debug)]
pub enum CompileError {
    /// The pattern names a label with no known size estimate.
    UnknownLabel(String),
    /// The query uses an unsupported form: an optional (`?`) segment, or
    /// both endpoints bound to constants.
    Unsupported,
}

pub enum CompileErrorV {
    UnknownLabel(Seq<char>),
    Unsupported,
}

impl View for CompileError {
    type V = CompileErrorV;

    open spec fn view(&self) -> CompileErrorV {
        match self {
            CompileError::UnknownLabel(s) => CompileErrorV::UnknownLabel(s@),
            CompileError::Unsupported => CompileErrorV::Unsupported,
        }
    }
}

/// The mapping a name table denotes; a repeated key keeps its last entry.
pub open spec fn table_view(s: Seq<(String, usize)>) -> Map<Seq<char>, nat>
    decreases s.len(),
{
    if s.len() == 0 {
        Map::empty()
    } else {
        table_view(s.drop_last()).insert(s.last().0@, s.last().1 as nat)
    }
}

/// Looks a name up in a table.
pub fn table_get(t: &Vec<(String, usize)>, key: &String) -> (r: Option<usize>)
    ensures
        match r {
            Option::Some(v) => table_view(t@).contains_key(key@) && table_view(t@)[key@]
                == v as nat,
            Option::None => !table_view(t@).contains_key(key@),
        },
{
    let mut acc: Option<usize> = None;
    let mut i: usize = 0;
    while i < t.len()
        invariant
            i <= t@.len(),
            match acc {
                Option::Some(v) => table_view(t@.subrange(0, i as int)).contains_key(key@)
                    && table_view(t@.subrange(0, i as int))[key@] == v as nat,
                Option::None => !table_view(t@.subrange(0, i as int)).contains_key(key@),
            },
        decreases t@.len() - i,
    {
        proof {
            assert(t@.subrange(0, i + 1).drop_last() =~= t@.subrange(0, i as int));
            assert(t@.subrange(0, i + 1).last() == t@[i as int]);
        }
        if t[i].0 == *key {
            acc = Some(t[i].1);
        }
        i = i + 1;
    }
    proof {
        assert(t@.subrange(0, t@.len() as int) =~= t@);
    }
    acc
}

/// The loaded graph as the optimizer sees it: per edge label the number of
/// entries its matrix holds, and per named vertex its 1-based index.  The
/// matrices themselves stay with the evaluation engine, keyed by the same
/// names.
pub struct Graph {
    pub nvals: Vec<(String, usize)>,
    pub verts: Vec<(String, usize)>,
}

/// Number of plan nodes compiling a pattern can add.
pub open spec fn psize(p: PatternV) -> nat
    decreases p,
{
    match p {
        PatternV::Uri(_) => 1,
        PatternV::Cat(a, b) => 1 + psize(*a) + psize(*b),
        PatternV::Alt(a, b) => 1 + psize(*a) + psize(*b),
        PatternV::Star(a) => 1 + psize(*a),
        PatternV::Plus(a) => 2 + psize(*a),
        PatternV::Opt(_) => 0,
    }
}

/// What compiling a pattern yields: the structural translation, or the
/// first error found recursing left before right.
pub open spec fn spec_plan(p: PatternV, sizes: Map<Seq<char>, nat>) -> Result<Term, CompileErrorV>
    decreases p,
{
    match p {
        PatternV::Uri(name) => if sizes.contains_key(name) {
            Ok(Term::Label(LabelMetaV { name, nvals: sizes[name] }))
        } else {
            Err(CompileErrorV::UnknownLabel(name))
        },
        PatternV::Cat(a, b) => match spec_plan(*a, sizes) {
            Ok(ta) => match spec_plan(*b, sizes) {
                Ok(tb) => Ok(Term::Cat(Box::new(ta), Box::new(tb))),
                Err(e) => Err(e),
            },
            Err(e) => Err(e),
        },
        PatternV::Alt(a, b) => match spec_plan(*a, sizes) {
            Ok(ta) => match spec_plan(*b, sizes) {
                Ok(tb) => Ok(Term::Alt(Box::new(ta), Box::new(tb))),
                Err(e) => Err(e),
            },
            Err(e) => Err(e),
        },
        PatternV::Star(a) => match spec_plan(*a, sizes) {
            Ok(ta) => Ok(Term::Star(Box::new(ta))),
            Err(e) => Err(e),
        },
        PatternV::Plus(a) => match spec_plan(*a, sizes) {
            Ok(ta) => Ok(Term::Cat(Box::new(ta), Box::new(Term::Star(Box::new(ta))))),
            Err(e) => Err(e),
        },
        PatternV::Opt(_) => Err(CompileErrorV::Unsupported),
    }
}

/// One-or-more desugars to "once, then any number": compiling `Plus(p)`
/// yields exactly the plan of `Cat(p, Star(p))`.
pub proof fn lemma_plus_desugar(p: PatternV, sizes: Map<Seq<char>, nat>)
    ensures
        spec_plan(PatternV::Plus(Box::new(p)), sizes) == spec_plan(
            PatternV::Cat(Box::new(p), Box::new(PatternV::Star(Box::new(p)))),
            sizes,
        ),
{
    reveal_with_fuel(spec_plan, 3);
}

/// What compiling a whole query yields: the pattern plan, wrapped in a
/// selector of estimated size one for a constant endpoint; queries binding
/// both endpoints are unsupported.
pub open spec fn spec_run(q: QueryV, sizes: Map<Seq<char>, nat>) -> Result<Term, CompileErrorV> {
    match (q.src, q.dest) {
        (VertexV::Any, VertexV::Any) => spec_plan(q.pattern, sizes),
        (VertexV::Con(name), VertexV::Any) => match spec_plan(q.pattern, sizes) {
            Ok(t) => Ok(
                Term::Cat(Box::new(Term::Label(LabelMetaV { name, nvals: 1 })), Box::new(t)),
            ),
            Err(e) => Err(e),
        },
        (VertexV::Any, VertexV::Con(name)) => match spec_plan(q.pattern, sizes) {
            Ok(t) => Ok(
                Term::Cat(Box::new(t), Box::new(Term::Label(LabelMetaV { name, nvals: 1 }))),
            ),
            Err(e) => Err(e),
        },
        (VertexV::Con(_), VertexV::Con(_)) => Err(CompileErrorV::Unsupported),
    }
}

impl Graph {
    pub fn new(nvals: Vec<(String, usize)>, verts: Vec<(String, usize)>) -> (g: Graph)
        ensures
            g.nvals@ == nvals@,
            g.verts@ == verts@,
    {
        Graph { nvals, verts }
    }

    /// Compiles one pattern into the expression, returning the index of its
    /// root node; existing nodes are never touched.
    fn plan_aux(&self, expr: &mut PlanExpr, pattern: &Pattern) -> (r: Result<usize, CompileError>)
        requires
            old(expr).wf(),
            old(expr)@.len() + psize(pattern@) <= usize::MAX,
        ensures
            final(expr).wf(),
            old(expr)@.len() <= final(expr)@.len(),
            final(expr)@.len() <= old(expr)@.len() + psize(pattern@),
            forall|j: int| 0 <= j < old(expr)@.len() ==> final(expr)@[j] == old(expr)@[j],
            match r {
                Result::Ok(idx) => {
                    &&& idx == final(expr)@.len() - 1
                    &&& idx < final(expr)@.len()
                    &&& spec_plan(pattern@, table_view(self.nvals@)) is Ok
                    &&& term_at(final(expr)@, idx as int) == spec_plan(
                        pattern@,
                        table_view(self.nvals@),
                    )->Ok_0
                },
                Result::Err(e) => spec_plan(pattern@, table_view(self.nvals@)) == Err::<
                    Term,
                    CompileErrorV,
                >(e@),
            },
        decreases pattern,
    {
        match pattern {
            Pattern::Uri(name) => match table_get(&self.nvals, name) {
                Some(nv) => {
                    let idx = expr.add(Plan::Label(LabelMeta { name: name.clone(), nvals: nv }));
                    Ok(idx)
                },
                None => Err(CompileError::UnknownLabel(name.clone())),
            },
            Pattern::Cat(a, b) => {
                let ghost pre = *expr;
                let ia = match self.plan_aux(expr, a) {
                    Ok(i) => i,
                    Err(e) => {
                        return Err(e);
                    },
                };
                let ghost mid = expr;
                let ib = match self.plan_aux(expr, b) {
                    Ok(i) => i,
                    Err(e) => {
                        return Err(e);
                    },
                };
                let ghost mid2 = *expr;
                let idx = expr.add(Plan::Cat(ia, ib));
                proof {
                    lemma_term_at_extend(mid@, mid2@, ia as int);
                    lemma_term_at_extend(mid2@, expr@, ia as int);
                    lemma_term_at_extend(mid2@, expr@, ib as int);
                }
                Ok(idx)
            },
            Pattern::Alt(a, b) => {
                let ghost pre = *expr;
                let ia = match self.plan_aux(expr, a) {
                    Ok(i) => i,
                    Err(e) => {
                        return Err(e);
                    },
                };
                let ghost mid = expr;
                let ib = match self.plan_aux(expr, b) {
                    Ok(i) => i,
                    Err(e) => {
                        return Err(e);
                    },
                };
                let ghost mid2 = *expr;
                let idx = expr.add(Plan::Alt(ia, ib));
                proof {
                    lemma_term_at_extend(mid@, mid2@, ia as int);
                    lemma_term_at_extend(mid2@, expr@, ia as int);
                    lemma_term_at_extend(mid2@, expr@, ib as int);
                }
                Ok(idx)
            },
            Pattern::Star(a) => {
                let ia = match self.plan_aux(expr, a) {
                    Ok(i) => i,
                    Err(e) => {
                        return Err(e);
                    },
                };
                let ghost mid2 = *expr;
                let idx = expr.add(Plan::Star(ia));
                proof {
                    lemma_term_at_extend(mid2@, expr@, ia as int);
                }
                Ok(idx)
            },
            Pattern::Plus(a) => {
                // one-or-more: the operand once, then its star, sharing the
                // compiled operand by reference
                let ia = match self.plan_aux(expr, a) {
                    Ok(i) => i,
                    Err(e) => {
                        return Err(e);
                    },
                };
                let ghost mid2 = *expr;
                let aux = expr.add(Plan::Star(ia));
                let ghost mid3 = *expr;
                let idx = expr.add(Plan::Cat(ia, aux));
                proof {
                    lemma_term_at_extend(mid2@, mid3@, ia as int);
                    lemma_term_at_extend(mid3@, expr@, ia as int);
                    lemma_term_at_extend(mid3@, expr@, aux as int);
                }
                Ok(idx)
            },
            Pattern::Opt(_) => Err(CompileError::Unsupported),
        }
    }

    /// Compiles one query into a plan expression whose last node is the
    /// root: exactly the term [`spec_run`] assigns, or exactly its error.
    /// The precondition only asks that the compiled plan fit the address
    /// space, which holds of any pattern that exists in memory.
    pub fn run(&self, query: &Query) -> (r: Result<PlanExpr, CompileError>)
        requires
            psize(query.pattern@) + 3 <= usize::MAX,
        ensures
            match r {
                Result::Ok(e) => {
                    &&& e.wf()
                    &&& e@.len() > 0
                    &&& spec_run(query@, table_view(self.nvals@)) is Ok
                    &&& term_of(e@) == spec_run(query@, table_view(self.nvals@))->Ok_0
                },
                Result::Err(err) => spec_run(query@, table_view(self.nvals@)) == Err::<
                    Term,
                    CompileErrorV,
                >(err@),
            },
    {
        let mut expr = PlanExpr::new();
        match (&query.src, &query.dest) {
            (Vertex::Any, Vertex::Any) => {
                match self.plan_aux(&mut expr, &query.pattern) {
                    Ok(idx) => {
                        proof {
                            assert(query@.src is Any && query@.dest is Any);
                            assert(term_of(expr@) == spec_plan(
                                query@.pattern,
                                table_view(self.nvals@),
                            )->Ok_0);
                        }
                        Ok(expr)
                    },
                    Err(e) => Err(e),
                }
            },
            (Vertex::Con(name), Vertex::Any) => {
                let sel = expr.add(
                    Plan::Label(LabelMeta { name: name.clone(), nvals: 1 }),
                );
                match self.plan_aux(&mut expr, &query.pattern) {
                    Ok(idx) => {
                        let ghost mid = expr;
                        let root = expr.add(Plan::Cat(sel, idx));
                        proof {
                            lemma_term_at_extend(mid@, expr@, sel as int);
                            lemma_term_at_extend(mid@, expr@, idx as int);
                            assert(root == expr@.len() - 1);
                            assert(term_at(expr@, sel as int) == Term::Label(
                                LabelMetaV { name: query@.src->Con_0, nvals: 1 },
                            ));
                            assert(term_of(expr@) == spec_run(
                                query@,
                                table_view(self.nvals@),
                            )->Ok_0);
                        }
                        Ok(expr)
                    },
                    Err(e) => Err(e),
                }
            },
            (Vertex::Any, Vertex::Con(name)) => {
                match self.plan_aux(&mut expr, &query.pattern) {
                    Ok(idx) => {
                        let ghost m0 = expr;
                        let sel = expr.add(
                            Plan::Label(LabelMeta { name: name.clone(), nvals: 1 }),
                        );
                        let ghost mid = expr;
                        let root = expr.add(Plan::Cat(idx, sel));
                        proof {
                            lemma_term_at_extend(m0@, mid@, idx as int);
                            lemma_term_at_extend(mid@, expr@, sel as int);
                            lemma_term_at_extend(mid@, expr@, idx as int);
                            assert(root == expr@.len() - 1);
                            assert(mid@[sel as int] == PlanV::Label(
                                LabelMetaV { name: query@.dest->Con_0, nvals: 1 },
                            ));
                            assert(term_at(mid@, sel as int) == Term::Label(
                                LabelMetaV { name: query@.dest->Con_0, nvals: 1 },
                            ));
                            assert(term_at(expr@, sel as int) == Term::Label(
                                LabelMetaV { name: query@.dest->Con_0, nvals: 1 },
                            ));
                            assert(term_of(expr@) == spec_run(
                                query@,
                                table_view(self.nvals@),
                            )->Ok_0);
                        }
                        Ok(expr)
                    },
                    Err(e) => Err(e),
                }
            },
            (Vertex::Con(_), Vertex::Con(_)) => Err(CompileError::Unsupported),
        }
    }
}

/// A decimal digit.
pub open spec fn spec_is_digit(c: char) -> bool {
    '0' <= c && c <= '9'
}

pub open spec fn all_digits(s: Seq<char>) -> bool {
    forall|i: int| 0 <= i < s.len() ==> spec_is_digit(#[trigger] s[i])
}

/// The number a digit string denotes.
pub open spec fn digits_val(s: Seq<char>) -> int
    decreases s.len(),
{
    if s.len() == 0 {
        0
    } else {
        digits_val(s.drop_last()) * 10 + (s.last() as int - '0' as int)
    }
}

/// What parsing a decimal number yields: defined exactly for nonempty
/// all-digit strings whose value fits the machine.
pub open spec fn spec_parse_usize(s: Seq<char>) -> Option<int> {
    if s.len() > 0 && all_digits(s) && digits_val(s) <= usize::MAX {
        Some(digits_val(s))
    } else {
        None
    }
}

proof fn lemma_digits_val_nonneg(s: Seq<char>)
    requires
        all_digits(s),
    ensures
        digits_val(s) >= 0,
    decreases s.len(),
{
    if s.len() > 0 {
        assert(all_digits(s.drop_last())) by {
            assert(forall|i: int|
                0 <= i < s.len() - 1 ==> #[trigger] s.drop_last()[i] == s[i]);
        }
        lemma_digits_val_nonneg(s.drop_last());
    }
}

/// Appending digits never shrinks the value.
proof fn lemma_digits_val_mono(s: Seq<char>, j: int)
    requires
        all_digits(s),
        0 <= j <= s.len(),
    ensures
        digits_val(s) >= digits_val(s.subrange(0, j)),
    decreases s.len() - j,
{
    if j < s.len() {
        lemma_digits_val_mono(s, j + 1);
        assert(s.subrange(0, j + 1).drop_last() =~= s.subrange(0, j));
        assert(all_digits(s.subrange(0, j))) by {
            assert(forall|i: int|
                0 <= i < j ==> #[trigger] s.subrange(0, j)[i] == s[i]);
        }
        lemma_digits_val_nonneg(s.subrange(0, j));
        assert(digits_val(s.subrange(0, j + 1)) >= digits_val(s.subrange(0, j)))
            by (nonlinear_arith)
            requires
                digits_val(s.subrange(0, j + 1)) == digits_val(s.subrange(0, j)) * 10 + (
                s.subrange(0, j + 1).last() as int - '0' as int),
                digits_val(s.subrange(0, j)) >= 0,
                spec_is_digit(s.subrange(0, j + 1).last()),
        ;
    } else {
        assert(s.subrange(0, s.len() as int) =~= s);
    }
}

/// Parses the decimal number in `s[a..b]`, rejecting non-digits and
/// overflow exactly as [`spec_parse_usize`] does.
pub fn parse_usize_range(s: &str, a: usize, b: usize) -> (r: Option<usize>)
    requires
        a <= b <= s@.len(),
    ensures
        match r {
            Option::Some(v) => spec_parse_usize(s@.subrange(a as int, b as int)) == Some(v as int),
            Option::None => spec_parse_usize(s@.subrange(a as int, b as int)) is None,
        },
{
    let ghost sub = s@.subrange(a as int, b as int);
    if a == b {
        return None;
    }
    let mut acc: usize = 0;
    let mut i: usize = a;
    while i < b
        invariant
            a <= i <= b <= s@.len(),
            sub == s@.subrange(a as int, b as int),
            b > a,
            all_digits(sub.subrange(0, i - a)),
            acc as int == digits_val(sub.subrange(0, i - a)),
        decreases b - i,
    {
        let c = s.get_char(i);
        proof {
            assert(sub[i - a] == s@[i as int]);
        }
        if c < '0' || c > '9' {
            proof {
                assert(!spec_is_digit(sub[i - a]));
            }
            return None;
        }
        let d: usize = (c as u8 - 48) as usize;
        proof {
            assert(sub.subrange(0, i - a + 1).drop_last() =~= sub.subrange(0, i - a));
            assert(sub.subrange(0, i - a + 1).last() == sub[i - a]);
            assert(d == sub[i - a] as int - '0' as int);
        }
        if acc > (usize::MAX - d) / 10 {
            proof {
                vstd::arithmetic::div_mod::lemma_fundamental_div_mod(
                    (usize::MAX - d) as int,
                    10,
                );
                vstd::arithmetic::div_mod::lemma_mod_bound((usize::MAX - d) as int, 10);
                assert(acc * 10 + d > usize::MAX) by (nonlinear_arith)
                    requires
                        acc as int >= ((usize::MAX - d) as int) / 10 + 1,
                        (usize::MAX - d) as int == 10 * (((usize::MAX - d) as int) / 10) + (
                        (usize::MAX - d) as int % 10),
                        ((usize::MAX - d) as int % 10) < 10,
                ;
                assert(digits_val(sub.subrange(0, i - a + 1)) > usize::MAX);
                if all_digits(sub) && digits_val(sub) <= usize::MAX {
                    lemma_digits_val_mono(sub, i - a + 1);
                    assert(false);
                }
            }
            return None;
        }
        proof {
            assert((acc * 10 + d) as int == digits_val(sub.subrange(0, i - a + 1)));
        }
        acc = acc * 10 + d;
        i = i + 1;
    }
    proof {
        assert(sub.subrange(0, b - a) =~= sub);
    }
    Some(acc)
}

/// First position at or after `i` past a run of non-blank characters.
pub open spec fn spec_tok_end(s: Seq<char>, i: int) -> int
    decreases s.len() - i,
{
    if 0 <= i < s.len() && !crate::query::is_space(s[i]) {
        spec_tok_end(s, i + 1)
    } else {
        i
    }
}

/// Advances past the current token.
pub fn skip_token(s: &str, i: usize) -> (r: usize)
    requires
        i <= s@.len(),
    ensures
        r == spec_tok_end(s@, i as int),
        i <= r <= s@.len(),
{
    let n = s.unicode_len();
    let mut j = i;
    loop
        invariant
            i <= j <= n,
            n == s@.len(),
            spec_tok_end(s@, i as int) == spec_tok_end(s@, j as int),
        decreases n - j,
    {
        if j >= n {
            return j;
        }
        let c = s.get_char(j);
        if c == ' ' || c == '\t' || c == '\n' || c == '\r' {
            return j;
        }
        j = j + 1;
    }
}

/// What one `edges` table line denotes: a bracketed label token and its
/// matrix number.  The first and last character of the label token are
/// dropped; a line without two tokens, a one-character first token, or an
/// unparsable number denotes nothing and is skipped by the loader.
pub open spec fn spec_index_line(s: Seq<char>) -> Option<(int, Seq<char>)> {
    let a1 = crate::query::spec_ws(s, 0);
    let b1 = spec_tok_end(s, a1);
    let a2 = crate::query::spec_ws(s, b1);
    let b2 = spec_tok_end(s, a2);
    if b1 - a1 >= 2 && b2 > a2 {
        match spec_parse_usize(s.subrange(a2, b2)) {
            Some(v) => Some((v, s.subrange(a1 + 1, b1 - 1))),
            None => None,
        }
    } else {
        None
    }
}

/// Parses one `edges` table line: `(label) number`.
pub fn parse_index_line(s: &str) -> (r: Option<(usize, String)>)
    ensures
        match r {
            Option::Some(p) => spec_index_line(s@) == Some((p.0 as int, p.1@)),
            Option::None => spec_index_line(s@) is None,
        },
{
    let a1 = crate::query::skip_ws(s, 0);
    let b1 = skip_token(s, a1);
    let a2 = crate::query::skip_ws(s, b1);
    let b2 = skip_token(s, a2);
    if b1 - a1 >= 2 && b2 > a2 {
        match parse_usize_range(s, a2, b2) {
            Some(v) => {
                let name = s.substring_char(a1 + 1, b1 - 1).to_owned();
                Some((v, name))
            },
            None => None,
        }
    } else {
        None
    }
}

/// What one `vertices` table line denotes: a bracketed vertex name and its
/// 1-based index.
pub open spec fn spec_vertex_line(s: Seq<char>) -> Option<(Seq<char>, int)> {
    match spec_index_line(s) {
        Some((v, name)) => Some((name, v)),
        None => None,
    }
}

/// Parses one `vertices` table line: `(name) number`.
pub fn parse_vertex_line(s: &str) -> (r: Option<(String, usize)>)
    ensures
        match r {
            Option::Some(p) => spec_vertex_line(s@) == Some((p.0@, p.1 as int)),
            Option::None => spec_vertex_line(s@) is None,
        },
{
    match parse_index_line(s) {
        Some((v, name)) => Some((name, v)),
        None => None,
    }
}

/// First position at or after `i` holding a line break.
pub open spec fn spec_line_end(s: Seq<char>, i: int) -> int
    decreases s.len() - i,
{
    if 0 <= i < s.len() && s[i] != '\n' {
        spec_line_end(s, i + 1)
    } else {
        i
    }
}

fn find_line_end(s: &str, i: usize) -> (r: usize)
    requires
        i <= s@.len(),
    ensures
        r == spec_line_end(s@, i as int),
        i <= r <= s@.len(),
{
    let n = s.unicode_len();
    let mut j = i;
    loop
        invariant
            i <= j <= n,
            n == s@.len(),
            spec_line_end(s@, i as int) == spec_line_end(s@, j as int),
        decreases n - j,
    {
        if j >= n {
            return j;
        }
        if s.get_char(j) == '\n' {
            return j;
        }
        j = j + 1;
    }
}

/// The third blank-separated field of a line, as a number.
pub open spec fn spec_third_field(s: Seq<char>) -> Option<int> {
    let a1 = crate::query::spec_ws(s, 0);
    let b1 = spec_tok_end(s, a1);
    let a2 = crate::query::spec_ws(s, b1);
    let b2 = spec_tok_end(s, a2);
    let a3 = crate::query::spec_ws(s, b2);
    let b3 = spec_tok_end(s, a3);
    if b1 > a1 && b2 > a2 && b3 > a3 {
        spec_parse_usize(s.subrange(a3, b3))
    } else {
        None
    }
}

/// What the matrix file header denotes: its third line holds
/// `rows cols entries`, and only the entry count is read, as the label's
/// size estimate.  A file with fewer than three lines, or a malformed
/// count, denotes nothing.
pub open spec fn spec_entry_count(s: Seq<char>) -> Option<int> {
    let l1 = spec_line_end(s, 0);
    if l1 >= s.len() {
        None
    } else {
        let l2 = spec_line_end(s, l1 + 1);
        if l2 + 1 >= s.len() {
            None
        } else {
            let l3 = spec_line_end(s, l2 + 1);
            spec_third_field(s.subrange(l2 + 1, l3))
        }
    }
}

fn third_field(s: &str) -> (r: Option<usize>)
    ensures
        match r {
            Option::Some(v) => spec_third_field(s@) == Some(v as int),
            Option::None => spec_third_field(s@) is None,
        },
{
    let a1 = crate::query::skip_ws(s, 0);
    let b1 = skip_token(s, a1);
    let a2 = crate::query::skip_ws(s, b1);
    let b2 = skip_token(s, a2);
    let a3 = crate::query::skip_ws(s, b2);
    let b3 = skip_token(s, a3);
    if b1 > a1 && b2 > a2 && b3 > a3 {
        parse_usize_range(s, a3, b3)
    } else {
        None
    }
}

/// Reads the entry count out of a sparse-matrix file's header text.
pub fn matrix_entry_count(s: &str) -> (r: Option<usize>)
    ensures
        match r {
            Option::Some(v) => spec_entry_count(s@) == Some(v as int),
            Option::None => spec_entry_count(s@) is None,
        },
{
    let n = s.unicode_len();
    let l1 = find_line_end(s, 0);
    if l1 >= n {
        return None;
    }
    let l2 = find_line_end(s, l1 + 1);
    if n - l2 <= 1 {
        return None;
    }
    let l3 = find_line_end(s, l2 + 1);
    let line = s.substring_char(l2 + 1, l3);
    third_field(line)
}

} // verus!
