//! Path queries and their text form.
//!
//! A query line reads `vertex pattern vertex`: a vertex constraint is
//! `?name` (unconstrained) or `<name>` (a constant vertex), and a pattern is
//! built from `<label>` atoms with `/` (sequence, binding tighter), `|`
//! (alternation), postfix `*`, `+` and `?`, and parentheses.  The parser is
//! specified by a mirror of itself in spec functions over character
//! sequences: each executable step returns exactly what its mirror denotes,
//! so the accepted language and the resulting tree are pinned down.

use vstd::prelude::*;

verus! {

/// A parsed path pattern.  `Uri` names an edge label; `Cat` is `/`
/// (sequencing), `Alt` is `|`, and `Star`, `Plus`, `Opt` are the postfix
/// repetition markers.
#[derive(Debug)]
pub enum Pattern {
    Uri(String),
    Cat(Box<Pattern>, Box<Pattern>),
    Alt(Box<Pattern>, Box<Pattern>),
    Star(Box<Pattern>),
    Plus(Box<Pattern>),
    Opt(Box<Pattern>),
}

/// Mathematical image of a pattern.
pub enum PatternV {
    Uri(Seq<char>),
    Cat(Box<PatternV>, Box<PatternV>),
    Alt(Box<PatternV>, Box<PatternV>),
    Star(Box<PatternV>),
    Plus(Box<PatternV>),
    Opt(Box<PatternV>),
}

pub open spec fn pattern_view(p: Pattern) -> PatternV
    decreases p,
{
    match p {
        Pattern::Uri(s) => PatternV::Uri(s@),
        Pattern::Cat(a, b) => PatternV::Cat(
            Box::new(pattern_view(*a)),
            Box::new(pattern_view(*b)),
        ),
        Pattern::Alt(a, b) => PatternV::Alt(
            Box::new(pattern_view(*a)),
            Box::new(pattern_view(*b)),
        ),
        Pattern::Star(a) => PatternV::Star(Box::new(pattern_view(*a))),
        Pattern::Plus(a) => PatternV::Plus(Box::new(pattern_view(*a))),
        Pattern::Opt(a) => PatternV::Opt(Box::new(pattern_view(*a))),
    }
}

impl View for Pattern {
    type V = PatternV;

    open spec fn view(&self) -> PatternV {
        pattern_view(*self)
    }
}

/// An endpoint constraint: any vertex, or one named constant vertex.
#[derive(Debug)]
pub enum Vertex {
    Any,
    Con(String),
}

pub enum VertexV {
    Any,
    Con(Seq<char>),
}

impl View for Vertex {
    type V = VertexV;

    open spec fn view(&self) -> VertexV {
        match self {
            Vertex::Any => VertexV::Any,
            Vertex::Con(s) => VertexV::Con(s@),
        }
    }
}

/// One path query: a source constraint, a pattern, a destination
/// constraint.
#[derive(Debug)]
pub struct Query {
    pub src: Vertex,
    pub pattern: Pattern,
    pub dest: Vertex,
}

pub struct QueryV {
    pub src: VertexV,
    pub pattern: PatternV,
    pub dest: VertexV,
}

impl View for Query {
    type V = QueryV;

    open spec fn view(&self) -> QueryV {
        QueryV { src: self.src@, pattern: self.pattern@, dest: self.dest@ }
    }
}

/// Why a query line was rejected.
#[derive(Clone, Copy, Debug, PartialEq, Eq, Structural)]
pub enum ParseError {
    /// The text does not match the grammar.
    Syntax,
    /// A query parsed but text was left over.
    Trailing,
}

/// The four characters the grammar treats as blank space.
pub open spec fn is_space(c: char) -> bool {
    c == ' ' || c == '\t' || c == '\n' || c == '\r'
}

/// ASCII letters and digits, as allowed in a `?name` variable.
pub open spec fn spec_is_alnum(c: char) -> bool {
    ('0' <= c && c <= '9') || ('a' <= c && c <= 'z') || ('A' <= c && c <= 'Z')
}

/// First position at or after `i` holding something other than blank space.
pub open spec fn spec_ws(s: Seq<char>, i: int) -> int
    decreases s.len() - i,
{
    if 0 <= i < s.len() && is_space(s[i]) {
        spec_ws(s, i + 1)
    } else {
        i
    }
}

/// Skipping blank space moves forward and never past the end.
pub proof fn lemma_ws_bounds(s: Seq<char>, i: int)
    ensures
        i <= spec_ws(s, i),
        i <= s.len() ==> spec_ws(s, i) <= s.len(),
    decreases s.len() - i,
{
    if 0 <= i < s.len() && is_space(s[i]) {
        lemma_ws_bounds(s, i + 1);
    }
}

/// First position at or after `i` past a run of ASCII alphanumerics.
pub open spec fn spec_alnum_end(s: Seq<char>, i: int) -> int
    decreases s.len() - i,
{
    if 0 <= i < s.len() && spec_is_alnum(s[i]) {
        spec_alnum_end(s, i + 1)
    } else {
        i
    }
}

/// Position of the next `>` at or after `i`, if any.
pub open spec fn spec_until_gt(s: Seq<char>, i: int) -> Option<int>
    decreases s.len() - i,
{
    if 0 <= i < s.len() {
        if s[i] == '>' {
            Some(i)
        } else {
            spec_until_gt(s, i + 1)
        }
    } else {
        None
    }
}

/// Mirror of the constant-vertex parser: `<name>`.
pub open spec fn spec_parse_con(s: Seq<char>, i: int) -> Option<(VertexV, int)> {
    if 0 <= i < s.len() && s[i] == '<' {
        match spec_until_gt(s, i + 1) {
            Some(j) => Some((VertexV::Con(s.subrange(i + 1, j)), j + 1)),
            None => None,
        }
    } else {
        None
    }
}

/// Mirror of the any-vertex parser: `?` followed by a (possibly empty)
/// variable name.
pub open spec fn spec_parse_any(s: Seq<char>, i: int) -> Option<(VertexV, int)> {
    if 0 <= i < s.len() && s[i] == '?' {
        Some((VertexV::Any, spec_alnum_end(s, i + 1)))
    } else {
        None
    }
}

/// Mirror of the vertex parser: blank space, then `?name` or `<name>`, then
/// blank space.
pub open spec fn spec_parse_vertex(s: Seq<char>, i: int) -> Option<(VertexV, int)> {
    let a = spec_ws(s, i);
    let first = spec_parse_any(s, a);
    match first {
        Some((v, j)) => Some((v, spec_ws(s, j))),
        None => match spec_parse_con(s, a) {
            Some((v, j)) => Some((v, spec_ws(s, j))),
            None => None,
        },
    }
}

/// Mirror of the label atom: `<name>` as a pattern leaf.
pub open spec fn spec_uri(s: Seq<char>, i: int) -> Option<(PatternV, int)> {
    if 0 <= i < s.len() && s[i] == '<' {
        match spec_until_gt(s, i + 1) {
            Some(j) => Some((PatternV::Uri(s.subrange(i + 1, j)), j + 1)),
            None => None,
        }
    } else {
        None
    }
}

/// Mirror of an atom: a label or a parenthesized pattern.
pub open spec fn spec_atom(s: Seq<char>, i: int) -> Option<(PatternV, int)>
    decreases s.len() - i, 0int,
{
    match spec_uri(s, i) {
        Some(r) => Some(r),
        None => if 0 <= i < s.len() && s[i] == '(' {
            match spec_parse_pattern(s, i + 1) {
                Some((p, j)) => if 0 <= j < s.len() && s[j] == ')' {
                    Some((p, j + 1))
                } else {
                    None
                },
                None => None,
            }
        } else {
            None
        },
    }
}

/// Mirror of a factor: an atom with an optional postfix `*`, `+` or `?`.
pub open spec fn spec_factor(s: Seq<char>, i: int) -> Option<(PatternV, int)>
    decreases s.len() - i, 1int,
{
    match spec_atom(s, i) {
        Some((p, j)) => if 0 <= j < s.len() && s[j] == '*' {
            Some((PatternV::Star(Box::new(p)), j + 1))
        } else if 0 <= j < s.len() && s[j] == '+' {
            Some((PatternV::Plus(Box::new(p)), j + 1))
        } else if 0 <= j < s.len() && s[j] == '?' {
            Some((PatternV::Opt(Box::new(p)), j + 1))
        } else {
            Some((p, j))
        },
        None => None,
    }
}

/// Mirror of the left-associative `/` chain continuing after one factor.
pub open spec fn spec_seq_rest(s: Seq<char>, i: int, acc: PatternV) -> (PatternV, int)
    decreases s.len() - i, 2int,
    via spec_seq_rest_dec
{
    let k = spec_ws(s, i);
    if 0 <= k < s.len() && s[k] == '/' {
        let m = spec_ws(s, k + 1);
        match spec_factor(s, m) {
            Some((p, j)) => if i < j <= s.len() {
                spec_seq_rest(s, j, PatternV::Cat(Box::new(acc), Box::new(p)))
            } else {
                (acc, i)
            },
            None => (acc, i),
        }
    } else {
        (acc, i)
    }
}

#[via_fn]
proof fn spec_seq_rest_dec(s: Seq<char>, i: int, acc: PatternV) {
    lemma_ws_bounds(s, i);
    lemma_ws_bounds(s, spec_ws(s, i) + 1);
}

/// Mirror of a sequence: factors joined by `/`.
pub open spec fn spec_parse_seq(s: Seq<char>, i: int) -> Option<(PatternV, int)>
    decreases s.len() - i, 3int,
{
    match spec_factor(s, i) {
        Some((p, j)) => if i < j <= s.len() {
            Some(spec_seq_rest(s, j, p))
        } else {
            Some((p, j))
        },
        None => None,
    }
}

/// Mirror of the left-associative `|` chain continuing after one sequence.
pub open spec fn spec_alt_rest(s: Seq<char>, i: int, acc: PatternV) -> (PatternV, int)
    decreases s.len() - i, 4int,
    via spec_alt_rest_dec
{
    let k = spec_ws(s, i);
    if 0 <= k < s.len() && s[k] == '|' {
        let m = spec_ws(s, k + 1);
        match spec_parse_seq(s, m) {
            Some((p, j)) => if i < j <= s.len() {
                spec_alt_rest(s, j, PatternV::Alt(Box::new(acc), Box::new(p)))
            } else {
                (acc, i)
            },
            None => (acc, i),
        }
    } else {
        (acc, i)
    }
}

#[via_fn]
proof fn spec_alt_rest_dec(s: Seq<char>, i: int, acc: PatternV) {
    lemma_ws_bounds(s, i);
    lemma_ws_bounds(s, spec_ws(s, i) + 1);
}

/// Mirror of an alternation: sequences joined by `|`.
pub open spec fn spec_parse_alt(s: Seq<char>, i: int) -> Option<(PatternV, int)>
    decreases s.len() - i, 5int,
{
    match spec_parse_seq(s, i) {
        Some((p, j)) => if i < j <= s.len() {
            Some(spec_alt_rest(s, j, p))
        } else {
            Some((p, j))
        },
        None => None,
    }
}

/// Mirror of a whole pattern: `|` binds loosest.
pub open spec fn spec_parse_pattern(s: Seq<char>, i: int) -> Option<(PatternV, int)>
    decreases s.len() - i, 6int,
{
    spec_parse_alt(s, i)
}

/// Mirror of a whole query line: vertex, pattern, vertex.
pub open spec fn spec_parse_query(s: Seq<char>, i: int) -> Option<(QueryV, int)> {
    match spec_parse_vertex(s, i) {
        Some((src, j)) => match spec_parse_pattern(s, j) {
            Some((pattern, k)) => match spec_parse_vertex(s, k) {
                Some((dest, m)) => Some((QueryV { src, pattern, dest }, m)),
                None => None,
            },
            None => None,
        },
        None => None,
    }
}

/// What parsing an entire line yields: a query only if the grammar matches
/// and consumes every character.
pub open spec fn spec_query_of(s: Seq<char>) -> Result<QueryV, ParseError> {
    match spec_parse_query(s, 0) {
        Some((q, i)) => if i == s.len() {
            Ok(q)
        } else {
            Err(ParseError::Trailing)
        },
        None => Err(ParseError::Syntax),
    }
}

fn space(c: char) -> (b: bool)
    ensures
        b == is_space(c),
{
    c == ' ' || c == '\t' || c == '\n' || c == '\r'
}

fn alnum(c: char) -> (b: bool)
    ensures
        b == spec_is_alnum(c),
{
    ('0' <= c && c <= '9') || ('a' <= c && c <= 'z') || ('A' <= c && c <= 'Z')
}

/// Advances past blank space.
pub fn skip_ws(s: &str, i: usize) -> (r: usize)
    requires
        i <= s@.len(),
    ensures
        r == spec_ws(s@, i as int),
        i <= r <= s@.len(),
{
    let n = s.unicode_len();
    let mut j = i;
    loop
        invariant
            i <= j <= n,
            n == s@.len(),
            spec_ws(s@, i as int) == spec_ws(s@, j as int),
        decreases n - j,
    {
        if j >= n {
            return j;
        }
        let c = s.get_char(j);
        if !space(c) {
            return j;
        }
        j = j + 1;
    }
}

/// Advances past ASCII alphanumerics.
fn skip_alnum(s: &str, i: usize) -> (r: usize)
    requires
        i <= s@.len(),
    ensures
        r == spec_alnum_end(s@, i as int),
        i <= r <= s@.len(),
{
    let n = s.unicode_len();
    let mut j = i;
    loop
        invariant
            i <= j <= n,
            n == s@.len(),
            spec_alnum_end(s@, i as int) == spec_alnum_end(s@, j as int),
        decreases n - j,
    {
        if j >= n {
            return j;
        }
        let c = s.get_char(j);
        if !alnum(c) {
            return j;
        }
        j = j + 1;
    }
}

/// Finds the next `>`.
fn find_gt(s: &str, i: usize) -> (r: Option<usize>)
    requires
        i <= s@.len(),
    ensures
        match r {
            Option::Some(j) => spec_until_gt(s@, i as int) == Some(j as int) && i <= j < s@.len(),
            Option::None => spec_until_gt(s@, i as int) is None,
        },
{
    let n = s.unicode_len();
    let mut j = i;
    loop
        invariant
            i <= j <= n,
            n == s@.len(),
            spec_until_gt(s@, i as int) == spec_until_gt(s@, j as int),
        decreases n - j,
    {
        if j >= n {
            return None;
        }
        let c = s.get_char(j);
        if c == '>' {
            return Some(j);
        }
        j = j + 1;
    }
}

/// Parses `<name>` as a constant-vertex constraint.
fn parse_con(s: &str, i: usize) -> (r: Option<(Vertex, usize)>)
    requires
        i <= s@.len(),
    ensures
        match r {
            Option::Some(p) => spec_parse_con(s@, i as int) == Some((p.0@, p.1 as int)) && i < p.1
                <= s@.len(),
            Option::None => spec_parse_con(s@, i as int) is None,
        },
{
    let n = s.unicode_len();
    if i < n && s.get_char(i) == '<' {
        match find_gt(s, i + 1) {
            Some(j) => {
                let name = s.substring_char(i + 1, j).to_owned();
                Some((Vertex::Con(name), j + 1))
            },
            None => None,
        }
    } else {
        None
    }
}

/// Parses `?name` as an unconstrained vertex.
fn parse_any(s: &str, i: usize) -> (r: Option<(Vertex, usize)>)
    requires
        i <= s@.len(),
    ensures
        match r {
            Option::Some(p) => spec_parse_any(s@, i as int) == Some((p.0@, p.1 as int)) && i < p.1
                <= s@.len(),
            Option::None => spec_parse_any(s@, i as int) is None,
        },
{
    let n = s.unicode_len();
    if i < n && s.get_char(i) == '?' {
        let j = skip_alnum(s, i + 1);
        Some((Vertex::Any, j))
    } else {
        None
    }
}

/// Parses one vertex constraint with surrounding blank space.
fn parse_vertex(s: &str, i: usize) -> (r: Option<(Vertex, usize)>)
    requires
        i <= s@.len(),
    ensures
        match r {
            Option::Some(p) => spec_parse_vertex(s@, i as int) == Some((p.0@, p.1 as int)) && i
                < p.1 <= s@.len(),
            Option::None => spec_parse_vertex(s@, i as int) is None,
        },
{
    let a = skip_ws(s, i);
    match parse_any(s, a) {
        Some((v, j)) => Some((v, skip_ws(s, j))),
        None => match parse_con(s, a) {
            Some((v, j)) => Some((v, skip_ws(s, j))),
            None => None,
        },
    }
}

/// Parses `<name>` as a pattern leaf.
fn uri(s: &str, i: usize) -> (r: Option<(Pattern, usize)>)
    requires
        i <= s@.len(),
    ensures
        match r {
            Option::Some(p) => spec_uri(s@, i as int) == Some((p.0@, p.1 as int)) && i < p.1
                <= s@.len(),
            Option::None => spec_uri(s@, i as int) is None,
        },
{
    let n = s.unicode_len();
    if i < n && s.get_char(i) == '<' {
        match find_gt(s, i + 1) {
            Some(j) => {
                let name = s.substring_char(i + 1, j).to_owned();
                Some((Pattern::Uri(name), j + 1))
            },
            None => None,
        }
    } else {
        None
    }
}

/// Parses a parenthesized pattern.
fn parens(s: &str, i: usize) -> (r: Option<(Pattern, usize)>)
    requires
        i <= s@.len(),
    ensures
        match r {
            Option::Some(p) => i < p.1 <= s@.len() && (spec_atom(s@, i as int) == Some(
                (p.0@, p.1 as int),
            ) || spec_uri(s@, i as int) is Some),
            Option::None => spec_uri(s@, i as int) is None ==> spec_atom(s@, i as int) is None,
        },
    decreases s@.len() - i, 0int,
{
    let n = s.unicode_len();
    if i < n && s.get_char(i) == '(' {
        match parse_pattern(s, i + 1) {
            Some((p, j)) => {
                if j < n && s.get_char(j) == ')' {
                    Some((p, j + 1))
                } else {
                    None
                }
            },
            None => None,
        }
    } else {
        None
    }
}

/// Parses an atom: a label or a group.
fn atom(s: &str, i: usize) -> (r: Option<(Pattern, usize)>)
    requires
        i <= s@.len(),
    ensures
        match r {
            Option::Some(p) => spec_atom(s@, i as int) == Some((p.0@, p.1 as int)) && i < p.1
                <= s@.len(),
            Option::None => spec_atom(s@, i as int) is None,
        },
    decreases s@.len() - i, 1int,
{
    match uri(s, i) {
        Some(r) => Some(r),
        None => parens(s, i),
    }
}

/// Parses a factor: an atom with an optional postfix marker.
fn factor(s: &str, i: usize) -> (r: Option<(Pattern, usize)>)
    requires
        i <= s@.len(),
    ensures
        match r {
            Option::Some(p) => spec_factor(s@, i as int) == Some((p.0@, p.1 as int)) && i < p.1
                <= s@.len(),
            Option::None => spec_factor(s@, i as int) is None,
        },
    decreases s@.len() - i, 2int,
{
    let n = s.unicode_len();
    match atom(s, i) {
        Some((base, j)) => {
            if j < n && s.get_char(j) == '*' {
                Some((Pattern::Star(Box::new(base)), j + 1))
            } else if j < n && s.get_char(j) == '+' {
                Some((Pattern::Plus(Box::new(base)), j + 1))
            } else if j < n && s.get_char(j) == '?' {
                Some((Pattern::Opt(Box::new(base)), j + 1))
            } else {
                Some((base, j))
            }
        },
        None => None,
    }
}

/// Parses a `/`-chain of factors, left-associated.
#[verifier::loop_isolation(false)]
fn parse_seq(s: &str, i: usize) -> (r: Option<(Pattern, usize)>)
    requires
        i <= s@.len(),
    ensures
        match r {
            Option::Some(p) => spec_parse_seq(s@, i as int) == Some((p.0@, p.1 as int)) && i < p.1
                <= s@.len(),
            Option::None => spec_parse_seq(s@, i as int) is None,
        },
    decreases s@.len() - i, 4int,
{
    let n = s.unicode_len();
    match factor(s, i) {
        None => None,
        Some((p0, j0)) => {
            let mut acc = p0;
            let mut j = j0;
            loop
                invariant
                    i < j <= s@.len(),
                    spec_parse_seq(s@, i as int) == Some(spec_seq_rest(s@, j as int, acc@)),
                decreases s@.len() - j,
            {
                let k = skip_ws(s, j);
                if k < n && s.get_char(k) == '/' {
                    let m = skip_ws(s, k + 1);
                    match factor(s, m) {
                        Some((p2, j2)) => {
                            acc = Pattern::Cat(Box::new(acc), Box::new(p2));
                            j = j2;
                        },
                        None => {
                            return Some((acc, j));
                        },
                    }
                } else {
                    return Some((acc, j));
                }
            }
        },
    }
}

/// Parses a `|`-chain of sequences, left-associated.
#[verifier::loop_isolation(false)]
fn parse_alt(s: &str, i: usize) -> (r: Option<(Pattern, usize)>)
    requires
        i <= s@.len(),
    ensures
        match r {
            Option::Some(p) => spec_parse_alt(s@, i as int) == Some((p.0@, p.1 as int)) && i < p.1
                <= s@.len(),
            Option::None => spec_parse_alt(s@, i as int) is None,
        },
    decreases s@.len() - i, 5int,
{
    let n = s.unicode_len();
    match parse_seq(s, i) {
        None => None,
        Some((p0, j0)) => {
            let mut acc = p0;
            let mut j = j0;
            loop
                invariant
                    i < j <= s@.len(),
                    spec_parse_alt(s@, i as int) == Some(spec_alt_rest(s@, j as int, acc@)),
                decreases s@.len() - j,
            {
                let k = skip_ws(s, j);
                if k < n && s.get_char(k) == '|' {
                    let m = skip_ws(s, k + 1);
                    match parse_seq(s, m) {
                        Some((p2, j2)) => {
                            acc = Pattern::Alt(Box::new(acc), Box::new(p2));
                            j = j2;
                        },
                        None => {
                            return Some((acc, j));
                        },
                    }
                } else {
                    return Some((acc, j));
                }
            }
        },
    }
}

/// Parses a whole pattern.
fn parse_pattern(s: &str, i: usize) -> (r: Option<(Pattern, usize)>)
    requires
        i <= s@.len(),
    ensures
        match r {
            Option::Some(p) => spec_parse_pattern(s@, i as int) == Some((p.0@, p.1 as int)) && i
                < p.1 <= s@.len(),
            Option::None => spec_parse_pattern(s@, i as int) is None,
        },
    decreases s@.len() - i, 6int,
{
    parse_alt(s, i)
}

/// Parses `vertex pattern vertex`.
fn parse_query(s: &str, i: usize) -> (r: Option<(Query, usize)>)
    requires
        i <= s@.len(),
    ensures
        match r {
            Option::Some(p) => spec_parse_query(s@, i as int) == Some((p.0@, p.1 as int)) && p.1
                <= s@.len(),
            Option::None => spec_parse_query(s@, i as int) is None,
        },
{
    let (src, j) = match parse_vertex(s, i) {
        Some(p) => p,
        None => {
            return None;
        },
    };
    let (pattern, k) = match parse_pattern(s, j) {
        Some(p) => p,
        None => {
            return None;
        },
    };
    let (dest, m) = match parse_vertex(s, k) {
        Some(p) => p,
        None => {
            return None;
        },
    };
    Some((Query { src, pattern, dest }, m))
}

impl Query {
    /// Parses one query line; the whole line must be consumed.
    pub fn parse_line(s: &str) -> (r: Result<Query, ParseError>)
        ensures
            match r {
                Result::Ok(q) => spec_query_of(s@) == Ok::<QueryV, ParseError>(q@),
                Result::Err(e) => spec_query_of(s@) == Err::<QueryV, ParseError>(e),
            },
    {
        let n = s.unicode_len();
        match parse_query(s, 0) {
            Some((q, j)) => {
                if j == n {
                    Ok(q)
                } else {
                    Err(ParseError::Trailing)
                }
            },
            None => Err(ParseError::Syntax),
        }
    }
}

impl core::str::FromStr for Query {
    type Err = ParseError;

    fn from_str(s: &str) -> Result<Self, Self::Err> {
        Query::parse_line(s)
    }
}

} // verus!
