//! Parser tests: the original text forms and the trees they denote.

use rpq::query::ParseError;
use rpq::query::Pattern;
use rpq::query::Query;
use rpq::query::Vertex;

/// Renders a vertex in the classic debug form (`Any` / `Con("name")`).
fn fmt_vertex(v: &Vertex) -> String {
    match v {
        Vertex::Any => "Any".to_string(),
        Vertex::Con(s) => format!("Con({:?})", s),
    }
}

/// Renders a pattern in the classic debug form, where sequencing prints as
/// `Seq` and a label as `Uri`.
fn fmt_pattern(p: &Pattern) -> String {
    match p {
        Pattern::Uri(s) => format!("Uri({:?})", s),
        Pattern::Cat(a, b) => format!("Seq({}, {})", fmt_pattern(a), fmt_pattern(b)),
        Pattern::Alt(a, b) => format!("Alt({}, {})", fmt_pattern(a), fmt_pattern(b)),
        Pattern::Star(a) => format!("Star({})", fmt_pattern(a)),
        Pattern::Plus(a) => format!("Plus({})", fmt_pattern(a)),
        Pattern::Opt(a) => format!("Opt({})", fmt_pattern(a)),
    }
}

fn fmt_query(q: &Query) -> String {
    format!(
        "Query {{ src: {}, pattern: {}, dest: {} }}",
        fmt_vertex(&q.src),
        fmt_pattern(&q.pattern),
        fmt_vertex(&q.dest)
    )
}

#[test]
fn test_basic_seq() {
    assert_eq!(
        r#"Query { src: Con("0"), pattern: Seq(Uri("a"), Uri("b")), dest: Con("1") }"#,
        fmt_query(&"<0> <a>/<b> <1>".parse::<Query>().unwrap())
    );
}

#[test]
fn test_basic_seq_star() {
    assert_eq!(
        r#"Query { src: Con("0"), pattern: Star(Seq(Uri("a"), Uri("b"))), dest: Any }"#,
        fmt_query(&"<0> (<a>/<b>)* ?x".parse::<Query>().unwrap())
    );
}

#[test]
fn test_basic_seq_alt() {
    assert_eq!(
        r#"Query { src: Any, pattern: Star(Alt(Uri("a"), Uri("b"))), dest: Con("0") }"#,
        fmt_query(&"?x (<a>|<b>)* <0>".parse::<Query>().unwrap())
    );
}

#[test]
fn test_basic_seq_alt_prec() {
    assert_eq!(
        r#"Query { src: Any, pattern: Alt(Seq(Seq(Uri("a"), Uri("b")), Uri("c")), Uri("d")), dest: Any }"#,
        fmt_query(&"?x <a>/<b>/<c>|<d> ?y".parse::<Query>().unwrap())
    );
}

#[test]
fn test_basic_seq_star_prec() {
    assert_eq!(
        r#"Query { src: Con("1"), pattern: Seq(Uri("a"), Star(Uri("b"))), dest: Any }"#,
        fmt_query(&"<1> <a>/<b>* ?y".parse::<Query>().unwrap())
    );
}

#[test]
fn test_basic_parens_star() {
    assert_eq!(
        r#"Query { src: Any, pattern: Seq(Uri("a"), Star(Seq(Uri("b"), Uri("c")))), dest: Any }"#,
        fmt_query(&"?x <a>/(<b>/<c>)* ?y".parse::<Query>().unwrap())
    );
}

#[test]
fn test_basic_opt() {
    assert_eq!(
        r#"Query { src: Any, pattern: Seq(Seq(Seq(Uri("a"), Opt(Uri("b"))), Opt(Uri("b"))), Opt(Uri("b"))), dest: Con("e") }"#,
        fmt_query(&"?x <a>/<b>?/<b>?/<b>? <e>".parse::<Query>().unwrap())
    );
}

#[test]
fn malformed_line_is_a_syntax_error() {
    assert!(matches!("no query here".parse::<Query>(), Err(ParseError::Syntax)));
    assert!(matches!("".parse::<Query>(), Err(ParseError::Syntax)));
    assert!(matches!("<0> <a".parse::<Query>(), Err(ParseError::Syntax)));
}

#[test]
fn leftover_text_is_a_trailing_error() {
    assert!(matches!("?x <a> ?y zzz".parse::<Query>(), Err(ParseError::Trailing)));
}
