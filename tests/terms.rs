use rewrite_lang::ast::{Annotation, Expression, Rewrite, Statement, Terminal};
use rewrite_lang::grammar::{lex, DefsParser, ExpParser, ParseError, StmtParser, Token};
use rewrite_lang::parse_tools::{holes_correspond, parse_datatype, RoleConflict};
use rewrite_lang::scope::check_statement;

fn id(n: &str) -> Terminal {
    Terminal::Id(n.to_string(), None)
}

fn hole(n: &str) -> Terminal {
    Terminal::Hole(n.to_string(), None)
}

fn leaf(t: Terminal) -> Expression {
    Expression::Leaf(t)
}

fn names(ts: &[&Terminal]) -> Vec<String> {
    ts.iter().map(|t| t.to_string()).collect()
}

/// (f a ?x)
fn sample_op() -> Expression {
    Expression::Op(id("f"), vec![leaf(id("a")), leaf(hole("x"))])
}

/// (match ?s (=> nil z) (=> (cons ?h ?t) ?h))
fn sample_match() -> Expression {
    Expression::Match(
        Box::new(leaf(hole("s"))),
        vec![
            (leaf(id("nil")), leaf(id("z"))),
            (Expression::Op(id("cons"), vec![leaf(hole("h")), leaf(hole("t"))]), leaf(hole("h"))),
        ],
    )
}

#[test]
fn terminals_of_op_head_first() {
    let e = sample_op();
    assert_eq!(names(&e.terminals()), vec!["f", "a", "?x"]);
}

#[test]
fn terminals_of_match_scrutinee_last() {
    let e = sample_match();
    assert_eq!(names(&e.terminals()), vec!["nil", "z", "cons", "?h", "?t", "?h", "?s"]);
}

#[test]
fn terminals_count_matches_nodes() {
    // leaf scrutinee (1) + arms: 1 + 1 + (1 + 2) + 1 = 7
    assert_eq!(sample_match().terminals().len(), 7);
    assert_eq!(leaf(id("a")).terminals().len(), 1);
    let nested = Expression::Op(id("g"), vec![sample_op(), leaf(id("b"))]);
    assert_eq!(nested.terminals().len(), 5);
}

#[test]
fn holes_keep_order_and_skip_ids() {
    let e = sample_match();
    let hs = e.holes();
    assert_eq!(names(&hs), vec!["?h", "?t", "?h", "?s"]);
    let ts = e.terminals();
    for h in hs {
        assert!(h.is_hole());
        assert!(!h.is_id());
        assert!(ts.contains(&h));
    }
    assert!(leaf(id("a")).holes().is_empty());
}

#[test]
fn sexp_of_op_and_leaf() {
    assert_eq!(sample_op().to_sexp_string(), "(f a ?x)");
    assert_eq!(leaf(hole("y")).to_sexp_string(), "?y");
    assert_eq!(Expression::Op(id("nil"), vec![]).to_sexp_string(), "(nil)");
}

#[test]
fn sexp_of_match() {
    assert_eq!(
        sample_match().to_sexp_string(),
        "(match ?s (=> nil z) (=> (cons ?h ?t) ?h))"
    );
}

#[test]
fn sexp_round_trips_through_parser() {
    for e in [sample_op(), sample_match(), leaf(id("a")), Expression::Op(hole("f"), vec![sample_op()])] {
        let text = e.to_sexp_string();
        let back = ExpParser::new().parse(&text).unwrap();
        assert_eq!(back, e);
    }
}

#[test]
fn root_and_children() {
    let e = sample_op();
    assert_eq!(e.root(), id("f"));
    assert_eq!(e.children(), vec![leaf(id("a")), leaf(hole("x"))]);
    assert_eq!(leaf(id("a")).children(), vec![]);
    assert_eq!(leaf(hole("q")).root(), hole("q"));
    let m = sample_match();
    assert_eq!(m.root(), id("match"));
    assert_eq!(m.root().anno(), &None);
    assert_eq!(m.children(), vec![leaf(id("z")), leaf(hole("h")), leaf(hole("s"))]);
}

#[test]
fn map_keeps_shape() {
    let e = sample_match();
    let upper = |t: &Terminal| match t {
        Terminal::Id(n, a) => Terminal::Id(n.to_uppercase(), a.clone()),
        Terminal::Hole(n, a) => Terminal::Hole(n.to_uppercase(), a.clone()),
    };
    let m = e.map(&upper);
    assert_eq!(m.to_sexp_string(), "(match ?S (=> NIL Z) (=> (CONS ?H ?T) ?H))");
    assert_eq!(m.terminals().len(), e.terminals().len());
    let swap = |t: &Terminal| match t {
        Terminal::Id(n, a) => Terminal::Hole(n.clone(), a.clone()),
        Terminal::Hole(n, a) => Terminal::Id(n.clone(), a.clone()),
    };
    assert_eq!(sample_op().map(&swap).to_sexp_string(), "(?f ?a x)");
}

#[test]
fn terminal_accessors() {
    let t = Terminal::Hole("v".to_string(), Some(Box::new(Annotation::Placeholder(3))));
    assert_eq!(t.ident(), "v");
    assert!(t.is_hole());
    assert_eq!(t.anno(), &Some(Box::new(Annotation::Placeholder(3))));
    assert_eq!(t.to_string(), "?v");
    assert_eq!(id("w").to_string(), "w");
    assert!(id("w").is_id());
}

#[test]
fn multi_annot_resolution_order() {
    let ty = Expression::Op(id("List"), vec![leaf(id("Nat"))]);
    let a = Annotation::MultiAnnot(vec![
        Annotation::Placeholder(1),
        Annotation::Type(ty.clone()),
        Annotation::Placeholder(2),
    ]);
    assert_eq!(a.get_type(), Some(ty.clone()));
    assert_eq!(a.get_ph(), Some(1));
    assert!(a.has_type());
    let nested = Annotation::MultiAnnot(vec![
        Annotation::MultiAnnot(vec![Annotation::Placeholder(7)]),
        Annotation::Type(leaf(id("A"))),
        Annotation::Type(leaf(id("B"))),
    ]);
    assert_eq!(nested.get_type(), Some(leaf(id("A"))));
    assert_eq!(nested.get_ph(), Some(7));
    let none = Annotation::MultiAnnot(vec![]);
    assert_eq!(none.get_type(), None);
    assert_eq!(none.get_ph(), None);
    assert!(!none.has_type());
    assert_eq!(Annotation::Type(ty).get_ph(), None);
    assert_eq!(Annotation::Placeholder(4).get_type(), None);
}

#[test]
fn source_expressions_by_kind() {
    let s = leaf(id("a"));
    let d = leaf(id("b"));
    let dr = Rewrite::DRewrite(None, s.clone(), d.clone(), vec![]);
    assert_eq!(dr.source_expressions(), vec![&s]);
    let br = Rewrite::BRewrite(None, s.clone(), d.clone(), vec![]);
    assert_eq!(br.source_expressions(), vec![&s, &d]);
    let ad = Rewrite::AddSearcher(None, s.clone(), d.clone(), vec![]);
    assert_eq!(ad.source_expressions(), vec![&s]);
}

#[test]
fn validator_detects_conflict_in_either_order() {
    let h = hole("x");
    let i = id("x");
    let y = id("y");
    let r1 = holes_correspond(&vec![&h, &y, &i]);
    assert_eq!(r1, Err(RoleConflict { name: "x".to_string() }));
    let r2 = holes_correspond(&vec![&i, &y, &h]);
    assert_eq!(r2, Err(RoleConflict { name: "x".to_string() }));
    assert_eq!(
        r1.unwrap_err().message(),
        "Identifier \"x\" is used both as a hole and as a normal id"
    );
}

#[test]
fn validator_accepts_consistent_roles() {
    let a = hole("x");
    let b = id("y");
    let c = hole("x");
    let d = id("y");
    assert_eq!(holes_correspond(&vec![&a, &b, &c, &d]), Ok(()));
    assert_eq!(holes_correspond(&vec![]), Ok(()));
}

#[test]
fn validator_reports_first_conflict() {
    let a = hole("a");
    let b = id("b");
    let c = hole("b");
    let d = id("a");
    assert_eq!(holes_correspond(&vec![&a, &b, &c, &d]), Err(RoleConflict { name: "b".to_string() }));
}

#[test]
fn parse_rewrite_structure() {
    let s = StmtParser::new().parse("rw app_base (append nil ?x) => ?x").unwrap();
    match s {
        Statement::RewriteDef(name, Rewrite::DRewrite(pre, src, dst, conds)) => {
            assert_eq!(name, "app_base");
            assert!(pre.is_none());
            assert_eq!(src, Expression::Op(id("append"), vec![leaf(id("nil")), leaf(hole("x"))]));
            assert_eq!(dst, leaf(hole("x")));
            assert!(conds.is_empty());
        }
        other => panic!("unexpected statement {:?}", other),
    }
}

#[test]
fn parse_conflict_names_identifier() {
    let r = StmtParser::new().parse("rw app_base (append nil ?x) => x");
    assert_eq!(
        r.unwrap_err(),
        ParseError::User { error: "Identifier \"x\" is used both as a hole and as a normal id".to_string() }
    );
}

#[test]
fn parse_bidirectional_and_searcher() {
    match StmtParser::new().parse("rw comm (plus ?a ?b) <=> (plus ?b ?a)").unwrap() {
        Statement::RewriteDef(_, rw) => {
            assert!(matches!(rw, Rewrite::BRewrite(..)));
            assert_eq!(rw.source_expressions().len(), 2);
        }
        other => panic!("unexpected statement {:?}", other),
    }
    match StmtParser::new().parse("rw s1 (f ?a) |> (g ?a)").unwrap() {
        Statement::RewriteDef(_, rw) => assert!(matches!(rw, Rewrite::AddSearcher(..))),
        other => panic!("unexpected statement {:?}", other),
    }
}

#[test]
fn parse_match_term() {
    let e = ExpParser::new().parse("(match ?l (=> nil zero) (=> (cons ?x ?xs) ?x))").unwrap();
    assert_eq!(e.to_sexp_string(), "(match ?l (=> nil zero) (=> (cons ?x ?xs) ?x))");
    assert!(matches!(e, Expression::Match(..)));
}

#[test]
fn parse_errors() {
    assert_eq!(ExpParser::new().parse("(f a"), Err(ParseError::UnrecognizedEof));
    assert_eq!(ExpParser::new().parse("a b"), Err(ParseError::ExtraToken { location: 1 }));
    assert_eq!(ExpParser::new().parse(")"), Err(ParseError::UnrecognizedToken { location: 0 }));
    assert_eq!(ExpParser::new().parse("? a"), Err(ParseError::InvalidToken { location: 0 }));
    assert!(StmtParser::new().parse("lemma x").is_err());
}

#[test]
fn defs_stop_at_first_bad_statement() {
    let ok = DefsParser::new().parse("rw a ?x => ?x\n\nrw b x => x\n");
    match ok.unwrap() {
        rewrite_lang::ast::Definitions::Defs(v) => assert_eq!(v.len(), 2),
    }
    let bad = DefsParser::new().parse("rw a ?x => ?x\nrw b ?y => y\nrw c ?z => z");
    assert_eq!(
        bad.unwrap_err(),
        ParseError::User { error: "Identifier \"y\" is used both as a hole and as a normal id".to_string() }
    );
}

#[test]
fn function_and_datatype_shapes() {
    match StmtParser::new().parse("fun append l1: Lst l2: Lst -> Lst").unwrap() {
        Statement::Function(name, params, ret, body) => {
            assert_eq!(name, "append");
            assert_eq!(params.len(), 2);
            assert_eq!(params[0].0, "l1");
            assert_eq!(params[0].1, Annotation::Type(leaf(id("Lst"))));
            assert_eq!(ret, Annotation::Type(leaf(id("Lst"))));
            assert!(body.is_none());
        }
        other => panic!("unexpected statement {:?}", other),
    }
    match StmtParser::new().parse("datatype Pair (a b) := (mk : (x : a) -> (y : b) -> (res : (Pair a b)))").unwrap() {
        Statement::Datatype(name, tps, ctors) => {
            assert_eq!(name, "Pair");
            assert_eq!(tps, vec!["a".to_string(), "b".to_string()]);
            assert_eq!(ctors.len(), 1);
            assert_eq!(ctors[0].1.len(), 3);
        }
        other => panic!("unexpected statement {:?}", other),
    }
}

#[test]
fn datatype_builder() {
    match parse_datatype("T".to_string(), Some(("a".to_string(), vec!["b".to_string()])), vec![]) {
        Some(Statement::Datatype(n, tps, cs)) => {
            assert_eq!(n, "T");
            assert_eq!(tps, vec!["a".to_string(), "b".to_string()]);
            assert!(cs.is_empty());
        }
        _ => panic!("expected a datatype"),
    }
    match parse_datatype("U".to_string(), None, vec![]) {
        Some(Statement::Datatype(_, tps, _)) => assert!(tps.is_empty()),
        _ => panic!("expected a datatype"),
    }
}

#[test]
fn statement_scope_covers_all_terms() {
    let goal = Statement::Goal(Some(leaf(hole("x"))), leaf(id("y")), leaf(id("x")));
    assert_eq!(check_statement(&goal), Err(RoleConflict { name: "x".to_string() }));
    let split = Statement::CaseSplit(
        leaf(hole("a")),
        leaf(hole("a")),
        vec![leaf(id("nil"))],
        vec![(leaf(hole("a")), leaf(id("nil")))],
    );
    assert_eq!(check_statement(&split), Ok(()));
}

#[test]
fn map_with_threads_state_in_visit_order() {
    let number = |n: usize, t: &Terminal| {
        let renamed = match t {
            Terminal::Id(_, a) => Terminal::Id(format!("v{}", n), a.clone()),
            Terminal::Hole(_, a) => Terminal::Hole(format!("v{}", n), a.clone()),
        };
        (n + 1, renamed)
    };
    let (m, last) = sample_match().map_with(0usize, &number);
    assert_eq!(last, 7);
    assert_eq!(m.to_sexp_string(), "(match ?v0 (=> v1 v2) (=> (v3 ?v4 ?v5) ?v6))");
    let (o, n) = sample_op().map_with(10usize, &number);
    assert_eq!(n, 13);
    assert_eq!(o.to_sexp_string(), "(v10 v11 ?v12)");
}

#[test]
fn lexer_tokens() {
    let toks = lex("(f ?x) => <=> |> -> := : a\nb", true).unwrap();
    assert_eq!(
        toks,
        vec![
            Token::LParen,
            Token::Name("f".to_string()),
            Token::HoleName("x".to_string()),
            Token::RParen,
            Token::FatArrow,
            Token::BiArrow,
            Token::SearchArrow,
            Token::Arrow,
            Token::Define,
            Token::Colon,
            Token::Name("a".to_string()),
            Token::Newline,
            Token::Name("b".to_string()),
        ]
    );
    let flat = lex("a\nb", false).unwrap();
    assert_eq!(flat, vec![Token::Name("a".to_string()), Token::Name("b".to_string())]);
    assert_eq!(lex("a ?", false), Err(ParseError::InvalidToken { location: 2 }));
}

#[test]
fn sexp_round_trip_drops_annotations() {
    let annotated = Expression::Op(
        Terminal::Id("f".to_string(), Some(Box::new(Annotation::Placeholder(2)))),
        vec![leaf(Terminal::Hole("x".to_string(), Some(Box::new(Annotation::Type(leaf(id("Nat")))))))],
    );
    let back = ExpParser::new().parse(&annotated.to_sexp_string()).unwrap();
    assert_eq!(back, Expression::Op(id("f"), vec![leaf(hole("x"))]));
}
