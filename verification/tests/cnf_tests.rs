//! Tests for the CNF normalizer and the clause conversion.

use updr::cnf::{Cnf, body_to_clauses, cartesian_product, cnf, get_always, term_to_cnf_clauses};
use updr::syntax::{BinOp, Binder, NOp, Quantifier, Sort, Term, UOp, negate, negate_and_simplify};

fn id(name: &str) -> Term {
    Term::Id(name.to_string())
}

fn and(ts: Vec<Term>) -> Term {
    Term::NAryOp(NOp::And, ts)
}

fn or(ts: Vec<Term>) -> Term {
    Term::NAryOp(NOp::Or, ts)
}

fn always(t: Term) -> Term {
    Term::UnaryOp(UOp::Always, Box::new(t))
}

fn not(t: Term) -> Term {
    Term::UnaryOp(UOp::Not, Box::new(t))
}

fn eq(a: Term, b: Term) -> Term {
    Term::BinOp(BinOp::Equals, Box::new(a), Box::new(b))
}

fn forall_term(binders: Vec<(&str, &str)>, body: Term) -> Term {
    Term::Quantified {
        quantifier: Quantifier::Forall,
        binders: binders
            .into_iter()
            .map(|(n, s)| Binder { name: n.to_string(), sort: Sort::Id(s.to_string()) })
            .collect(),
        body: Box::new(body),
    }
}

fn same_set(a: &[Term], b: &[Term]) -> bool {
    a.len() == b.len() && a.iter().all(|x| b.contains(x)) && b.iter().all(|x| a.contains(x))
}

#[test]
fn test_already_cnf() {
    let t = and(vec![id("p"), id("q"), id("r"), or(vec![id("a"), id("b")])]);
    assert!(cnf(&t));
    let t2 = always(and(vec![id("p"), id("q"), id("r"), or(vec![id("a"), id("b")])]));
    assert!(cnf(&t2));
}

#[test]
fn test_cnf_and() {
    let t = and(vec![id("a"), and(vec![id("b"), id("c")])]);
    let t_again = and(vec![id("a"), and(vec![id("b"), id("c")])]);
    let normal = Cnf::new(t);
    // make sure this test is non-trivial
    assert_ne!(t_again, normal.0);
    assert_eq!(normal.0, and(vec![id("a"), id("b"), id("c")]));
}

#[test]
fn test_cnf_always() {
    let t = always(always(always(and(vec![id("p"), id("q")]))));
    let t_again = always(always(always(and(vec![id("p"), id("q")]))));
    let normal = Cnf::new(t);
    assert_ne!(t_again, normal.0);
    assert_eq!(normal.0, always(and(vec![id("p"), id("q")])));
}

#[test]
fn test_cnf_single() {
    let t = or(vec![id("p"), id("q")]);
    let t_again = or(vec![id("p"), id("q")]);
    let normal = Cnf::new(t);
    assert_eq!(normal.0, and(vec![t_again]));
}

#[test]
fn test_cnf_eq() {
    let t = eq(id("p"), id("q"));
    let normal = Cnf::new(t);
    assert_eq!(normal.0, and(vec![eq(id("p"), id("q"))]));
}

#[test]
fn test_body_to_clauses() {
    let t = or(vec![
        id("a"),
        and(vec![id("b"), id("c")]),
        and(vec![id("e"), eq(id("f"), id("g"))]),
    ]);
    let terms = body_to_clauses(&t, false);
    let expected = vec![
        or(vec![id("a"), id("b"), id("e")]),
        or(vec![id("a"), id("c"), id("e")]),
        or(vec![id("a"), id("b"), eq(id("f"), id("g"))]),
        or(vec![id("a"), id("c"), eq(id("f"), id("g"))]),
    ];
    assert!(same_set(&terms, &expected));
}

#[test]
fn test_term_to_clauses() {
    let t = forall_term(vec![("a", "t"), ("b", "t")], and(vec![id("a"), id("b")]));
    let terms = term_to_cnf_clauses(&t);
    let expected = vec![
        forall_term(vec![("a", "t"), ("b", "t")], id("a")),
        forall_term(vec![("a", "t"), ("b", "t")], id("b")),
    ];
    assert!(same_set(&terms, &expected));
}

#[test]
fn test_clause_splitting_applications() {
    // Splitting `forall x. (a(x) & b(x))` yields exactly the two clauses
    // `forall x. a(x)` and `forall x. b(x)`, independent of ordering.
    let a_of_x = Term::App("a".to_string(), vec![id("x")]);
    let b_of_x = Term::App("b".to_string(), vec![id("x")]);
    let t = forall_term(vec![("x", "t")], and(vec![a_of_x, b_of_x]));
    let terms = term_to_cnf_clauses(&t);
    let expected = vec![
        forall_term(vec![("x", "t")], Term::App("a".to_string(), vec![id("x")])),
        forall_term(vec![("x", "t")], Term::App("b".to_string(), vec![id("x")])),
    ];
    assert!(same_set(&terms, &expected));
}

#[test]
fn test_distribution_cardinality() {
    // A disjunction of two conjunctions of sizes 2 and 3 yields 2 * 3 = 6
    // clauses, each picking one literal from each conjunct.
    let t = or(vec![
        and(vec![id("a"), id("b")]),
        and(vec![id("c"), id("d"), id("e")]),
    ]);
    let terms = body_to_clauses(&t, false);
    assert_eq!(terms.len(), 6);
    for left in ["a", "b"] {
        for right in ["c", "d", "e"] {
            assert!(terms.contains(&or(vec![id(left), id(right)])));
        }
    }
}

#[test]
fn test_negation_involution_example() {
    // Converting a doubly negated body gives the same clauses as the body.
    let f = or(vec![id("a"), and(vec![id("b"), id("c")])]);
    let nn = not(not(updr::syntax::clone_term(&f)));
    let direct = body_to_clauses(&f, false);
    let doubled = body_to_clauses(&nn, false);
    assert_eq!(direct, doubled);
}

#[test]
fn test_literal_polarity() {
    assert_eq!(body_to_clauses(&Term::Literal(true), false), vec![Term::Literal(true)]);
    assert_eq!(body_to_clauses(&Term::Literal(true), true), vec![Term::Literal(false)]);
}

#[test]
fn test_implication_clauses() {
    let t = Term::BinOp(BinOp::Implies, Box::new(id("a")), Box::new(id("b")));
    let terms = body_to_clauses(&t, false);
    assert_eq!(terms, vec![or(vec![not(id("a")), id("b")])]);
}

#[test]
fn test_cnf_canonical_is_noop() {
    // A term already in canonical shape comes back unchanged.
    let t = and(vec![id("p"), or(vec![id("a"), id("b")]), eq(id("f"), id("g"))]);
    let t_again = and(vec![id("p"), or(vec![id("a"), id("b")]), eq(id("f"), id("g"))]);
    assert!(cnf(&t));
    assert_eq!(Cnf::new(t).0, t_again);
    let w = always(and(vec![id("p"), id("q")]));
    let w_again = always(and(vec![id("p"), id("q")]));
    assert_eq!(Cnf::new(w).0, w_again);
}

#[test]
fn test_cnf_atom() {
    let normal = Cnf::new(id("p"));
    assert_eq!(normal.0, and(vec![id("p")]));
    assert!(cnf(&normal.0));
}

#[test]
fn test_get_always_collapses() {
    let t = always(always(id("p")));
    assert_eq!(get_always(&t), Some(id("p")));
    assert_eq!(get_always(&id("p")), None);
}

#[test]
fn test_cartesian_product_shapes() {
    let empty: Vec<Vec<Term>> = vec![];
    let unit = cartesian_product(&empty);
    assert_eq!(unit, vec![Vec::<Term>::new()]);
    let factors = vec![vec![id("a"), id("b")], vec![id("c")]];
    let rows = cartesian_product(&factors);
    assert_eq!(rows, vec![vec![id("a"), id("c")], vec![id("b"), id("c")]]);
}

#[test]
fn test_negate_and_simplify_cases() {
    assert_eq!(negate_and_simplify(&Term::Literal(true)), Term::Literal(false));
    assert_eq!(negate_and_simplify(&not(id("p"))), id("p"));
    assert_eq!(
        negate_and_simplify(&and(vec![id("p"), id("q")])),
        or(vec![not(id("p")), not(id("q"))])
    );
    assert_eq!(
        negate_and_simplify(&eq(id("p"), id("q"))),
        Term::BinOp(BinOp::NotEquals, Box::new(id("p")), Box::new(id("q")))
    );
    assert_eq!(negate(id("p")), not(id("p")));
}
