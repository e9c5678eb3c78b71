//! Tests for the inference engine, driven by fixed-answer oracles.

use updr::oracle::{CexOrCore, FixedOracle};
use updr::semantics::{Interpretation, Model, RelationDecl, Signature};
use updr::syntax::{NOp, Sort, Term, UOp};
use updr::updr::{Frame, TermOrModel, UPDR, UpdrError};

fn id(name: &str) -> Term {
    Term::Id(name.to_string())
}

fn and(ts: Vec<Term>) -> Term {
    Term::NAryOp(NOp::And, ts)
}

fn or(ts: Vec<Term>) -> Term {
    Term::NAryOp(NOp::Or, ts)
}

fn not(t: Term) -> Term {
    Term::UnaryOp(UOp::Not, Box::new(t))
}

fn dummy_model() -> Model {
    Model {
        signature: Signature { sorts: vec![], relations: vec![] },
        universe: vec![],
        interp: vec![],
    }
}

/// A structure over one nullary boolean relation `p`, interpreted false.
fn p_false_model() -> Model {
    Model {
        signature: Signature {
            sorts: vec![],
            relations: vec![RelationDecl {
                mutable: true,
                name: "p".to_string(),
                args: vec![],
                typ: Sort::Bool,
            }],
        },
        universe: vec![],
        interp: vec![Interpretation { shape: vec![2], data: vec![0] }],
    }
}

fn toy_oracle(
    implies_model: Option<Model>,
    safe_model: Option<Model>,
    trans_model: Option<Model>,
) -> FixedOracle {
    FixedOracle {
        init_terms: vec![and(vec![id("p")])],
        safety_terms: vec![id("p")],
        implies_model,
        safe_model,
        trans_model,
        pred_answer: CexOrCore::Core(vec![]),
        eval_value: 0,
        structure_term: id("p"),
    }
}

#[test]
fn test_search_reaches_inductive_frames() {
    // Toy system: one boolean relation p, initial state p, transition
    // p' = p, safety p. The oracle reports every frame safe, nothing
    // implied by a strict subset, and every term preserved: the search must
    // reach a frame sequence where frame 0 and frame 1 both contain p, with
    // no blocking obligation beyond the seeded safety clause.
    let oracle = toy_oracle(Some(dummy_model()), None, None);
    let mut engine = UPDR::new();
    let result = engine.search(&oracle, 10);
    match result {
        Ok(Some(certificate)) => {
            assert_eq!(certificate.terms, vec![id("p")]);
        },
        other => panic!("expected a certificate, got {:?}", other.is_ok()),
    }
    assert!(engine.frames.len() >= 2);
    assert!(engine.frames[0].terms.contains(&id("p")));
    assert!(engine.frames[1].terms.contains(&id("p")));
    // Only the obligation seeded from the safety clause exists; no
    // counterexample ever created another.
    assert_eq!(engine.backwards_reachable_states.len(), 1);
    match &engine.backwards_reachable_states[0].term_or_model {
        TermOrModel::Term(t) => assert_eq!(*t, not(id("p"))),
        TermOrModel::Model(_) => panic!("seeded obligation should be a term"),
    }
}

#[test]
fn test_safety_counterexample_creates_obligation() {
    // Same system with transition p' = !p: the safety-counterexample query
    // yields a structure with p false, producing exactly one node with
    // distance zero to the violation.
    let oracle = toy_oracle(Some(dummy_model()), Some(p_false_model()), Some(dummy_model()));
    let mut engine = UPDR::new();
    engine.frames.push(Frame { terms: vec![id("p")] });
    engine.frames.push(Frame { terms: vec![] });
    let result = engine.find_state_to_block(&oracle);
    assert!(matches!(result, Ok(Some(0))));
    assert_eq!(engine.backwards_reachable_states.len(), 1);
    let node = &engine.backwards_reachable_states[0];
    assert_eq!(node.id, 0);
    assert_eq!(node.num_steps_to_bad, 0);
    assert_eq!(node.known_absent_until_frame, 0);
    match &node.term_or_model {
        TermOrModel::Model(m) => assert_eq!(*m, p_false_model()),
        TermOrModel::Term(_) => panic!("the new obligation should wrap the structure"),
    }
}

#[test]
fn test_initial_state_unsafe() {
    // A safety counterexample while only the initial frame exists means the
    // initial states themselves violate safety.
    let oracle = toy_oracle(Some(dummy_model()), Some(p_false_model()), Some(dummy_model()));
    let mut engine = UPDR::new();
    engine.frames.push(Frame { terms: vec![id("p")] });
    let result = engine.find_state_to_block(&oracle);
    match result {
        Err(UpdrError::InitialStateUnsafe(m)) => assert_eq!(m, p_false_model()),
        _ => panic!("expected the initial-state violation"),
    }
}

#[test]
fn test_abstract_counterexample() {
    // Transition p' = !p with safety p: p is not preserved, so the second
    // round selects the seeded obligation, and blocking it at frame 1 finds
    // that it already contradicts the initial frame.
    let oracle = toy_oracle(Some(dummy_model()), None, Some(dummy_model()));
    let mut engine = UPDR::new();
    let result = engine.search(&oracle, 10);
    match result {
        Err(UpdrError::AbstractCex(t)) => assert_eq!(t, not(id("p"))),
        _ => panic!("expected the abstract counterexample"),
    }
}

#[test]
fn test_simplify_keeps_unimplied_terms() {
    // The oracle always reports a countermodel: nothing is implied by the
    // rest of its frame, so nothing is dropped.
    let oracle = toy_oracle(Some(dummy_model()), None, None);
    let mut engine = UPDR::new();
    engine.frames.push(Frame { terms: vec![id("p"), id("q")] });
    engine.simplify(&oracle);
    assert_eq!(engine.frames[0].terms, vec![id("p"), id("q")]);
}

#[test]
fn test_simplify_drops_implied_terms() {
    // The oracle reports every implication as holding: every term is
    // implied by the rest of its frame and is dropped.
    let oracle = toy_oracle(None, None, None);
    let mut engine = UPDR::new();
    engine.frames.push(Frame { terms: vec![id("p"), id("q")] });
    engine.simplify(&oracle);
    assert_eq!(engine.frames[0].terms, Vec::<Term>::new());
}

#[test]
fn test_push_copies_preserved_terms() {
    // The stub oracle confirms preservation: the term is copied forward
    // into the new frame.
    let oracle = toy_oracle(Some(dummy_model()), None, None);
    let mut engine = UPDR::new();
    engine.frames.push(Frame { terms: vec![id("p")] });
    engine.add_frame_and_push(&oracle);
    assert_eq!(engine.frames.len(), 2);
    assert_eq!(engine.frames[1].terms, vec![id("p")]);
}

#[test]
fn test_push_skips_unpreserved_terms() {
    // The stub oracle reports a transition counterexample: the copy must
    // not happen.
    let oracle = toy_oracle(Some(dummy_model()), None, Some(dummy_model()));
    let mut engine = UPDR::new();
    engine.frames.push(Frame { terms: vec![id("p")] });
    engine.add_frame_and_push(&oracle);
    assert_eq!(engine.frames.len(), 2);
    assert_eq!(engine.frames[1].terms, Vec::<Term>::new());
}

#[test]
fn test_frame_new_and_strengthen() {
    let mut frame = Frame::new();
    assert_eq!(frame.terms, vec![Term::Literal(true)]);
    frame.strengthen(id("p"));
    assert_eq!(frame.terms, vec![Term::Literal(true), id("p")]);
}

#[test]
fn test_search_gives_up_at_zero_bound() {
    // With a zero round bound the search seeds its state and reports that
    // the bound ran out before any round could run.
    let oracle = toy_oracle(Some(dummy_model()), None, None);
    let mut engine = UPDR::new();
    let result = engine.search(&oracle, 0);
    assert!(matches!(result, Ok(None)));
    assert_eq!(engine.frames.len(), 1);
    assert_eq!(engine.frames[0].terms, vec![id("p")]);
}

#[test]
fn test_search_converges_on_empty_frames() {
    // With no safety properties and nothing preserved, two consecutive
    // frames end up holding the same (empty) set of terms, and that frame
    // is returned.
    let oracle = FixedOracle {
        init_terms: vec![and(vec![id("p"), id("q")])],
        safety_terms: vec![],
        implies_model: Some(dummy_model()),
        safe_model: None,
        trans_model: Some(dummy_model()),
        pred_answer: CexOrCore::Core(vec![]),
        eval_value: 0,
        structure_term: id("p"),
    };
    let mut engine = UPDR::new();
    let result = engine.search(&oracle, 5);
    match result {
        Ok(Some(certificate)) => assert_eq!(certificate.terms, Vec::<Term>::new()),
        _ => panic!("expected convergence on syntactically equal frames"),
    }
}

#[test]
fn test_seeded_obligations_split_clauses() {
    // A conjunctive safety property seeds one obligation per clause.
    let oracle = FixedOracle {
        init_terms: vec![and(vec![id("p")])],
        safety_terms: vec![and(vec![id("p"), or(vec![id("q"), id("r")])])],
        implies_model: Some(dummy_model()),
        safe_model: None,
        trans_model: None,
        pred_answer: CexOrCore::Core(vec![]),
        eval_value: 0,
        structure_term: id("p"),
    };
    let mut engine = UPDR::new();
    let _ = engine.search(&oracle, 1);
    let brs = &engine.backwards_reachable_states;
    assert_eq!(brs.len(), 2);
    match &brs[0].term_or_model {
        TermOrModel::Term(t) => assert_eq!(*t, not(id("p"))),
        _ => panic!("seed should be a term"),
    }
    match &brs[1].term_or_model {
        TermOrModel::Term(t) => {
            assert_eq!(*t, and(vec![not(id("q")), not(id("r"))]));
        },
        _ => panic!("seed should be a term"),
    }
}
