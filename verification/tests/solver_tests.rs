//! Tests for the solver session: vocabulary encoding, command shapes, reply
//! decoding, and the restart-after-query discipline.

use updr::semantics::{Interpretation, RelationDecl, Signature};
use updr::sexp::{Atom, Sexp};
use updr::solver::{
    FOModel, FixedBackend, RecordingProcess, SatResp, Solver, SolverCmd, SolverError,
};
use updr::solvers::{SolverConf, SolverManager};
use updr::syntax::{NOp, Quantifier, Sort, Term};

fn sym(x: &str) -> Sexp {
    Sexp::Atom(Atom::S(x.to_string()))
}

fn num(i: u64) -> Sexp {
    Sexp::Atom(Atom::I(i))
}

fn list(items: Vec<Sexp>) -> Sexp {
    Sexp::List(items)
}

fn id(name: &str) -> Term {
    Term::Id(name.to_string())
}

fn toy_signature() -> Signature {
    Signature {
        sorts: vec![Sort::Id("t".to_string())],
        relations: vec![
            RelationDecl {
                mutable: false,
                name: "q".to_string(),
                args: vec![],
                typ: Sort::Bool,
            },
            RelationDecl {
                mutable: true,
                name: "p".to_string(),
                args: vec![],
                typ: Sort::Bool,
            },
        ],
    }
}

fn toy_backend() -> FixedBackend {
    FixedBackend {
        launch: SolverCmd { cmd: "smt-solver".to_string(), args: vec![], options: vec![] },
        universe: vec![("t".to_string(), 2)],
        interp: vec![
            ("p".to_string(), Interpretation { shape: vec![2], data: vec![1] }),
            ("p'".to_string(), Interpretation { shape: vec![2], data: vec![0] }),
        ],
    }
}

fn fresh_proc() -> RecordingProcess {
    RecordingProcess::new(vec![], vec![], vec![])
}

fn declaration_commands() -> Vec<Sexp> {
    vec![
        list(vec![sym("declare-sort"), sym("t"), num(0)]),
        list(vec![sym("declare-fun"), sym("q"), list(vec![]), sym("Bool")]),
        list(vec![sym("declare-fun"), sym("p"), list(vec![]), sym("Bool")]),
        list(vec![sym("declare-fun"), sym("p'"), list(vec![]), sym("Bool")]),
    ]
}

#[test]
fn test_signature_declarations() {
    // Sorts are declared first; an immutable relation once, a mutable one
    // once per state with one trailing prime per state beyond the first.
    let solver = Solver::new(fresh_proc(), toy_signature(), 2, toy_backend());
    assert_eq!(solver.proc.log, declaration_commands());
}

#[test]
fn test_assert_records_and_sends() {
    let mut solver = Solver::new(fresh_proc(), toy_signature(), 2, toy_backend());
    let t = Term::NAryOp(NOp::And, vec![id("p"), id("q")]);
    solver.assert_term(&t);
    assert_eq!(
        solver.proc.log.last(),
        Some(&list(vec![sym("assert"), list(vec![sym("and"), sym("p"), sym("q")])]))
    );
    assert_eq!(solver.asserts, vec![t]);
}

#[test]
fn test_assert_encodes_quantifiers() {
    let mut solver = Solver::new(fresh_proc(), toy_signature(), 2, toy_backend());
    let t = Term::Quantified {
        quantifier: Quantifier::Forall,
        binders: vec![updr::syntax::Binder {
            name: "x".to_string(),
            sort: Sort::Id("t".to_string()),
        }],
        body: Box::new(Term::App("p".to_string(), vec![id("x")])),
    };
    solver.assert_term(&t);
    assert_eq!(
        solver.proc.log.last(),
        Some(&list(vec![
            sym("assert"),
            list(vec![
                sym("forall"),
                list(vec![list(vec![sym("x"), sym("t")])]),
                list(vec![sym("p"), sym("x")]),
            ]),
        ]))
    );
}

#[test]
fn test_get_indicator_is_idempotent() {
    let mut solver = Solver::new(fresh_proc(), toy_signature(), 2, toy_backend());
    let first = solver.get_indicator("frame-3");
    let second = solver.get_indicator("frame-3");
    assert_eq!(first, id("@ind@frame-3"));
    assert_eq!(first, second);
    assert_eq!(solver.indicators.len(), 1);
}

#[test]
fn test_check_sat_plain() {
    let proc = RecordingProcess::new(vec![SatResp::Sat], vec![], vec![]);
    let mut solver = Solver::new(proc, toy_signature(), 2, toy_backend());
    let verdict = solver.check_sat(&vec![]);
    assert!(matches!(verdict, Ok(SatResp::Sat)));
    assert_eq!(solver.proc.log.last(), Some(&list(vec![sym("check-sat")])));
}

#[test]
fn test_check_sat_assuming() {
    let proc = RecordingProcess::new(vec![SatResp::Unsat], vec![], vec![]);
    let mut solver = Solver::new(proc, toy_signature(), 2, toy_backend());
    let a = solver.get_indicator("a");
    let b = solver.get_indicator("b");
    let verdict = solver.check_sat(&vec![(a, true), (b, false)]);
    assert!(matches!(verdict, Ok(SatResp::Unsat)));
    assert_eq!(
        solver.proc.log.last(),
        Some(&list(vec![
            sym("check-sat-assuming"),
            list(vec![sym("@ind@a"), list(vec![sym("not"), sym("@ind@b")])]),
        ]))
    );
}

#[test]
fn test_unsat_core_decoding() {
    // A bare identifier means "assumed true was essential", a negated one
    // "assumed false was essential".
    let core_reply = vec![sym("a"), list(vec![sym("not"), sym("b")])];
    let proc = RecordingProcess::new(vec![], vec![], vec![core_reply]);
    let mut solver = Solver::new(proc, toy_signature(), 2, toy_backend());
    let core = solver.get_unsat_core();
    assert_eq!(core.unwrap(), vec![(id("a"), true), (id("b"), false)]);
    assert_eq!(solver.proc.log.last(), Some(&list(vec![sym("get-unsat-assumptions")])));
}

#[test]
fn test_unsat_core_skips_comments_and_bang() {
    let core_reply = vec![
        Sexp::Comment("solver chatter".to_string()),
        list(vec![sym("!"), sym("c")]),
    ];
    let proc = RecordingProcess::new(vec![], vec![], vec![core_reply]);
    let mut solver = Solver::new(proc, toy_signature(), 2, toy_backend());
    let core = solver.get_unsat_core();
    assert_eq!(core.unwrap(), vec![(id("c"), false)]);
}

#[test]
fn test_unsat_core_malformed_entry() {
    // A numeral is not an assumption atom: the reply is a protocol failure.
    let core_reply = vec![num(3)];
    let proc = RecordingProcess::new(vec![], vec![], vec![core_reply]);
    let mut solver = Solver::new(proc, toy_signature(), 2, toy_backend());
    let core = solver.get_unsat_core();
    assert!(matches!(core, Err(SolverError::ParseError(_))));
}

#[test]
fn test_unsat_core_wrong_arity() {
    let core_reply = vec![list(vec![sym("not"), sym("b"), sym("c")])];
    let proc = RecordingProcess::new(vec![], vec![], vec![core_reply]);
    let mut solver = Solver::new(proc, toy_signature(), 2, toy_backend());
    assert!(matches!(solver.get_unsat_core(), Err(SolverError::ParseError(_))));
}

#[test]
fn test_minimal_unsat_core_keys() {
    let core_reply = vec![sym("a"), list(vec![sym("not"), sym("b")])];
    let proc = RecordingProcess::new(vec![], vec![], vec![core_reply]);
    let mut solver = Solver::new(proc, toy_signature(), 2, toy_backend());
    let core = solver.get_minimal_unsat_core();
    assert_eq!(core.unwrap(), vec![id("a"), id("b")]);
}

#[test]
fn test_get_model_builds_trace() {
    // One model per state; state k reads the interpretation of its
    // k-times-primed relation names, all sharing the universe.
    let proc = RecordingProcess::new(vec![], vec![sym("model-reply")], vec![]);
    let mut solver = Solver::new(proc, toy_signature_mutable_only(), 2, toy_backend());
    let models = solver.get_model().unwrap();
    assert_eq!(models.len(), 2);
    assert_eq!(models[0].universe, vec![2]);
    assert_eq!(models[1].universe, vec![2]);
    assert_eq!(models[0].interp, vec![Interpretation { shape: vec![2], data: vec![1] }]);
    assert_eq!(models[1].interp, vec![Interpretation { shape: vec![2], data: vec![0] }]);
    assert_eq!(solver.proc.log.last(), Some(&list(vec![sym("get-model")])));
}

fn toy_signature_mutable_only() -> Signature {
    Signature {
        sorts: vec![Sort::Id("t".to_string())],
        relations: vec![RelationDecl {
            mutable: true,
            name: "p".to_string(),
            args: vec![],
            typ: Sort::Bool,
        }],
    }
}

#[test]
fn test_into_trace_missing_relation() {
    // The raw model interprets only the unprimed name, but two states were
    // requested: the reply did not cover the vocabulary.
    let fo = FOModel {
        universe: vec![("t".to_string(), 3)],
        interp: vec![("p".to_string(), Interpretation { shape: vec![2], data: vec![1] })],
    };
    let result = fo.into_trace(&toy_signature_mutable_only(), 2);
    assert!(matches!(result, Err(SolverError::ParseError(_))));
}

#[test]
fn test_into_trace_single_state() {
    let fo = FOModel {
        universe: vec![("t".to_string(), 3)],
        interp: vec![("p".to_string(), Interpretation { shape: vec![2], data: vec![1] })],
    };
    let models = fo.into_trace(&toy_signature_mutable_only(), 1).unwrap();
    assert_eq!(models.len(), 1);
    assert_eq!(models[0].universe, vec![3]);
    assert_eq!(models[0].signature, toy_signature_mutable_only());
}

#[test]
fn test_push_pop_commands() {
    let mut solver = Solver::new(fresh_proc(), toy_signature(), 2, toy_backend());
    solver.push();
    solver.pop();
    let n = solver.proc.log.len();
    assert_eq!(solver.proc.log[n - 2], list(vec![sym("push")]));
    assert_eq!(solver.proc.log[n - 1], list(vec![sym("pop")]));
}

#[test]
fn test_comment_is_sent() {
    let mut solver = Solver::new(fresh_proc(), toy_signature(), 2, toy_backend());
    solver.comment_with(|| "blocking at frame 2".to_string());
    assert_eq!(
        solver.proc.log.last(),
        Some(&Sexp::Comment("blocking at frame 2".to_string()))
    );
}

#[test]
fn test_restart_redeclares_vocabulary() {
    let mut solver = Solver::new(fresh_proc(), toy_signature(), 2, toy_backend());
    solver.assert_term(&id("p"));
    let _ = solver.get_indicator("a");
    solver.restart();
    assert_eq!(solver.proc.log, declaration_commands());
    assert!(solver.asserts.is_empty());
    assert!(solver.indicators.is_empty());
}

#[test]
fn test_manager_restarts_after_each_query() {
    let conf = SolverConf::new(toy_backend(), None);
    let manager = SolverManager::new(conf, &toy_signature(), 2, fresh_proc());
    let (manager, answer) = manager.with_solver(|mut solver| {
        solver.push();
        (solver, 7usize)
    });
    assert_eq!(answer, 7);
    assert_eq!(manager.n_queries, 1);
    // The query's commands are gone: the session was rebuilt from scratch.
    assert_eq!(manager.solver.proc.log, declaration_commands());
}
