//! Solver session management.
//!
//! A [`SolverConf`] bundles what is needed to start sessions: the backend
//! and an optional transcript destination for whoever launches the process.
//! A [`SolverManager`] owns one running session and enforces a strict
//! one-query-then-restart discipline: after every query the process is torn
//! down and relaunched with the vocabulary redeclared, so the solver's
//! internal state never grows across queries. This trades throughput for
//! simplicity and isolation, deliberately.

use vstd::prelude::*;

use crate::semantics::{Signature, clone_signature};
use crate::solver::{Backend, SmtProcess, Solver, sig_cmds_v};

verus! {

/// Configuration for starting solver sessions.
pub struct SolverConf<B: Backend> {
    pub backend: B,
    /// Where to also write the commands sent, for debugging; used by the
    /// code that launches the process.
    pub tee: Option<String>,
}

impl<B: Backend + Clone> SolverConf<B> {
    pub fn new(backend: B, tee: Option<String>) -> (r: SolverConf<B>)
        ensures
            r.backend == backend,
            r.tee == tee,
    {
        SolverConf { backend, tee }
    }

    /// Start a session for a vocabulary over the given process handle.
    pub fn solver<P: SmtProcess>(&self, sig: &Signature, n_states: usize, proc: P) -> (r: Solver<
        P,
        B,
    >)
        ensures
            r.proc.history() == proc.history() + sig_cmds_v(sig@, n_states as int),
            r.signature@ == sig@,
            r.n_states == n_states,
            r.asserts@.len() == 0,
            r.indicators@.len() == 0,
    {
        Solver::new(proc, clone_signature(sig), n_states, self.backend.clone())
    }
}

/// What one managed query leaves behind: the closure ran on the given
/// session and produced the result, and the manager's session was restarted
/// from the vocabulary the closure's session held.
pub open spec fn queried<P: SmtProcess, B: Backend, R, F: FnOnce(Solver<P, B>) -> (Solver<P, B>, R)>(
    f: F,
    input: Solver<P, B>,
    out: SolverManager<P, B>,
    res: R,
) -> bool {
    exists|s: Solver<P, B>|
        #[trigger] call_ensures(f, (input,), (s, res)) && out.solver.signature == s.signature
            && out.solver.n_states == s.n_states && out.solver.proc.history() == sig_cmds_v(
            s.signature@,
            s.n_states as int,
        )
}

/// Owner of one running solver session, restarted after every query.
pub struct SolverManager<P: SmtProcess, B: Backend> {
    pub conf: SolverConf<B>,
    pub sig: Signature,
    pub n_states: usize,
    /// The currently running session.
    pub solver: Solver<P, B>,
    /// How many queries this manager has served, each on a fresh process.
    pub n_queries: usize,
}

impl<P: SmtProcess, B: Backend + Clone> SolverManager<P, B> {
    /// A manager with a freshly started session.
    pub fn new(conf: SolverConf<B>, sig: &Signature, n_states: usize, proc: P) -> (r:
        SolverManager<P, B>)
        ensures
            r.solver.proc.history() == proc.history() + sig_cmds_v(sig@, n_states as int),
            r.solver.signature@ == sig@,
            r.solver.n_states == n_states,
            r.conf == conf,
            r.sig@ == sig@,
            r.n_states == n_states,
            r.n_queries == 0,
    {
        let solver = conf.solver(sig, n_states, proc);
        SolverManager { conf, sig: clone_signature(sig), n_states, solver, n_queries: 0 }
    }

    /// Tear the running session down and start it afresh: same vocabulary,
    /// fresh process, no assertions.
    pub fn restart_solver(&mut self)
        ensures
            final(self).solver.proc.history() == sig_cmds_v(
                old(self).solver.signature@,
                old(self).solver.n_states as int,
            ),
            final(self).solver.signature == old(self).solver.signature,
            final(self).solver.n_states == old(self).solver.n_states,
            final(self).solver.asserts@.len() == 0,
            final(self).solver.indicators@.len() == 0,
            final(self).n_queries == old(self).n_queries,
            final(self).conf == old(self).conf,
            final(self).sig == old(self).sig,
            final(self).n_states == old(self).n_states,
    {
        self.solver.restart();
    }

    /// Run one query against the session, then restart the session from
    /// scratch so no solver-internal state survives into the next query.
    pub fn with_solver<R, F: FnOnce(Solver<P, B>) -> (Solver<P, B>, R)>(self, f: F) -> (r: (
        SolverManager<P, B>,
        R,
    ))
        requires
            call_requires(f, (self.solver,)),
            self.n_queries < usize::MAX,
        ensures
            queried(f, self.solver, r.0, r.1),
            r.0.n_queries == self.n_queries + 1,
            r.0.conf == self.conf,
            r.0.sig == self.sig,
            r.0.n_states == self.n_states,
    {
        let SolverManager { conf, sig, n_states, solver, n_queries } = self;
        let (solver_back, result) = f(solver);
        let mut solver_back = solver_back;
        let ghost s_mid = solver_back;
        solver_back.restart();
        proof {
            assert(call_ensures(f, (self.solver,), (s_mid, result)) && solver_back.signature
                == s_mid.signature && solver_back.n_states == s_mid.n_states
                && solver_back.proc.history() == sig_cmds_v(
                s_mid.signature@,
                s_mid.n_states as int,
            ));
        }
        let mgr = SolverManager {
            conf,
            sig,
            n_states,
            solver: solver_back,
            n_queries: n_queries + 1,
        };
        proof {
            assert(queried(f, self.solver, mgr, result));
        }
        (mgr, result)
    }
}

} // verus!
