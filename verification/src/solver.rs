//! The solver session.
//!
//! A [`Solver`] is a bidirectional session with one SMT process, bound to a
//! fixed vocabulary and a fixed number of simultaneous transition-system
//! states. It encodes the vocabulary declaration and every query into
//! s-expression commands — verified against the command specs below — and
//! decodes replies (models and unsat cores) into checked shapes. The process
//! itself stands behind the [`SmtProcess`] trait, whose only specified
//! behavior is the history of commands it was sent: replies are arbitrary,
//! and everything done with a reply is verified for every value of it.

use vstd::prelude::*;

use crate::semantics::{Interpretation, InterpretationV, Model, RelationDeclV, Signature, SignatureV};
use crate::semantics::{
    clone_interp, clone_signature, copy_usizes, group_semantics_view_lemmas, relation_views,
    sort_views,
};
use crate::sexp::{Atom, AtomV, Sexp, SexpV, app, app_v, atom_i, atom_s, sort_sexp, sort_sexp_v};
use crate::sexp::{clone_sexp, fo_v, group_sexp_view_lemmas, sexp_views, term_sexp, term_sexp_v};
use crate::syntax::{Sort, SortV, Term, TermV};
use crate::syntax::{clone_term, group_term_view_lemmas, lemma_tb_views_index, lemma_tb_views_len, tb_views, term_views};

verus! {

/// A failure of the session: the process could not serve a request, or a
/// reply could not be decoded into the expected shape.
#[derive(Debug)]
pub enum SolverError {
    /// The process is gone or refused the request.
    ProcessError(String),
    /// A reply did not have the expected shape.
    ParseError(String),
}

/// The verdict of a satisfiability check.
#[derive(PartialEq, Eq, Debug)]
pub enum SatResp {
    Sat,
    Unsat,
    /// The solver gave up, with its reason.
    Unknown(String),
}

/// How to launch a solver process: the binary and its arguments, plus
/// options to set after startup.
#[derive(Clone, Debug)]
pub struct SolverCmd {
    pub cmd: String,
    pub args: Vec<String>,
    pub options: Vec<(String, String)>,
}

/// A specific solver: how to start its process and how to parse its models.
/// Model parsing is not part of the standard protocol, so each backend
/// brings its own; nothing is assumed of the parse, and the decoded model is
/// validated downstream by [`FOModel::into_trace`].
pub trait Backend: Sized {
    fn get_cmd(&self) -> SolverCmd;

    fn parse(
        &self,
        sig: &Signature,
        n_states: usize,
        indicators: &Vec<String>,
        model: &Sexp,
    ) -> FOModel;
}

/// A handle on one solver process. The trait's contract is the history of
/// commands sent since the last start: every send appends its command, and a
/// reset begins a fresh process with an empty history. Nothing is promised
/// of replies.
pub trait SmtProcess: Sized {
    /// The commands sent to the process since it was started. A verified
    /// transport defines this over its own state; the default stands only so
    /// that a transport outside the verifier's reach need not speak of it.
    open spec fn history(&self) -> Seq<SexpV> {
        Seq::<SexpV>::empty()
    }

    /// Send a command that expects no reply.
    fn send(&mut self, cmd: &Sexp)
        ensures
            final(self).history() == old(self).history().push(cmd@),
    ;

    /// Send a command and wait for one s-expression reply.
    fn send_with_reply(&mut self, cmd: &Sexp) -> (r: Result<Sexp, SolverError>)
        ensures
            final(self).history() == old(self).history().push(cmd@),
    ;

    /// Send a satisfiability check and wait for the verdict.
    fn check_sat(&mut self, cmd: &Sexp) -> (r: Result<SatResp, SolverError>)
        ensures
            final(self).history() == old(self).history().push(cmd@),
    ;

    /// Ask for the subset of assumptions under which the last check was
    /// unsatisfiable.
    fn get_unsat_assumptions(&mut self) -> (r: Result<Vec<Sexp>, SolverError>)
        ensures
            final(self).history() == old(self).history().push(
                app_v("get-unsat-assumptions"@, Seq::<SexpV>::empty()),
            ),
    ;

    /// Tear the process down and start a fresh one.
    fn reset(&mut self)
        ensures
            final(self).history() == Seq::<SexpV>::empty(),
    ;
}

// ===========================================================================
// Decoded first-order models
// ===========================================================================

/// A raw decoded solver model: a cardinality per sort name and an
/// interpretation per (possibly primed) relation name. Transient; it is
/// consumed immediately to build a trace of structures.
pub struct FOModel {
    pub universe: Vec<(String, usize)>,
    pub interp: Vec<(String, Interpretation)>,
}

/// Elementwise view of the universe map.
pub open spec fn univ_views(s: Seq<(String, usize)>) -> Seq<(Seq<char>, usize)>
    decreases s,
{
    if s.len() == 0 {
        Seq::<(Seq<char>, usize)>::empty()
    } else {
        seq![(s[0].0@, s[0].1)] + univ_views(s.subrange(1, s.len() as int))
    }
}

/// Elementwise view of the interpretation map.
pub open spec fn interp_map_views(s: Seq<(String, Interpretation)>) -> Seq<
    (Seq<char>, InterpretationV),
>
    decreases s,
{
    if s.len() == 0 {
        Seq::<(Seq<char>, InterpretationV)>::empty()
    } else {
        seq![(s[0].0@, s[0].1@)] + interp_map_views(s.subrange(1, s.len() as int))
    }
}

pub broadcast proof fn lemma_univ_views_len(s: Seq<(String, usize)>)
    ensures
        #[trigger] univ_views(s).len() == s.len(),
    decreases s,
{
    if s.len() > 0 {
        lemma_univ_views_len(s.subrange(1, s.len() as int));
    }
}

pub broadcast proof fn lemma_univ_views_index(s: Seq<(String, usize)>, i: int)
    requires
        0 <= i < s.len(),
    ensures
        #[trigger] univ_views(s)[i] == (s[i].0@, s[i].1),
    decreases s,
{
    lemma_univ_views_len(s);
    if i > 0 {
        lemma_univ_views_index(s.subrange(1, s.len() as int), i - 1);
    }
}

pub broadcast proof fn lemma_interp_map_views_len(s: Seq<(String, Interpretation)>)
    ensures
        #[trigger] interp_map_views(s).len() == s.len(),
    decreases s,
{
    if s.len() > 0 {
        lemma_interp_map_views_len(s.subrange(1, s.len() as int));
    }
}

pub broadcast proof fn lemma_interp_map_views_index(s: Seq<(String, Interpretation)>, i: int)
    requires
        0 <= i < s.len(),
    ensures
        #[trigger] interp_map_views(s)[i] == (s[i].0@, s[i].1@),
    decreases s,
{
    lemma_interp_map_views_len(s);
    if i > 0 {
        lemma_interp_map_views_index(s.subrange(1, s.len() as int), i - 1);
    }
}

pub broadcast group group_solver_view_lemmas {
    lemma_univ_views_len,
    lemma_univ_views_index,
    lemma_interp_map_views_len,
    lemma_interp_map_views_index,
}

/// First match in the universe map.
pub open spec fn assoc_usize(s: Seq<(Seq<char>, usize)>, k: Seq<char>) -> Option<usize>
    decreases s,
{
    if s.len() == 0 {
        Option::None
    } else if s[0].0 == k {
        Option::Some(s[0].1)
    } else {
        assoc_usize(s.subrange(1, s.len() as int), k)
    }
}

/// First match in the interpretation map.
pub open spec fn assoc_interp(
    s: Seq<(Seq<char>, InterpretationV)>,
    k: Seq<char>,
) -> Option<InterpretationV>
    decreases s,
{
    if s.len() == 0 {
        Option::None
    } else if s[0].0 == k {
        Option::Some(s[0].1)
    } else {
        assoc_interp(s.subrange(1, s.len() as int), k)
    }
}

proof fn lemma_assoc_usize_skip(s: Seq<(Seq<char>, usize)>, k: Seq<char>, i: int)
    requires
        0 <= i <= s.len(),
        forall|j: int| 0 <= j < i ==> (#[trigger] s[j]).0 != k,
    ensures
        assoc_usize(s, k) == assoc_usize(s.subrange(i, s.len() as int), k),
    decreases i,
{
    if i > 0 {
        let rest = s.subrange(1, s.len() as int);
        lemma_assoc_usize_skip(rest, k, i - 1);
        assert(rest.subrange(i - 1, rest.len() as int) =~= s.subrange(i, s.len() as int));
    } else {
        assert(s.subrange(0, s.len() as int) =~= s);
    }
}

proof fn lemma_assoc_interp_skip(s: Seq<(Seq<char>, InterpretationV)>, k: Seq<char>, i: int)
    requires
        0 <= i <= s.len(),
        forall|j: int| 0 <= j < i ==> (#[trigger] s[j]).0 != k,
    ensures
        assoc_interp(s, k) == assoc_interp(s.subrange(i, s.len() as int), k),
    decreases i,
{
    if i > 0 {
        let rest = s.subrange(1, s.len() as int);
        lemma_assoc_interp_skip(rest, k, i - 1);
        assert(rest.subrange(i - 1, rest.len() as int) =~= s.subrange(i, s.len() as int));
    } else {
        assert(s.subrange(0, s.len() as int) =~= s);
    }
}

/// Look a sort's cardinality up by name.
fn lookup_universe(m: &FOModel, name: &String) -> (r: Option<usize>)
    ensures
        r == assoc_usize(univ_views(m.universe@), name@),
{
    broadcast use group_solver_view_lemmas;

    let ghost whole = univ_views(m.universe@);
    let n = m.universe.len();
    let mut i: usize = 0;
    while i < n
        invariant
            n == m.universe@.len(),
            whole == univ_views(m.universe@),
            whole.len() == n,
            i <= n,
            forall|j: int| 0 <= j < i ==> (#[trigger] whole[j]).0 != name@,
        decreases n - i,
    {
        broadcast use group_solver_view_lemmas;

        proof {
            lemma_univ_views_index(m.universe@, i as int);
        }
        let entry = &m.universe[i];
        if entry.0.eq(name) {
            proof {
                lemma_assoc_usize_skip(whole, name@, i as int);
                assert(whole.subrange(i as int, whole.len() as int)[0] == whole[i as int]);
            }
            return Option::Some(entry.1);
        }
        i = i + 1;
    }
    proof {
        lemma_assoc_usize_skip(whole, name@, n as int);
        assert(whole.subrange(n as int, whole.len() as int).len() == 0);
    }
    Option::None
}

/// Look a relation's interpretation up by (possibly primed) name.
fn lookup_interp<'a>(m: &'a FOModel, name: &String) -> (r: Option<&'a Interpretation>)
    ensures
        match r {
            Option::Some(it) => assoc_interp(interp_map_views(m.interp@), name@) == Option::Some(
                it@,
            ),
            Option::None => assoc_interp(interp_map_views(m.interp@), name@) is None,
        },
{
    broadcast use group_solver_view_lemmas;

    let ghost whole = interp_map_views(m.interp@);
    let n = m.interp.len();
    let mut i: usize = 0;
    while i < n
        invariant
            n == m.interp@.len(),
            whole == interp_map_views(m.interp@),
            whole.len() == n,
            i <= n,
            forall|j: int| 0 <= j < i ==> (#[trigger] whole[j]).0 != name@,
        decreases n - i,
    {
        broadcast use group_solver_view_lemmas;

        proof {
            lemma_interp_map_views_index(m.interp@, i as int);
        }
        let entry = &m.interp[i];
        if entry.0.eq(name) {
            proof {
                lemma_assoc_interp_skip(whole, name@, i as int);
                assert(whole.subrange(i as int, whole.len() as int)[0] == whole[i as int]);
            }
            return Option::Some(&entry.1);
        }
        i = i + 1;
    }
    proof {
        lemma_assoc_interp_skip(whole, name@, n as int);
        assert(whole.subrange(n as int, whole.len() as int).len() == 0);
    }
    Option::None
}

/// `k` trailing prime characters.
pub open spec fn primes_v(k: int) -> Seq<char>
    decreases k,
{
    if k <= 0 {
        Seq::<char>::empty()
    } else {
        primes_v(k - 1).push('\'')
    }
}

/// A relation name with `k` trailing primes appended.
fn primed_name(name: &String, k: usize) -> (r: String)
    ensures
        r@ == name@ + primes_v(k as int),
{
    let mut s = name.clone();
    proof {
        assert(s@ =~= name@ + primes_v(0));
    }
    let mut i: usize = 0;
    while i < k
        invariant
            i <= k,
            s@ == name@ + primes_v(i as int),
        decreases k - i,
    {
        s.append("'");
        proof {
            reveal_strlit("'");
            assert("'"@ =~= seq!['\'']);
            assert(s@ =~= name@ + primes_v(i + 1));
        }
        i = i + 1;
    }
    s
}

/// The sort's name; only uninterpreted sorts may appear in a signature
/// handed to the trace decoder.
pub open spec fn sort_name_v(s: SortV) -> Seq<char> {
    match s {
        SortV::Id(name) => name,
        SortV::Bool => Seq::<char>::empty(),
    }
}

impl FOModel {
    /// Reconstruct the trace of structures this raw model describes: one
    /// model per transition-system state, sharing the universe, each reading
    /// the interpretation of its own-primed relation names.
    ///
    /// A sort or relation name the raw model does not interpret is a
    /// protocol failure: the solver's reply did not cover the vocabulary.
    pub fn into_trace(self, signature: &Signature, n_states: usize) -> (r: Result<
        Vec<Model>,
        SolverError,
    >)
        requires
            forall|i: int|
                0 <= i < signature.sorts@.len() ==> (#[trigger] signature.sorts@[i]) matches Sort::Id(_),
        ensures
            match r {
                Result::Ok(models) => {
                    &&& models@.len() == n_states
                    &&& forall|n: int|
                        0 <= n < n_states ==> {
                            let m = #[trigger] models@[n];
                            &&& m@.signature == signature@
                            &&& m@.universe.len() == signature.sorts@.len()
                            &&& (forall|si: int|
                                0 <= si < signature.sorts@.len() ==> assoc_usize(
                                    univ_views(self.universe@),
                                    sort_name_v(#[trigger] signature.sorts@[si]@),
                                ) == Option::Some(m@.universe[si]))
                            &&& m@.interp.len() == signature.relations@.len()
                            &&& (forall|ri: int|
                                0 <= ri < signature.relations@.len() ==> assoc_interp(
                                    interp_map_views(self.interp@),
                                    (#[trigger] signature.relations@[ri])@.name + primes_v(n),
                                ) == Option::Some(m@.interp[ri]))
                        }
                },
                Result::Err(e) => {
                    &&& e is ParseError
                    &&& ((exists|si: int|
                        0 <= si < signature.sorts@.len() && assoc_usize(
                            univ_views(self.universe@),
                            sort_name_v(#[trigger] signature.sorts@[si]@),
                        ) is None) || (exists|n: int, ri: int|
                        0 <= n < n_states && 0 <= ri < signature.relations@.len()
                            && #[trigger] assoc_interp(
                            interp_map_views(self.interp@),
                            signature.relations@[ri]@.name + primes_v(n),
                        ) is None))
                },
            },
    {
        broadcast use {group_semantics_view_lemmas, group_solver_view_lemmas};

        // The shared universe: one cardinality per sort.
        let mut universe: Vec<usize> = Vec::new();
        let nsorts = signature.sorts.len();
        let mut si: usize = 0;
        while si < nsorts
            invariant
                nsorts == signature.sorts@.len(),
                si <= nsorts,
                universe@.len() == si,
                forall|i: int|
                    0 <= i < nsorts ==> (#[trigger] signature.sorts@[i]) matches Sort::Id(_),
                forall|i: int|
                    0 <= i < si ==> assoc_usize(
                        univ_views(self.universe@),
                        sort_name_v(#[trigger] signature.sorts@[i]@),
                    ) == Option::Some(universe@[i]),
            decreases nsorts - si,
        {
            let name = match &signature.sorts[si] {
                Sort::Id(name) => name,
                Sort::Bool => unreached(),
            };
            match lookup_universe(&self, name) {
                Option::Some(card) => {
                    universe.push(card);
                },
                Option::None => {
                    proof {
                        assert(assoc_usize(
                            univ_views(self.universe@),
                            sort_name_v(signature.sorts@[si as int]@),
                        ) is None);
                    }
                    return Result::Err(
                        SolverError::ParseError("missing sort in solver model".to_owned()),
                    );
                },
            }
            si = si + 1;
        }
        // One structure per state.
        let mut states: Vec<Model> = Vec::new();
        let mut n: usize = 0;
        while n < n_states
            invariant
                nsorts == signature.sorts@.len(),
                universe@.len() == nsorts,
                forall|i: int|
                    0 <= i < nsorts ==> assoc_usize(
                        univ_views(self.universe@),
                        sort_name_v(#[trigger] signature.sorts@[i]@),
                    ) == Option::Some(universe@[i]),
                n <= n_states,
                states@.len() == n,
                forall|q: int|
                    0 <= q < n ==> {
                        let m = #[trigger] states@[q];
                        &&& m@.signature == signature@
                        &&& m@.universe.len() == signature.sorts@.len()
                        &&& (forall|si2: int|
                            0 <= si2 < signature.sorts@.len() ==> assoc_usize(
                                univ_views(self.universe@),
                                sort_name_v(#[trigger] signature.sorts@[si2]@),
                            ) == Option::Some(m@.universe[si2]))
                        &&& m@.interp.len() == signature.relations@.len()
                        &&& (forall|ri: int|
                            0 <= ri < signature.relations@.len() ==> assoc_interp(
                                interp_map_views(self.interp@),
                                (#[trigger] signature.relations@[ri])@.name + primes_v(q),
                            ) == Option::Some(m@.interp[ri]))
                    },
            decreases n_states - n,
        {
            let mut interp: Vec<Interpretation> = Vec::new();
            let nrels = signature.relations.len();
            let mut ri: usize = 0;
            while ri < nrels
                invariant
                    nrels == signature.relations@.len(),
                    n < n_states,
                    ri <= nrels,
                    interp@.len() == ri,
                    forall|i: int|
                        0 <= i < ri ==> assoc_interp(
                            interp_map_views(self.interp@),
                            (#[trigger] signature.relations@[i])@.name + primes_v(n as int),
                        ) == Option::Some(crate::semantics::interp_views(interp@)[i]),
                decreases nrels - ri,
            {
                let relation = primed_name(&signature.relations[ri].name, n);
                match lookup_interp(&self, &relation) {
                    Option::Some(it) => {
                        let ghost prev = interp@;
                        let c = clone_interp(it);
                        interp.push(c);
                        proof {
                            assert forall|i: int| 0 <= i < interp@.len() implies #[trigger] crate::semantics::interp_views(
                                interp@,
                            )[i] == (if i < prev.len() {
                                crate::semantics::interp_views(prev)[i]
                            } else {
                                c@
                            }) by {
                                crate::semantics::lemma_interp_views_index(interp@, i);
                                if i < prev.len() {
                                    crate::semantics::lemma_interp_views_index(prev, i);
                                }
                            }
                        }
                    },
                    Option::None => {
                        proof {
                            assert(assoc_interp(
                                interp_map_views(self.interp@),
                                signature.relations@[ri as int]@.name + primes_v(n as int),
                            ) is None);
                        }
                        return Result::Err(
                            SolverError::ParseError(
                                "missing relation in solver model".to_owned(),
                            ),
                        );
                    },
                }
                ri = ri + 1;
            }
            let ghost interp_v = crate::semantics::interp_views(interp@);
            proof {
                crate::semantics::lemma_interp_views_len(interp@);
            }
            let model = Model {
                signature: clone_signature(signature),
                universe: copy_usizes(&universe),
                interp,
            };
            proof {
                assert(model@.interp == interp_v);
                assert(model@.universe == universe@);
                assert(model@.signature == signature@);
            }
            let ghost prev_states = states@;
            states.push(model);
            proof {
                assert(states@ == prev_states.push(model));
            }
            n = n + 1;
        }
        Result::Ok(states)
    }
}

// ===========================================================================
// Vocabulary encoding
// ===========================================================================

/// The declaration of one sort: `(declare-sort S 0)`.
pub open spec fn sort_decl_v(s: SortV) -> SexpV {
    app_v("declare-sort"@, seq![sort_sexp_v(s), SexpV::Atom(AtomV::I(0))])
}

/// The declarations of a list of sorts, in order.
pub open spec fn sort_decls_v(ss: Seq<SortV>) -> Seq<SexpV>
    decreases ss,
{
    if ss.len() == 0 {
        Seq::<SexpV>::empty()
    } else {
        sort_decls_v(ss.drop_last()).push(sort_decl_v(ss.last()))
    }
}

/// The sorts of a relation's arguments, encoded.
pub open spec fn sort_sexps_v(ss: Seq<SortV>) -> Seq<SexpV>
    decreases ss,
{
    if ss.len() == 0 {
        Seq::<SexpV>::empty()
    } else {
        sort_sexps_v(ss.drop_last()).push(sort_sexp_v(ss.last()))
    }
}

/// The declaration of one function symbol:
/// `(declare-fun name (args) typ)`.
pub open spec fn fun_decl_v(name: Seq<char>, args: Seq<SortV>, typ: SortV) -> SexpV {
    app_v(
        "declare-fun"@,
        seq![SexpV::Atom(AtomV::S(name)), SexpV::List(sort_sexps_v(args)), sort_sexp_v(typ)],
    )
}

/// The declarations of one relation: an immutable relation is declared
/// exactly once; a mutable one once per state, its name carrying one
/// trailing prime per state index beyond zero.
pub open spec fn rel_decls_v(r: RelationDeclV, n_states: int) -> Seq<SexpV> {
    if !r.mutable {
        seq![fun_decl_v(r.name, r.args, r.typ)]
    } else {
        primed_decls_v(r, n_states)
    }
}

/// The first `n` primed declarations of a mutable relation.
pub open spec fn primed_decls_v(r: RelationDeclV, n: int) -> Seq<SexpV>
    decreases n,
{
    if n <= 0 {
        Seq::<SexpV>::empty()
    } else {
        primed_decls_v(r, n - 1).push(fun_decl_v(r.name + primes_v(n - 1), r.args, r.typ))
    }
}

/// The declarations of a list of relations, in order.
pub open spec fn all_rel_decls_v(rs: Seq<RelationDeclV>, n_states: int) -> Seq<SexpV>
    decreases rs,
{
    if rs.len() == 0 {
        Seq::<SexpV>::empty()
    } else {
        all_rel_decls_v(rs.drop_last(), n_states) + rel_decls_v(rs.last(), n_states)
    }
}

/// The full vocabulary declaration: all sorts, then all relations.
pub open spec fn sig_cmds_v(sig: SignatureV, n_states: int) -> Seq<SexpV> {
    sort_decls_v(sig.sorts) + all_rel_decls_v(sig.relations, n_states)
}

/// Encode the argument sorts of a relation.
fn sort_sexps(ss: &Vec<Sort>) -> (r: Vec<Sexp>)
    ensures
        sexp_views(r@) == sort_sexps_v(sort_views(ss@)),
{
    broadcast use {group_sexp_view_lemmas, group_semantics_view_lemmas};

    let ghost whole = sort_views(ss@);
    let n = ss.len();
    let mut out: Vec<Sexp> = Vec::new();
    let mut i: usize = 0;
    while i < n
        invariant
            n == ss@.len(),
            whole == sort_views(ss@),
            whole.len() == n,
            i <= n,
            sexp_views(out@) == sort_sexps_v(whole.subrange(0, i as int)),
        decreases n - i,
    {
        broadcast use {group_sexp_view_lemmas, group_semantics_view_lemmas};

        let ghost prev = out@;
        let c = sort_sexp(&ss[i]);
        out.push(c);
        proof {
            crate::semantics::lemma_sort_views_index(ss@, i as int);
            assert(out@ =~= prev + seq![out@[prev.len() as int]]);
            assert forall|j: int| 0 <= j < out@.len() implies #[trigger] sexp_views(out@)[j] == (
            sexp_views(prev).push(sort_sexp_v(whole[i as int])))[j] by {
                crate::sexp::lemma_sexp_views_index(out@, j);
                if j < prev.len() {
                    crate::sexp::lemma_sexp_views_index(prev, j);
                }
            }
            crate::sexp::lemma_sexp_views_len(out@);
            crate::sexp::lemma_sexp_views_len(prev);
            assert(sexp_views(out@) =~= sexp_views(prev).push(sort_sexp_v(whole[i as int])));
            assert(whole.subrange(0, i + 1).drop_last() =~= whole.subrange(0, i as int));
            assert(whole.subrange(0, i + 1).last() == whole[i as int]);
        }
        i = i + 1;
    }
    proof {
        assert(whole.subrange(0, n as int) =~= whole);
    }
    out
}

/// Encode the declaration of one function symbol.
fn fun_decl(name: String, args: &Vec<Sort>, typ: &Sort) -> (r: Sexp)
    ensures
        r@ == fun_decl_v(name@, sort_views(args@), typ@),
{
    broadcast use group_sexp_view_lemmas;

    let encoded_args = sort_sexps(args);
    let mut items: Vec<Sexp> = Vec::new();
    items.push(atom_s(name));
    items.push(Sexp::List(encoded_args));
    items.push(sort_sexp(typ));
    proof {
        crate::sexp::lemma_sexp_views_len(items@);
        crate::sexp::lemma_sexp_views_index(items@, 0);
        crate::sexp::lemma_sexp_views_index(items@, 1);
        crate::sexp::lemma_sexp_views_index(items@, 2);
        assert(sexp_views(items@) =~= seq![
            items@[0]@,
            SexpV::List(sort_sexps_v(sort_views(args@))),
            sort_sexp_v(typ@),
        ]);
    }
    app("declare-fun", items)
}

// ===========================================================================
// The session
// ===========================================================================

/// A session with one solver process, bound to a vocabulary and a number of
/// simultaneous states. Commands go out through the process handle; the
/// terms asserted so far and the indicator variables issued so far are
/// recorded here.
pub struct Solver<P: SmtProcess, B: Backend> {
    pub proc: P,
    pub signature: Signature,
    pub n_states: usize,
    pub asserts: Vec<Term>,
    pub indicators: Vec<String>,
    pub backend: B,
}

/// Elementwise view of the issued indicator names.
pub open spec fn str_views(s: Seq<String>) -> Seq<Seq<char>>
    decreases s,
{
    if s.len() == 0 {
        Seq::<Seq<char>>::empty()
    } else {
        seq![s[0]@] + str_views(s.subrange(1, s.len() as int))
    }
}

pub broadcast proof fn lemma_str_views_len(s: Seq<String>)
    ensures
        #[trigger] str_views(s).len() == s.len(),
    decreases s,
{
    if s.len() > 0 {
        lemma_str_views_len(s.subrange(1, s.len() as int));
    }
}

pub broadcast proof fn lemma_str_views_index(s: Seq<String>, i: int)
    requires
        0 <= i < s.len(),
    ensures
        #[trigger] str_views(s)[i] == s[i]@,
    decreases s,
{
    lemma_str_views_len(s);
    if i > 0 {
        lemma_str_views_index(s.subrange(1, s.len() as int), i - 1);
    }
}

/// The identifier derived from an indicator name.
pub open spec fn ind_of(name: Seq<char>) -> Seq<char> {
    "@ind@"@ + name
}

/// The assumption literals handed to a conditional check: the indicator
/// itself when assumed true, its negation when assumed false.
pub open spec fn assumption_sexps_v(s: Seq<(TermV, bool)>) -> Seq<SexpV>
    decreases s,
{
    if s.len() == 0 {
        Seq::<SexpV>::empty()
    } else {
        assumption_sexps_v(s.drop_last()).push(
            if s.last().1 {
                term_sexp_v(s.last().0)
            } else {
                app_v("not"@, seq![term_sexp_v(s.last().0)])
            },
        )
    }
}

impl<P: SmtProcess, B: Backend> Solver<P, B> {
    /// Start a session: declare the vocabulary to the given process.
    pub fn new(proc: P, signature: Signature, n_states: usize, backend: B) -> (r: Solver<P, B>)
        ensures
            r.proc.history() == proc.history() + sig_cmds_v(signature@, n_states as int),
            r.signature == signature,
            r.n_states == n_states,
            r.asserts@.len() == 0,
            r.indicators@.len() == 0,
    {
        let mut proc = proc;
        Self::send_signature(&mut proc, &signature, n_states);
        Solver {
            proc,
            signature,
            n_states,
            asserts: Vec::new(),
            indicators: Vec::new(),
            backend,
        }
    }

    /// Emit the encoding of the vocabulary, declaring each mutable relation
    /// once per state.
    fn send_signature(proc: &mut P, sig: &Signature, n_states: usize)
        ensures
            final(proc).history() == old(proc).history() + sig_cmds_v(sig@, n_states as int),
    {
        broadcast use {group_sexp_view_lemmas, group_semantics_view_lemmas};

        let ghost h0 = proc.history();
        let ghost sortsv = sort_views(sig.sorts@);
        let nsorts = sig.sorts.len();
        let mut i: usize = 0;
        while i < nsorts
            invariant
                nsorts == sig.sorts@.len(),
                sortsv == sort_views(sig.sorts@),
                sortsv.len() == nsorts,
                i <= nsorts,
                proc.history() == h0 + sort_decls_v(sortsv.subrange(0, i as int)),
            decreases nsorts - i,
        {
            broadcast use {group_sexp_view_lemmas, group_semantics_view_lemmas};

            let mut items: Vec<Sexp> = Vec::new();
            items.push(sort_sexp(&sig.sorts[i]));
            items.push(atom_i(0));
            proof {
                crate::semantics::lemma_sort_views_index(sig.sorts@, i as int);
                crate::sexp::lemma_sexp_views_len(items@);
                crate::sexp::lemma_sexp_views_index(items@, 0);
                crate::sexp::lemma_sexp_views_index(items@, 1);
                assert(sexp_views(items@) =~= seq![
                    sort_sexp_v(sortsv[i as int]),
                    SexpV::Atom(AtomV::I(0)),
                ]);
            }
            let cmd = app("declare-sort", items);
            proc.send(&cmd);
            proof {
                assert(sortsv.subrange(0, i + 1).drop_last() =~= sortsv.subrange(0, i as int));
                assert(sortsv.subrange(0, i + 1).last() == sortsv[i as int]);
                assert(proc.history() =~= h0 + sort_decls_v(sortsv.subrange(0, i + 1)));
            }
            i = i + 1;
        }
        proof {
            assert(sortsv.subrange(0, nsorts as int) =~= sortsv);
        }
        let ghost h1 = proc.history();
        let ghost relsv = relation_views(sig.relations@);
        let nrels = sig.relations.len();
        let mut r: usize = 0;
        while r < nrels
            invariant
                nrels == sig.relations@.len(),
                relsv == relation_views(sig.relations@),
                relsv.len() == nrels,
                r <= nrels,
                proc.history() == h1 + all_rel_decls_v(relsv.subrange(0, r as int), n_states as int),
            decreases nrels - r,
        {
            broadcast use {group_sexp_view_lemmas, group_semantics_view_lemmas};

            proof {
                crate::semantics::lemma_relation_views_index(sig.relations@, r as int);
            }
            let ghost hr = proc.history();
            let rel = &sig.relations[r];
            if !rel.mutable {
                // Immutable symbols are declared exactly once.
                let cmd = fun_decl(rel.name.clone(), &rel.args, &rel.typ);
                proc.send(&cmd);
                proof {
                    assert(proc.history() =~= hr + rel_decls_v(relsv[r as int], n_states as int));
                }
            } else {
                // Mutable symbols are declared once per state.
                let mut n_primes: usize = 0;
                while n_primes < n_states
                    invariant
                        relsv.len() == nrels,
                        (r as int) < nrels,
                        relsv[r as int] == rel@,
                        rel == sig.relations@[r as int],
                        rel.mutable,
                        n_primes <= n_states,
                        proc.history() == hr + primed_decls_v(relsv[r as int], n_primes as int),
                    decreases n_states - n_primes,
                {
                    broadcast use {group_sexp_view_lemmas, group_semantics_view_lemmas};

                    let name = primed_name(&rel.name, n_primes);
                    let cmd = fun_decl(name, &rel.args, &rel.typ);
                    proc.send(&cmd);
                    proof {
                        assert(proc.history() =~= hr + primed_decls_v(
                            relsv[r as int],
                            n_primes + 1,
                        ));
                    }
                    n_primes = n_primes + 1;
                }
                proof {
                    assert(rel_decls_v(relsv[r as int], n_states as int) == primed_decls_v(
                        relsv[r as int],
                        n_states as int,
                    ));
                }
            }
            proof {
                assert(relsv.subrange(0, r + 1).drop_last() =~= relsv.subrange(0, r as int));
                assert(relsv.subrange(0, r + 1).last() == relsv[r as int]);
                assert(proc.history() =~= h1 + all_rel_decls_v(
                    relsv.subrange(0, r + 1),
                    n_states as int,
                ));
            }
            r = r + 1;
        }
        proof {
            assert(relsv.subrange(0, nrels as int) =~= relsv);
        }
    }

    /// Restart the session: a fresh process with the vocabulary redeclared
    /// and no recorded assertions or indicators.
    pub fn restart(&mut self)
        ensures
            final(self).proc.history() == sig_cmds_v(
                old(self).signature@,
                old(self).n_states as int,
            ),
            final(self).signature == old(self).signature,
            final(self).n_states == old(self).n_states,
            final(self).asserts@.len() == 0,
            final(self).indicators@.len() == 0,
    {
        self.proc.reset();
        self.asserts = Vec::new();
        self.indicators = Vec::new();
        let sig = clone_signature(&self.signature);
        proof {
            assert(self.signature@ == old(self).signature@);
        }
        Self::send_signature(&mut self.proc, &self.signature, self.n_states);
        proof {
            assert(Seq::<SexpV>::empty() + sig_cmds_v(
                self.signature@,
                self.n_states as int,
            ) =~= sig_cmds_v(self.signature@, self.n_states as int));
        }
    }

    /// Send a formula as a permanent constraint, recording it for a
    /// potential resend after a restart.
    pub fn assert_term(&mut self, t: &Term)
        requires
            fo_v(t@),
        ensures
            final(self).proc.history() == old(self).proc.history().push(
                app_v("assert"@, seq![term_sexp_v(t@)]),
            ),
            term_views(final(self).asserts@) == term_views(old(self).asserts@).push(t@),
            final(self).signature == old(self).signature,
            final(self).n_states == old(self).n_states,
            final(self).indicators == old(self).indicators,
    {
        broadcast use {group_sexp_view_lemmas, group_term_view_lemmas};

        let encoded = term_sexp(t);
        let mut items: Vec<Sexp> = Vec::new();
        items.push(encoded);
        proof {
            crate::sexp::lemma_sexp_views_len(items@);
            crate::sexp::lemma_sexp_views_index(items@, 0);
            assert(sexp_views(items@) =~= seq![term_sexp_v(t@)]);
        }
        let cmd = app("assert", items);
        self.proc.send(&cmd);
        let ghost prev = self.asserts@;
        let c = clone_term(t);
        self.asserts.push(c);
        proof {
            assert(self.asserts@ =~= prev + seq![self.asserts@[prev.len() as int]]);
            crate::syntax::lemma_term_views_concat(
                prev,
                seq![self.asserts@[prev.len() as int]],
            );
            assert(term_views(seq![self.asserts@[prev.len() as int]]) =~= seq![t@]);
            assert(term_views(self.asserts@) =~= term_views(prev).push(t@));
        }
    }

    /// Send a comment line to the process, for a human reading the
    /// transcript.
    pub fn comment_with<F: FnOnce() -> String>(&mut self, comment: F)
        requires
            call_requires(comment, ()),
        ensures
            exists|c: String|
                call_ensures(comment, (), c) && final(self).proc.history() == old(
                    self,
                ).proc.history().push(SexpV::Comment(c@)),
            final(self).signature == old(self).signature,
            final(self).n_states == old(self).n_states,
            final(self).asserts == old(self).asserts,
            final(self).indicators == old(self).indicators,
    {
        let c = comment();
        let cmd = Sexp::Comment(c);
        self.proc.send(&cmd);
    }

    /// Get an indicator variable uniquely determined by `name`: the same
    /// name always yields the same identifier, and the identifier is
    /// registered for later assumption-based checks.
    pub fn get_indicator(&mut self, name: &str) -> (r: Term)
        ensures
            r@ == TermV::Id(ind_of(name@)),
            str_views(final(self).indicators@).contains(ind_of(name@)),
            final(self).proc.history() == old(self).proc.history(),
            final(self).signature == old(self).signature,
            final(self).n_states == old(self).n_states,
            final(self).asserts == old(self).asserts,
            forall|n: Seq<char>|
                #[trigger] str_views(final(self).indicators@).contains(n) <==> (str_views(
                    old(self).indicators@,
                ).contains(n) || n == ind_of(name@)),
            // The registry grows only by a genuinely new identifier.
            str_views(old(self).indicators@).contains(ind_of(name@)) ==> final(self).indicators
                == old(self).indicators,
            !str_views(old(self).indicators@).contains(ind_of(name@))
                ==> final(self).indicators@.len() == old(self).indicators@.len() + 1 && (forall|
                j: int,
            |
                0 <= j < old(self).indicators@.len() ==> #[trigger] final(self).indicators@[j]
                    == old(self).indicators@[j])
                && final(self).indicators@[old(self).indicators@.len() as int]@ == ind_of(name@),
    {
        broadcast use {lemma_str_views_len, lemma_str_views_index};

        let ind = "@ind@".to_owned().concat(name);
        let mut found = false;
        let n = self.indicators.len();
        let mut i: usize = 0;
        while i < n
            invariant
                n == self.indicators@.len(),
                i <= n,
                ind@ == ind_of(name@),
                found == exists|j: int|
                    0 <= j < i && #[trigger] self.indicators@[j]@ == ind@,
            decreases n - i,
        {
            if self.indicators[i].eq(&ind) {
                found = true;
            }
            i = i + 1;
        }
        let ghost prev = self.indicators@;
        if !found {
            self.indicators.push(ind.clone());
        }
        proof {
            assert forall|m: Seq<char>|
                #[trigger] str_views(self.indicators@).contains(m) <==> (str_views(prev).contains(
                m,
            ) || m == ind_of(name@)) by {
                lemma_str_views_len(self.indicators@);
                lemma_str_views_len(prev);
                if str_views(self.indicators@).contains(m) {
                    let j = choose|j: int|
                        0 <= j < str_views(self.indicators@).len() && str_views(
                            self.indicators@,
                        )[j] == m;
                    lemma_str_views_index(self.indicators@, j);
                    if j < prev.len() {
                        lemma_str_views_index(prev, j);
                        assert(str_views(prev)[j] == m);
                    }
                }
                if str_views(prev).contains(m) {
                    let j = choose|j: int|
                        0 <= j < str_views(prev).len() && str_views(prev)[j] == m;
                    lemma_str_views_index(prev, j);
                    lemma_str_views_index(self.indicators@, j);
                }
                if m == ind_of(name@) {
                    if found {
                        let j = choose|j: int|
                            0 <= j < prev.len() && #[trigger] prev[j]@ == ind@;
                        lemma_str_views_index(self.indicators@, j);
                    } else {
                        lemma_str_views_index(self.indicators@, prev.len() as int);
                    }
                }
            }
            assert(str_views(self.indicators@).contains(ind_of(name@)));
        }
        Term::Id(ind)
    }

    /// Check satisfiability, under the given assumptions when any are
    /// present. Every assumed term must be an indicator issued by this
    /// session, mapped to the polarity to assume.
    pub fn check_sat(&mut self, assumptions: &Vec<(Term, bool)>) -> (r: Result<
        SatResp,
        SolverError,
    >)
        requires
            forall|i: int|
                0 <= i < assumptions@.len() ==> ((#[trigger] assumptions@[i]).0@ matches TermV::Id(
                    n,
                ) && str_views(old(self).indicators@).contains(n)),
        ensures
            final(self).proc.history() == old(self).proc.history().push(
                if assumptions@.len() == 0 {
                    app_v("check-sat"@, Seq::<SexpV>::empty())
                } else {
                    app_v(
                        "check-sat-assuming"@,
                        seq![SexpV::List(assumption_sexps_v(tb_views(assumptions@)))],
                    )
                },
            ),
            final(self).signature == old(self).signature,
            final(self).n_states == old(self).n_states,
            final(self).asserts == old(self).asserts,
            final(self).indicators == old(self).indicators,
    {
        broadcast use {group_sexp_view_lemmas, group_term_view_lemmas};

        if assumptions.len() == 0 {
            let cmd = app("check-sat", Vec::new());
            proof {
                assert(sexp_views(Seq::<Sexp>::empty()) =~= Seq::<SexpV>::empty());
            }
            return self.proc.check_sat(&cmd);
        }
        let ghost whole = tb_views(assumptions@);
        proof {
            lemma_tb_views_len(assumptions@);
        }
        let n = assumptions.len();
        let mut lits: Vec<Sexp> = Vec::new();
        let mut i: usize = 0;
        while i < n
            invariant
                n == assumptions@.len(),
                whole == tb_views(assumptions@),
                whole.len() == n,
                i <= n,
                forall|j: int|
                    0 <= j < n ==> ((#[trigger] assumptions@[j]).0@ matches TermV::Id(_)),
                sexp_views(lits@) == assumption_sexps_v(whole.subrange(0, i as int)),
            decreases n - i,
        {
            broadcast use {group_sexp_view_lemmas, group_term_view_lemmas};

            proof {
                lemma_tb_views_index(assumptions@, i as int);
            }
            let entry = &assumptions[i];
            let encoded = term_sexp(&entry.0);
            let lit = if entry.1 {
                encoded
            } else {
                let mut items: Vec<Sexp> = Vec::new();
                items.push(encoded);
                proof {
                    crate::sexp::lemma_sexp_views_len(items@);
                    crate::sexp::lemma_sexp_views_index(items@, 0);
                    assert(sexp_views(items@) =~= seq![term_sexp_v(entry.0@)]);
                }
                app("not", items)
            };
            let ghost prev = lits@;
            lits.push(lit);
            proof {
                assert(lits@ =~= prev + seq![lits@[prev.len() as int]]);
                assert forall|j: int| 0 <= j < lits@.len() implies #[trigger] sexp_views(lits@)[j]
                    == (sexp_views(prev).push(lits@[prev.len() as int]@))[j] by {
                    crate::sexp::lemma_sexp_views_index(lits@, j);
                    if j < prev.len() {
                        crate::sexp::lemma_sexp_views_index(prev, j);
                    }
                }
                crate::sexp::lemma_sexp_views_len(lits@);
                crate::sexp::lemma_sexp_views_len(prev);
                assert(sexp_views(lits@) =~= sexp_views(prev).push(lits@[prev.len() as int]@));
                assert(whole.subrange(0, i + 1).drop_last() =~= whole.subrange(0, i as int));
                assert(whole.subrange(0, i + 1).last() == whole[i as int]);
                assert(sexp_views(lits@) =~= assumption_sexps_v(whole.subrange(0, i + 1)));
            }
            i = i + 1;
        }
        proof {
            assert(whole.subrange(0, n as int) =~= whole);
        }
        let mut items: Vec<Sexp> = Vec::new();
        items.push(Sexp::List(lits));
        proof {
            crate::sexp::lemma_sexp_views_len(items@);
            crate::sexp::lemma_sexp_views_index(items@, 0);
            assert(sexp_views(items@) =~= seq![SexpV::List(assumption_sexps_v(whole))]);
        }
        let cmd = app("check-sat-assuming", items);
        self.proc.check_sat(&cmd)
    }

    /// After a satisfiable check, request the model and decode it into a
    /// trace of structures, one per state.
    pub fn get_model(&mut self) -> (r: Result<Vec<Model>, SolverError>)
        requires
            forall|i: int|
                0 <= i < old(self).signature.sorts@.len() ==> (#[trigger] old(
                    self,
                ).signature.sorts@[i]) matches Sort::Id(_),
        ensures
            final(self).proc.history() == old(self).proc.history().push(
                app_v("get-model"@, Seq::<SexpV>::empty()),
            ),
            final(self).signature == old(self).signature,
            final(self).n_states == old(self).n_states,
            final(self).asserts == old(self).asserts,
            final(self).indicators == old(self).indicators,
            r matches Result::Ok(models) ==> models@.len() == old(self).n_states,
    {
        let cmd = app("get-model", Vec::new());
        proof {
            assert(crate::sexp::sexp_views(Seq::<Sexp>::empty()) =~= Seq::<SexpV>::empty());
        }
        let reply = match self.proc.send_with_reply(&cmd) {
            Result::Ok(reply) => reply,
            Result::Err(e) => {
                return Result::Err(e);
            },
        };
        let fo_model = self.backend.parse(&self.signature, self.n_states, &self.indicators, &reply);
        fo_model.into_trace(&self.signature, self.n_states)
    }

    /// The model of the last satisfiable check; no minimization is attempted
    /// beyond what the solver already returned.
    pub fn get_minimal_model(&mut self) -> (r: Result<Vec<Model>, SolverError>)
        requires
            forall|i: int|
                0 <= i < old(self).signature.sorts@.len() ==> (#[trigger] old(
                    self,
                ).signature.sorts@[i]) matches Sort::Id(_),
        ensures
            final(self).proc.history() == old(self).proc.history().push(
                app_v("get-model"@, Seq::<SexpV>::empty()),
            ),
            final(self).signature == old(self).signature,
            final(self).n_states == old(self).n_states,
            r matches Result::Ok(models) ==> models@.len() == old(self).n_states,
    {
        self.get_model()
    }

    /// After an unsatisfiable assumption-based check, request the unsat core
    /// and decode it into the same indicator-to-polarity shape the check's
    /// assumptions had.
    pub fn get_unsat_core(&mut self) -> (r: Result<Vec<(Term, bool)>, SolverError>)
        ensures
            final(self).proc.history() == old(self).proc.history().push(
                app_v("get-unsat-assumptions"@, Seq::<SexpV>::empty()),
            ),
            final(self).signature == old(self).signature,
            final(self).n_states == old(self).n_states,
            final(self).asserts == old(self).asserts,
            final(self).indicators == old(self).indicators,
            r matches Result::Ok(core) ==> forall|i: int|
                0 <= i < core@.len() ==> (#[trigger] core@[i]).0@ matches TermV::Id(_),
    {
        let reply = match self.proc.get_unsat_assumptions() {
            Result::Ok(reply) => reply,
            Result::Err(e) => {
                return Result::Err(e);
            },
        };
        decode_unsat_core(&reply)
    }

    /// The keys of the unsat core; no further minimization is attempted.
    pub fn get_minimal_unsat_core(&mut self) -> (r: Result<Vec<Term>, SolverError>)
        ensures
            final(self).proc.history() == old(self).proc.history().push(
                app_v("get-unsat-assumptions"@, Seq::<SexpV>::empty()),
            ),
            final(self).signature == old(self).signature,
            final(self).n_states == old(self).n_states,
    {
        let core = match self.get_unsat_core() {
            Result::Ok(core) => core,
            Result::Err(e) => {
                return Result::Err(e);
            },
        };
        let mut out: Vec<Term> = Vec::new();
        let mut rest = core;
        while rest.len() > 0
            decreases rest@.len(),
        {
            let entry = rest.remove(0);
            out.push(entry.0);
        }
        Result::Ok(out)
    }

    /// Open a scoped-assertion checkpoint.
    pub fn push(&mut self)
        ensures
            final(self).proc.history() == old(self).proc.history().push(
                app_v("push"@, Seq::<SexpV>::empty()),
            ),
            final(self).signature == old(self).signature,
            final(self).n_states == old(self).n_states,
            final(self).asserts == old(self).asserts,
            final(self).indicators == old(self).indicators,
    {
        let cmd = app("push", Vec::new());
        proof {
            assert(crate::sexp::sexp_views(Seq::<Sexp>::empty()) =~= Seq::<SexpV>::empty());
        }
        self.proc.send(&cmd);
    }

    /// Undo the assertions made since the matching checkpoint.
    pub fn pop(&mut self)
        ensures
            final(self).proc.history() == old(self).proc.history().push(
                app_v("pop"@, Seq::<SexpV>::empty()),
            ),
            final(self).signature == old(self).signature,
            final(self).n_states == old(self).n_states,
            final(self).asserts == old(self).asserts,
            final(self).indicators == old(self).indicators,
    {
        let cmd = app("pop", Vec::new());
        proof {
            assert(crate::sexp::sexp_views(Seq::<Sexp>::empty()) =~= Seq::<SexpV>::empty());
        }
        self.proc.send(&cmd);
    }
}

// ===========================================================================
// Decoding unsat cores
// ===========================================================================

/// The decoded form of a list of unsat-assumption entries: a bare identifier
/// means the assumption was essential at polarity true, a negated identifier
/// at polarity false, a comment is skipped, and anything else is malformed.
pub open spec fn decode_core_v(s: Seq<SexpV>) -> Option<Seq<(TermV, bool)>>
    decreases s,
{
    if s.len() == 0 {
        Option::Some(Seq::<(TermV, bool)>::empty())
    } else {
        let rest = decode_core_v(s.subrange(1, s.len() as int));
        match s[0] {
            SexpV::Atom(AtomV::S(name)) => match rest {
                Option::Some(r) => Option::Some(seq![(TermV::Id(name), true)] + r),
                Option::None => Option::None,
            },
            SexpV::Comment(_) => rest,
            SexpV::List(items) => if items.len() == 2 && (items[0] == SexpV::Atom(
                AtomV::S("not"@),
            ) || items[0] == SexpV::Atom(AtomV::S("!"@))) && (items[1] matches SexpV::Atom(
                AtomV::S(_),
            )) {
                match (rest, items[1]) {
                    (Option::Some(r), SexpV::Atom(AtomV::S(name))) => Option::Some(
                        seq![(TermV::Id(name), false)] + r,
                    ),
                    _ => Option::None,
                }
            } else {
                Option::None
            },
            _ => Option::None,
        }
    }
}

/// Decode an unsat-assumptions reply into an indicator-to-polarity map;
/// a malformed entry is a protocol failure.
pub fn decode_unsat_core(reply: &Vec<Sexp>) -> (r: Result<Vec<(Term, bool)>, SolverError>)
    ensures
        match r {
            Result::Ok(core) => decode_core_v(sexp_views(reply@)) == Option::Some(
                tb_views(core@),
            ),
            Result::Err(e) => e is ParseError && decode_core_v(sexp_views(reply@)) is None,
        },
        r matches Result::Ok(core) ==> forall|i: int|
            0 <= i < core@.len() ==> (#[trigger] core@[i]).0@ matches TermV::Id(_),
{
    broadcast use group_sexp_view_lemmas;

    let ghost whole = sexp_views(reply@);
    let n = reply.len();
    let mut out: Vec<(Term, bool)> = Vec::new();
    proof {
        assert(whole.subrange(0, n as int) =~= whole);
        assert(tb_views(out@) =~= Seq::<(TermV, bool)>::empty());
        assert forall|r: Seq<(TermV, bool)>| #[trigger] (Seq::<(TermV, bool)>::empty() + r)
            =~= r by {}
    }
    let mut i: usize = 0;
    while i < n
        invariant
            n == reply@.len(),
            whole == sexp_views(reply@),
            whole.len() == n,
            i <= n,
            forall|j: int| 0 <= j < out@.len() ==> (#[trigger] out@[j]).0@ matches TermV::Id(_),
            decode_core_v(whole) == match decode_core_v(whole.subrange(i as int, n as int)) {
                Option::Some(r) => Option::Some(tb_views(out@) + r),
                Option::None => Option::<Seq<(TermV, bool)>>::None,
            },
        decreases n - i,
    {
        broadcast use group_sexp_view_lemmas;

        proof {
            crate::sexp::lemma_sexp_views_index(reply@, i as int);
        }
        let ghost prev = out@;
        let ghost sub_i = whole.subrange(i as int, n as int);
        proof {
            assert(sub_i[0] == whole[i as int]);
            assert(sub_i.subrange(1, sub_i.len() as int) =~= whole.subrange(i + 1, n as int));
        }
        match &reply[i] {
            Sexp::Atom(Atom::S(name)) => {
                out.push((Term::Id(name.clone()), true));
            },
            Sexp::Comment(_) => {},
            Sexp::List(items) => {
                if items.len() != 2 {
                    return Result::Err(
                        SolverError::ParseError("malformed unsat assumption".to_owned()),
                    );
                }
                let not_head = String::from_str("not");
                let bang_head = String::from_str("!");
                let head_ok = match &items[0] {
                    Sexp::Atom(Atom::S(h)) => h.eq(&not_head) || h.eq(&bang_head),
                    _ => false,
                };
                proof {
                    crate::sexp::lemma_sexp_views_index(items@, 0);
                    crate::sexp::lemma_sexp_views_index(items@, 1);
                    crate::sexp::lemma_sexp_views_len(items@);
                }
                if !head_ok {
                    return Result::Err(
                        SolverError::ParseError("malformed unsat assumption".to_owned()),
                    );
                }
                match &items[1] {
                    Sexp::Atom(Atom::S(name)) => {
                        out.push((Term::Id(name.clone()), false));
                    },
                    _ => {
                        return Result::Err(
                            SolverError::ParseError(
                                "non-symbol unsat assumption".to_owned(),
                            ),
                        );
                    },
                }
            },
            _ => {
                return Result::Err(
                    SolverError::ParseError("non-symbol unsat assumption".to_owned()),
                );
            },
        }
        proof {
            if out@.len() > prev.len() {
                assert(out@ =~= prev + seq![out@[prev.len() as int]]);
                lemma_tb_concat(prev, seq![out@[prev.len() as int]]);
                lemma_tb_views_len(seq![out@[prev.len() as int]]);
                lemma_tb_views_index(seq![out@[prev.len() as int]], 0);
                assert(tb_views(seq![out@[prev.len() as int]]) =~= seq![
                    (out@[prev.len() as int].0@, out@[prev.len() as int].1),
                ]);
                assert(tb_views(out@) =~= tb_views(prev) + seq![
                    (out@[prev.len() as int].0@, out@[prev.len() as int].1),
                ]);
            }
            assert(decode_core_v(whole) == match decode_core_v(whole.subrange(i + 1, n as int)) {
                Option::Some(r) => Option::Some(tb_views(out@) + r),
                Option::None => Option::<Seq<(TermV, bool)>>::None,
            });
        }
        i = i + 1;
    }
    proof {
        assert(whole.subrange(n as int, n as int).len() == 0);
        assert(tb_views(out@) + Seq::<(TermV, bool)>::empty() =~= tb_views(out@));
    }
    Result::Ok(out)
}

/// Taking views of polarity pairs distributes over concatenation.
proof fn lemma_tb_concat(a: Seq<(Term, bool)>, b: Seq<(Term, bool)>)
    ensures
        tb_views(a + b) == tb_views(a) + tb_views(b),
{
    broadcast use {lemma_tb_views_len, lemma_tb_views_index};

    assert forall|i: int| 0 <= i < a.len() + b.len() implies tb_views(a + b)[i] == (tb_views(a)
        + tb_views(b))[i] by {
        if i < a.len() {
            assert((a + b)[i] == a[i]);
        } else {
            assert((a + b)[i] == b[i - a.len()]);
        }
    }
    assert(tb_views(a + b) =~= tb_views(a) + tb_views(b));
}

/// A backend whose parse ignores the reply and hands back a fixed raw
/// model, for driving sessions through scripted scenarios.
#[derive(Clone)]
pub struct FixedBackend {
    pub launch: SolverCmd,
    pub universe: Vec<(String, usize)>,
    pub interp: Vec<(String, Interpretation)>,
}

impl Backend for FixedBackend {
    fn get_cmd(&self) -> SolverCmd {
        SolverCmd {
            cmd: self.launch.cmd.clone(),
            args: Vec::new(),
            options: Vec::new(),
        }
    }

    fn parse(
        &self,
        sig: &Signature,
        n_states: usize,
        indicators: &Vec<String>,
        model: &Sexp,
    ) -> FOModel {
        let mut universe: Vec<(String, usize)> = Vec::new();
        let mut i: usize = 0;
        while i < self.universe.len()
            decreases self.universe@.len() - i,
        {
            let entry = &self.universe[i];
            universe.push((entry.0.clone(), entry.1));
            i = i + 1;
        }
        let mut interp: Vec<(String, Interpretation)> = Vec::new();
        let mut j: usize = 0;
        while j < self.interp.len()
            decreases self.interp@.len() - j,
        {
            let entry = &self.interp[j];
            interp.push((entry.0.clone(), clone_interp(&entry.1)));
            j = j + 1;
        }
        FOModel { universe, interp }
    }
}

// ===========================================================================
// A recording process, for driving sessions in tests
// ===========================================================================

/// A process handle that records every command and answers from scripted
/// reply queues. Its history is the log of commands sent since the last
/// reset; an exhausted queue reports a process failure.
pub struct RecordingProcess {
    pub log: Vec<Sexp>,
    pub sat_replies: Vec<SatResp>,
    pub sexp_replies: Vec<Sexp>,
    pub core_replies: Vec<Vec<Sexp>>,
}

impl RecordingProcess {
    /// A fresh recording process with the given scripted replies.
    pub fn new(
        sat_replies: Vec<SatResp>,
        sexp_replies: Vec<Sexp>,
        core_replies: Vec<Vec<Sexp>>,
    ) -> (r: RecordingProcess)
        ensures
            r.history() == Seq::<SexpV>::empty(),
    {
        let r = RecordingProcess { log: Vec::new(), sat_replies, sexp_replies, core_replies };
        proof {
            assert(sexp_views(Seq::<Sexp>::empty()) =~= Seq::<SexpV>::empty());
        }
        r
    }
}

impl SmtProcess for RecordingProcess {
    open spec fn history(&self) -> Seq<SexpV> {
        sexp_views(self.log@)
    }

    fn send(&mut self, cmd: &Sexp) {
        broadcast use group_sexp_view_lemmas;

        let ghost prev = self.log@;
        let c = clone_sexp(cmd);
        self.log.push(c);
        proof {
            assert forall|j: int| 0 <= j < self.log@.len() implies #[trigger] sexp_views(
                self.log@,
            )[j] == (sexp_views(prev).push(cmd@))[j] by {
                crate::sexp::lemma_sexp_views_index(self.log@, j);
                if j < prev.len() {
                    crate::sexp::lemma_sexp_views_index(prev, j);
                }
            }
            crate::sexp::lemma_sexp_views_len(self.log@);
            crate::sexp::lemma_sexp_views_len(prev);
            assert(sexp_views(self.log@) =~= sexp_views(prev).push(cmd@));
        }
    }

    fn send_with_reply(&mut self, cmd: &Sexp) -> (r: Result<Sexp, SolverError>) {
        self.send(cmd);
        if self.sexp_replies.len() > 0 {
            Result::Ok(self.sexp_replies.remove(0))
        } else {
            Result::Err(SolverError::ProcessError("no scripted reply".to_owned()))
        }
    }

    fn check_sat(&mut self, cmd: &Sexp) -> (r: Result<SatResp, SolverError>) {
        self.send(cmd);
        if self.sat_replies.len() > 0 {
            Result::Ok(self.sat_replies.remove(0))
        } else {
            Result::Err(SolverError::ProcessError("no scripted verdict".to_owned()))
        }
    }

    fn get_unsat_assumptions(&mut self) -> (r: Result<Vec<Sexp>, SolverError>) {
        let cmd = app("get-unsat-assumptions", Vec::new());
        proof {
            assert(sexp_views(Seq::<Sexp>::empty()) =~= Seq::<SexpV>::empty());
        }
        self.send(&cmd);
        if self.core_replies.len() > 0 {
            Result::Ok(self.core_replies.remove(0))
        } else {
            Result::Err(SolverError::ProcessError("no scripted core".to_owned()))
        }
    }

    fn reset(&mut self) {
        self.log.clear();
        proof {
            assert(sexp_views(Seq::<Sexp>::empty()) =~= Seq::<SexpV>::empty());
        }
    }
}

} // verus!
