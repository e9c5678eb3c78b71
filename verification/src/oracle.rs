//! The transition-system oracle.
//!
//! The inference engine treats the transition system as a black box that
//! answers queries: whether a frame's conjunction implies a formula, whether
//! a one-step transition preserves a formula, whether a frame admits a
//! safety violation, and what the predecessor of an obligation is. It also
//! consumes two operations of the finite-structure layer: evaluating a
//! formula in a structure and converting a structure to its characterizing
//! formula. The [`Oracle`] trait bundles these; each method's result is
//! pinned to a spec function of the trait, so every implementation is held
//! to its own answer function and the engine's contracts speak of those
//! answers. [`FixedOracle`] is a verified implementation whose answers are
//! stored values, for driving the engine in tests.

use vstd::prelude::*;

use crate::semantics::{Model, ModelV, clone_model};
use crate::syntax::{Term, TermV};
use crate::syntax::{clone_term, lemma_tb_views_index, lemma_tb_views_len, tb_views, term_views};

verus! {

/// The answer to a predecessor query: either a counterexample-to-induction
/// (the predecessor structure and the successor structure it steps to), or
/// an unsat core mapping each essential assumption to its assumed polarity.
pub enum CexOrCore {
    Cex((Model, Model)),
    Core(Vec<(Term, bool)>),
}

/// Mathematical view of a predecessor answer.
#[verifier::ext_equal]
pub enum CexOrCoreV {
    Cex((ModelV, ModelV)),
    Core(Seq<(TermV, bool)>),
}

impl View for CexOrCore {
    type V = CexOrCoreV;

    open spec fn view(&self) -> CexOrCoreV {
        match self {
            CexOrCore::Cex((pre, post)) => CexOrCoreV::Cex((pre@, post@)),
            CexOrCore::Core(core) => CexOrCoreV::Core(tb_views(core@)),
        }
    }
}

/// The view of an optional model.
pub open spec fn opt_model_view(r: Option<Model>) -> Option<ModelV> {
    match r {
        Option::Some(m) => Option::Some(m@),
        Option::None => Option::None,
    }
}

/// The queries the inference engine asks of a transition system, together
/// with the finite-structure operations it consumes.
///
/// Each spec function fixes what the corresponding method answers for given
/// arguments; an implementation is verified against its own answer
/// functions. A returned model of `Some` witnesses "no": `implies_cex`
/// answers `None` exactly when the hypotheses imply the term, `trans_cex`
/// answers `None` exactly when one transition step preserves the term, and
/// `safe_cex` answers `None` exactly when no state of the frame violates
/// the safety properties.
pub trait Oracle: Sized {
    /// The initial-state formula, as a list of top-level conjunctions.
    spec fn inits_spec(&self) -> Seq<TermV>;

    /// The safety properties.
    spec fn safeties_spec(&self) -> Seq<TermV>;

    /// The answer to "do the hypotheses imply the term": a countermodel, or
    /// nothing when the implication holds.
    spec fn implies_ans(&self, hyp: Seq<TermV>, t: TermV) -> Option<ModelV>;

    /// The answer to "does some state satisfying the hypotheses violate a
    /// safety property": a violating structure, or nothing.
    spec fn safe_ans(&self, hyp: Seq<TermV>) -> Option<ModelV>;

    /// The answer to "can one transition step from a state satisfying the
    /// hypotheses reach a state violating the term": a countermodel, or
    /// nothing when the term is preserved.
    spec fn trans_ans(&self, hyp: Seq<TermV>, t: TermV) -> Option<ModelV>;

    /// The answer to "is there a state in the previous frame whose successor
    /// satisfies the obligation".
    spec fn pred_ans(&self, hyp: Seq<TermV>, t: TermV) -> CexOrCoreV;

    /// The value of a term evaluated in a finite structure.
    spec fn eval_ans(&self, m: ModelV, t: TermV) -> usize;

    /// The characterizing formula of a finite structure.
    spec fn to_term_ans(&self, m: ModelV) -> TermV;

    fn inits(&self) -> (r: Vec<Term>)
        ensures
            term_views(r@) == self.inits_spec(),
    ;

    fn safeties(&self) -> (r: Vec<Term>)
        ensures
            term_views(r@) == self.safeties_spec(),
    ;

    fn implies_cex(&self, hyp: &Vec<Term>, t: &Term) -> (r: Option<Model>)
        ensures
            opt_model_view(r) == self.implies_ans(term_views(hyp@), t@),
    ;

    fn safe_cex(&self, hyp: &Vec<Term>) -> (r: Option<Model>)
        ensures
            opt_model_view(r) == self.safe_ans(term_views(hyp@)),
    ;

    fn trans_cex(&self, hyp: &Vec<Term>, t: &Term) -> (r: Option<Model>)
        ensures
            opt_model_view(r) == self.trans_ans(term_views(hyp@), t@),
    ;

    fn get_pred(&self, hyp: &Vec<Term>, t: &Term) -> (r: CexOrCore)
        ensures
            r@ == self.pred_ans(term_views(hyp@), t@),
    ;

    fn eval_in_model(&self, m: &Model, t: &Term) -> (r: usize)
        ensures
            r == self.eval_ans(m@, t@),
    ;

    fn model_to_term(&self, m: &Model) -> (r: Term)
        ensures
            r@ == self.to_term_ans(m@),
    ;
}

/// Copy of an optional model with the same view.
pub fn clone_opt_model(m: &Option<Model>) -> (r: Option<Model>)
    ensures
        opt_model_view(r) == opt_model_view(*m),
{
    match m {
        Option::Some(inner) => Option::Some(clone_model(inner)),
        Option::None => Option::None,
    }
}

/// Copy of a predecessor answer with the same view.
pub fn clone_cex_or_core(c: &CexOrCore) -> (r: CexOrCore)
    ensures
        r@ == c@,
{
    match c {
        CexOrCore::Cex((pre, post)) => CexOrCore::Cex((clone_model(pre), clone_model(post))),
        CexOrCore::Core(core) => {
            let mut out: Vec<(Term, bool)> = Vec::new();
            let n = core.len();
            let mut i: usize = 0;
            while i < n
                invariant
                    n == core@.len(),
                    i <= n,
                    out@.len() == i,
                    forall|j: int|
                        0 <= j < i ==> (#[trigger] out@[j]).0@ == core@[j].0@ && out@[j].1
                            == core@[j].1,
                decreases n - i,
            {
                let entry = &core[i];
                out.push((clone_term(&entry.0), entry.1));
                i = i + 1;
            }
            proof {
                assert forall|j: int| 0 <= j < n implies #[trigger] tb_views(out@)[j] == tb_views(
                    core@,
                )[j] by {
                    lemma_tb_views_index(out@, j);
                    lemma_tb_views_index(core@, j);
                }
                lemma_tb_views_len(out@);
                lemma_tb_views_len(core@);
                assert(tb_views(out@) =~= tb_views(core@));
            }
            CexOrCore::Core(out)
        },
    }
}

/// A transition-system oracle with fixed answers, independent of the query's
/// arguments. It drives the engine through scripted scenarios: a system
/// whose every formula is implied and preserved, or one whose frontier
/// always admits a given safety violation.
pub struct FixedOracle {
    /// Returned by `inits`.
    pub init_terms: Vec<Term>,
    /// Returned by `safeties`.
    pub safety_terms: Vec<Term>,
    /// Returned by `implies_cex`: a countermodel, or nothing when every
    /// implication should be reported as holding.
    pub implies_model: Option<Model>,
    /// Returned by `safe_cex`.
    pub safe_model: Option<Model>,
    /// Returned by `trans_cex`.
    pub trans_model: Option<Model>,
    /// Returned by `get_pred`.
    pub pred_answer: CexOrCore,
    /// Returned by `eval_in_model`.
    pub eval_value: usize,
    /// Returned by `model_to_term`.
    pub structure_term: Term,
}

impl Oracle for FixedOracle {
    open spec fn inits_spec(&self) -> Seq<TermV> {
        term_views(self.init_terms@)
    }

    open spec fn safeties_spec(&self) -> Seq<TermV> {
        term_views(self.safety_terms@)
    }

    open spec fn implies_ans(&self, hyp: Seq<TermV>, t: TermV) -> Option<ModelV> {
        opt_model_view(self.implies_model)
    }

    open spec fn safe_ans(&self, hyp: Seq<TermV>) -> Option<ModelV> {
        opt_model_view(self.safe_model)
    }

    open spec fn trans_ans(&self, hyp: Seq<TermV>, t: TermV) -> Option<ModelV> {
        opt_model_view(self.trans_model)
    }

    open spec fn pred_ans(&self, hyp: Seq<TermV>, t: TermV) -> CexOrCoreV {
        self.pred_answer@
    }

    open spec fn eval_ans(&self, m: ModelV, t: TermV) -> usize {
        self.eval_value
    }

    open spec fn to_term_ans(&self, m: ModelV) -> TermV {
        self.structure_term@
    }

    fn inits(&self) -> (r: Vec<Term>) {
        crate::syntax::clone_terms(&self.init_terms)
    }

    fn safeties(&self) -> (r: Vec<Term>) {
        crate::syntax::clone_terms(&self.safety_terms)
    }

    fn implies_cex(&self, hyp: &Vec<Term>, t: &Term) -> (r: Option<Model>) {
        clone_opt_model(&self.implies_model)
    }

    fn safe_cex(&self, hyp: &Vec<Term>) -> (r: Option<Model>) {
        clone_opt_model(&self.safe_model)
    }

    fn trans_cex(&self, hyp: &Vec<Term>, t: &Term) -> (r: Option<Model>) {
        clone_opt_model(&self.trans_model)
    }

    fn get_pred(&self, hyp: &Vec<Term>, t: &Term) -> (r: CexOrCore) {
        clone_cex_or_core(&self.pred_answer)
    }

    fn eval_in_model(&self, m: &Model, t: &Term) -> (r: usize) {
        self.eval_value
    }

    fn model_to_term(&self, m: &Model) -> (r: Term) {
        clone_term(&self.structure_term)
    }
}

} // verus!
