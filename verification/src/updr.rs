//! The inference engine.
//!
//! The engine proves safety properties by computing an inductive
//! strengthening of the reachable-state invariant: it keeps a sequence of
//! [`Frame`]s whose conjunctions over-approximate the states reachable
//! within a bounded number of transition steps, searches backward from
//! safety violations for obligations to refute ([`BackwardsReachableState`]),
//! blocks each obligation by strengthening frames with its negation,
//! simplifies frames by dropping redundant terms, and extends the frame
//! sequence while propagating preserved terms forward. All transition-system
//! queries go through an [`Oracle`].

use vstd::prelude::*;

use crate::cnf::{splittable_v, term_to_cnf_clauses, ttc_v};
use crate::oracle::{CexOrCore, CexOrCoreV, Oracle};
use crate::semantics::{Model, ModelV, clone_model};
use crate::syntax::{NOp, Term, TermV};
use crate::syntax::{clone_term, clone_terms, negate, negate_and_simplify, negate_v, term_eq};
use crate::syntax::{group_term_view_lemmas, nas_v, nas_vs, term_view, term_views};

verus! {

/// One frame: an ordered sequence of terms whose conjunction
/// over-approximates the states reachable within a bounded number of steps.
///
/// The view of a frame is the sequence of its terms' views.
#[derive(PartialEq, Eq, Debug)]
pub struct Frame {
    pub terms: Vec<Term>,
}

impl View for Frame {
    type V = Seq<TermV>;

    open spec fn view(&self) -> Seq<TermV> {
        term_views(self.terms@)
    }
}

impl Frame {
    /// A frame holding only the trivially true constraint.
    pub fn new() -> (f: Frame)
        ensures
            f@ == seq![TermV::Literal(true)],
    {
        let mut terms: Vec<Term> = Vec::new();
        terms.push(Term::Literal(true));
        proof {
            crate::syntax::lemma_term_views_len(terms@);
            crate::syntax::lemma_term_views_index(terms@, 0);
            assert(term_views(terms@) =~= seq![TermV::Literal(true)]);
        }
        Frame { terms }
    }

    /// Add one term to the frame.
    pub fn strengthen(&mut self, term: Term)
        ensures
            final(self)@ == old(self)@.push(term@),
    {
        broadcast use group_term_view_lemmas;

        let ghost prev = self.terms@;
        let ghost tv = term@;
        self.terms.push(term);
        proof {
            assert(self.terms@ =~= prev + seq![self.terms@[prev.len() as int]]);
            crate::syntax::lemma_term_views_concat(prev, seq![self.terms@[prev.len() as int]]);
            assert(term_views(seq![self.terms@[prev.len() as int]]) =~= seq![tv]);
            assert(term_views(self.terms@) =~= term_views(prev).push(tv));
        }
    }
}

/// An obligation: either a symbolic formula or a concrete
/// counterexample-to-induction structure.
#[derive(Debug)]
pub enum TermOrModel {
    Model(Model),
    Term(Term),
}

/// Mathematical view of an obligation.
#[verifier::ext_equal]
pub enum TermOrModelV {
    Model(ModelV),
    Term(TermV),
}

impl View for TermOrModel {
    type V = TermOrModelV;

    open spec fn view(&self) -> TermOrModelV {
        match self {
            TermOrModel::Model(m) => TermOrModelV::Model(m@),
            TermOrModel::Term(t) => TermOrModelV::Term(t@),
        }
    }
}

/// Copy of an obligation with the same view.
pub fn clone_term_or_model(tm: &TermOrModel) -> (r: TermOrModel)
    ensures
        r@ == tm@,
{
    match tm {
        TermOrModel::Model(m) => TermOrModel::Model(clone_model(m)),
        TermOrModel::Term(t) => TermOrModel::Term(clone_term(t)),
    }
}

/// The formula an obligation stands for: a symbolic obligation is its own
/// term, a structure converts to its characterizing formula.
pub open spec fn obligation_term_v<O: Oracle>(module: &O, tm: TermOrModelV) -> TermV {
    match tm {
        TermOrModelV::Term(t) => t,
        TermOrModelV::Model(m) => module.to_term_ans(m),
    }
}

/// A node of the backward-reachability search: an obligation together with
/// its refutation progress.
#[derive(Debug)]
pub struct BackwardsReachableState {
    /// Stable identity, assigned at creation; equal to the node's position.
    pub id: usize,
    /// The obligation this node represents.
    pub term_or_model: TermOrModel,
    /// Forward distance, in transition steps, from this state to a safety
    /// violation: zero for a node made directly from a negated safety clause
    /// or a safety counterexample, and derived from the source obligation for
    /// a predecessor node.
    pub num_steps_to_bad: usize,
    /// The highest frame index for which the engine has proven this state
    /// excluded; never decreases over the node's lifetime.
    pub known_absent_until_frame: usize,
}

/// A fatal inconsistency of the search.
#[derive(Debug)]
pub enum UpdrError {
    /// Blocking regressed to the initial frame: the obligation contradicts
    /// the initial states, so the search invariants are broken. Carries the
    /// obligation's formula as diagnostic context.
    AbstractCex(Term),
    /// A safety counterexample was found while only the initial frame
    /// exists: the initial states themselves violate safety. Carries the
    /// violating structure.
    InitialStateUnsafe(Model),
    /// The step bound given to the search was exhausted before the current
    /// operation finished.
    OutOfFuel,
}

/// Well-formedness of the node list: each node's id is its position, and its
/// recorded distance to a violation never exceeds its refutation progress.
/// Every creation site keeps the latter: a seeded clause and a fresh safety
/// counterexample start at distance zero, a predecessor node starts with
/// distance and progress both at the derived value, and progress only grows.
pub open spec fn brs_wf(brs: Seq<BackwardsReachableState>) -> bool {
    forall|j: int|
        0 <= j < brs.len() ==> {
            let b = #[trigger] brs[j];
            &&& b.id == j
            &&& b.num_steps_to_bad <= b.known_absent_until_frame
        }
}

/// Some node (if any exist) has refutation progress not beyond the newest
/// frame. The selection loop relies on this: the lexicographically minimal
/// node is then never past the frontier, so indexing the frame after its
/// progress stays in bounds.
pub open spec fn brs_floor(brs: Seq<BackwardsReachableState>, flen: int) -> bool {
    brs.len() == 0 || exists|j: int|
        0 <= j < brs.len() && (#[trigger] brs[j]).known_absent_until_frame + 1 <= flen
}

/// The old node list is preserved in the new one: every old node keeps its
/// identity, obligation and distance, its refutation progress never
/// regresses, and new nodes only appear at the end.
pub open spec fn brs_preserved(
    a: Seq<BackwardsReachableState>,
    b: Seq<BackwardsReachableState>,
) -> bool {
    &&& a.len() <= b.len()
    &&& forall|j: int|
        0 <= j < a.len() ==> {
            let x = #[trigger] a[j];
            let y = b[j];
            &&& y.id == x.id
            &&& y.term_or_model == x.term_or_model
            &&& y.num_steps_to_bad == x.num_steps_to_bad
            &&& y.known_absent_until_frame >= x.known_absent_until_frame
        }
}

/// The old node list stands unchanged at the front of the new one: new nodes
/// only appear at the end.
pub open spec fn brs_extended(
    a: Seq<BackwardsReachableState>,
    b: Seq<BackwardsReachableState>,
) -> bool {
    a.len() <= b.len() && forall|j: int| 0 <= j < a.len() ==> #[trigger] b[j] == a[j]
}

/// The conjuncts the initial-state formulas flatten to: each formula is a
/// top-level conjunction and contributes its direct conjuncts, in order.
pub open spec fn init_conjuncts(inits: Seq<TermV>) -> Seq<TermV>
    decreases inits,
{
    if inits.len() == 0 {
        Seq::<TermV>::empty()
    } else {
        init_conjuncts(inits.drop_last()) + (match inits.last() {
            TermV::NAryOp(NOp::And, ts) => ts,
            _ => Seq::<TermV>::empty(),
        })
    }
}

/// The obligations the search seeds: each safety property's clauses, each
/// negated with simplification, in order.
pub open spec fn seeded_obligations(safeties: Seq<TermV>) -> Seq<TermV>
    decreases safeties,
{
    if safeties.len() == 0 {
        Seq::<TermV>::empty()
    } else {
        seeded_obligations(safeties.drop_last()) + nas_vs(ttc_v(safeties.last()))
    }
}

/// The node list holds exactly the listed obligations, in order, each at
/// distance zero and progress zero.
pub open spec fn seeds_match(brs: Seq<BackwardsReachableState>, seeds: Seq<TermV>) -> bool {
    &&& brs.len() == seeds.len()
    &&& forall|i: int|
        0 <= i < brs.len() ==> {
            let b = #[trigger] brs[i];
            &&& b.id == i
            &&& b.term_or_model@ == TermOrModelV::Term(seeds[i])
            &&& b.num_steps_to_bad == 0
            &&& b.known_absent_until_frame == 0
        }
}

/// A frame strengthened idempotently: the term is appended exactly when the
/// frame does not already hold it.
pub open spec fn strengthened(f: Seq<TermV>, t: TermV) -> Seq<TermV> {
    if f.contains(t) {
        f
    } else {
        f.push(t)
    }
}

/// The oracle evidence that an obligation is excluded by the frame after
/// progress `k`: frame `k + 1` exists, and a symbolic obligation's negation
/// is implied by it, or a concrete structure evaluates its conjunction to
/// false.
pub open spec fn advance_justified<O: Oracle>(
    module: &O,
    frames: Seq<Frame>,
    tm: TermOrModel,
    k: int,
) -> bool {
    &&& 0 <= k
    &&& k + 2 <= frames.len()
    &&& match tm {
        TermOrModel::Term(t) => module.implies_ans(frames[k + 1]@, negate_v(t@)) is None,
        TermOrModel::Model(m) => module.eval_ans(m@, TermV::NAryOp(NOp::And, frames[k + 1]@)) == 0,
    }
}

/// How far the node list is from the fixpoint of the selection loop: the
/// total number of frames its nodes' refutation progress can still advance,
/// counting nodes past the frontier for nothing.
pub open spec fn slack(brs: Seq<BackwardsReachableState>, flen: int) -> int
    decreases brs,
{
    if brs.len() == 0 {
        0
    } else {
        let d = flen - 1 - brs[0].known_absent_until_frame;
        (if d >= 0 {
            d
        } else {
            0
        }) + slack(brs.subrange(1, brs.len() as int), flen)
    }
}

proof fn lemma_slack_nonneg(brs: Seq<BackwardsReachableState>, flen: int)
    ensures
        slack(brs, flen) >= 0,
    decreases brs,
{
    if brs.len() > 0 {
        lemma_slack_nonneg(brs.subrange(1, brs.len() as int), flen);
    }
}

proof fn lemma_slack_update(
    a: Seq<BackwardsReachableState>,
    b: Seq<BackwardsReachableState>,
    flen: int,
    j: int,
)
    requires
        a.len() == b.len(),
        0 <= j < a.len(),
        forall|k: int| 0 <= k < a.len() && k != j ==> a[k] == #[trigger] b[k],
        b[j].known_absent_until_frame == a[j].known_absent_until_frame + 1,
        a[j].known_absent_until_frame + 1 <= flen - 1,
    ensures
        slack(b, flen) == slack(a, flen) - 1,
    decreases a,
{
    let at = a.subrange(1, a.len() as int);
    let bt = b.subrange(1, b.len() as int);
    if j == 0 {
        assert(at =~= bt);
    } else {
        lemma_slack_update(at, bt, flen, j - 1);
    }
}

/// Whether the frame holds the given term.
fn frame_contains(terms: &Vec<Term>, t: &Term) -> (r: bool)
    ensures
        r == term_views(terms@).contains(t@),
{
    broadcast use group_term_view_lemmas;

    let n = terms.len();
    let mut i: usize = 0;
    while i < n
        invariant
            n == terms@.len(),
            i <= n,
            forall|j: int| 0 <= j < i ==> #[trigger] term_view(terms@[j]) != t@,
        decreases n - i,
    {
        if term_eq(&terms[i], t) {
            proof {
                crate::syntax::lemma_term_views_len(terms@);
                crate::syntax::lemma_term_views_index(terms@, i as int);
                assert(term_views(terms@)[i as int] == t@);
            }
            return true;
        }
        i = i + 1;
    }
    proof {
        if term_views(terms@).contains(t@) {
            let j = choose|j: int|
                0 <= j < term_views(terms@).len() && term_views(terms@)[j] == t@;
            crate::syntax::lemma_term_views_index(terms@, j);
        }
    }
    false
}

/// Index of the node minimal in the order (progress, distance to bad),
/// lexicographically.
fn min_state_index(brs: &Vec<BackwardsReachableState>) -> (r: usize)
    requires
        brs@.len() > 0,
    ensures
        r < brs@.len(),
        forall|j: int|
            0 <= j < brs@.len() ==> lex_le(
                brs@[r as int].known_absent_until_frame,
                brs@[r as int].num_steps_to_bad,
                (#[trigger] brs@[j]).known_absent_until_frame,
                brs@[j].num_steps_to_bad,
            ),
{
    let n = brs.len();
    let mut best: usize = 0;
    let mut i: usize = 1;
    while i < n
        invariant
            n == brs@.len(),
            best < n,
            1 <= i <= n,
            forall|j: int|
                0 <= j < i ==> lex_le(
                    brs@[best as int].known_absent_until_frame,
                    brs@[best as int].num_steps_to_bad,
                    (#[trigger] brs@[j]).known_absent_until_frame,
                    brs@[j].num_steps_to_bad,
                ),
        decreases n - i,
    {
        let cand = &brs[i];
        let cur = &brs[best];
        if cand.known_absent_until_frame < cur.known_absent_until_frame || (
        cand.known_absent_until_frame == cur.known_absent_until_frame && cand.num_steps_to_bad
            < cur.num_steps_to_bad) {
            best = i;
        }
        i = i + 1;
    }
    best
}

/// Lexicographic order on (progress, distance) pairs.
pub open spec fn lex_le(a1: usize, a2: usize, b1: usize, b2: usize) -> bool {
    a1 < b1 || (a1 == b1 && a2 <= b2)
}

/// The search state of the inference engine.
pub struct UPDR {
    /// The frame sequence.
    pub frames: Vec<Frame>,
    /// All backward-reachability nodes created by the current search; never
    /// deleted.
    pub backwards_reachable_states: Vec<BackwardsReachableState>,
    /// The node currently being blocked, if any: newly discovered
    /// predecessors compute their distance relative to it.
    pub currently_blocking_id: Option<usize>,
}

impl UPDR {
    /// Well-formedness of the search state: at least one frame exists and
    /// the node list is consistent.
    pub open spec fn wf(&self) -> bool {
        &&& self.frames@.len() >= 1
        &&& brs_wf(self.backwards_reachable_states@)
    }

    /// A fresh engine with no frames and no obligations.
    pub fn new() -> (u: UPDR)
        ensures
            u.frames@.len() == 0,
            u.backwards_reachable_states@.len() == 0,
            u.currently_blocking_id is None,
    {
        UPDR {
            frames: Vec::new(),
            backwards_reachable_states: Vec::new(),
            currently_blocking_id: Option::None,
        }
    }

    /// Select the next obligation to address, or report that none remains
    /// for the current frame count.
    ///
    /// Known nodes are visited in order of least refutation progress,
    /// breaking ties by distance to a violation; a node whose obligation is
    /// excluded by the next frame has its progress advanced, and the first
    /// one not excluded is returned. When every known node has been pushed
    /// to the newest frame, the oracle is asked for a fresh safety
    /// counterexample in the frontier; if one exists, it becomes a new node
    /// at distance zero.
    pub fn find_state_to_block<O: Oracle>(&mut self, module: &O) -> (r: Result<
        Option<usize>,
        UpdrError,
    >)
        requires
            old(self).wf(),
            brs_floor(old(self).backwards_reachable_states@, old(self).frames@.len() as int),
        ensures
            final(self).wf(),
            final(self).frames == old(self).frames,
            final(self).currently_blocking_id == old(self).currently_blocking_id,
            brs_preserved(
                old(self).backwards_reachable_states@,
                final(self).backwards_reachable_states@,
            ),
            brs_floor(
                final(self).backwards_reachable_states@,
                final(self).frames@.len() as int,
            ),
            final(self).backwards_reachable_states@.len()
                <= old(self).backwards_reachable_states@.len() + 1,
            // A node's progress advances from k to k + 1 only on the oracle's
            // word that the obligation is excluded by frame k + 1.
            forall|j: int, k: int|
                0 <= j < old(self).backwards_reachable_states@.len()
                    && old(self).backwards_reachable_states@[j].known_absent_until_frame <= k
                    && k < final(self).backwards_reachable_states@[j].known_absent_until_frame
                    ==> #[trigger] advance_justified(
                    module,
                    final(self).frames@,
                    final(self).backwards_reachable_states@[j].term_or_model,
                    k,
                ),
            match r {
                Result::Ok(Option::Some(id)) => {
                    let brs = final(self).backwards_reachable_states@;
                    &&& (id as int) < brs.len()
                    &&& brs[id as int].known_absent_until_frame + 2 <= final(self).frames@.len()
                    // The selected node is minimal in (progress, distance).
                    &&& forall|j: int|
                        0 <= j < brs.len() ==> lex_le(
                            brs[id as int].known_absent_until_frame,
                            brs[id as int].num_steps_to_bad,
                            (#[trigger] brs[j]).known_absent_until_frame,
                            brs[j].num_steps_to_bad,
                        )
                    &&& ((id as int) < old(self).backwards_reachable_states@.len() ==> {
                        // A known node was selected: the list is unchanged in
                        // length and the oracle witnessed that the next frame
                        // does not exclude the obligation.
                        let b = brs[id as int];
                        let next = final(self).frames@[b.known_absent_until_frame + 1]@;
                        &&& brs.len() == old(self).backwards_reachable_states@.len()
                        &&& match b.term_or_model {
                            TermOrModel::Term(t) => module.implies_ans(
                                next,
                                negate_v(t@),
                            ) is Some,
                            TermOrModel::Model(m) => module.eval_ans(
                                m@,
                                TermV::NAryOp(NOp::And, next),
                            ) != 0,
                        }
                    })
                    &&& ((id as int) >= old(self).backwards_reachable_states@.len() ==> {
                        // Exactly one fresh node was appended, wrapping the
                        // frontier's safety counterexample at distance zero.
                        &&& id as int == old(self).backwards_reachable_states@.len()
                        &&& brs.len() == old(self).backwards_reachable_states@.len() + 1
                        &&& module.safe_ans(
                            final(self).frames@[final(self).frames@.len() - 1]@,
                        ) matches Option::Some(m) && brs[id as int].term_or_model@
                            == TermOrModelV::Model(m)
                        &&& brs[id as int].num_steps_to_bad == 0
                        &&& brs[id as int].known_absent_until_frame + 2
                            == final(self).frames@.len()
                    })
                },
                Result::Ok(Option::None) => {
                    &&& final(self).backwards_reachable_states@.len() == old(
                        self,
                    ).backwards_reachable_states@.len()
                    &&& (module.safeties_spec().len() == 0 || module.safe_ans(
                        final(self).frames@[final(self).frames@.len() - 1]@,
                    ) is None)
                    // Every known node has been pushed to the frontier.
                    &&& forall|j: int|
                        0 <= j < final(self).backwards_reachable_states@.len() ==> (
                        #[trigger] final(self).backwards_reachable_states@[j]).known_absent_until_frame
                            + 1 >= final(self).frames@.len()
                },
                Result::Err(e) => {
                    &&& final(self).frames@.len() == 1
                    &&& final(self).backwards_reachable_states
                        == old(self).backwards_reachable_states
                    &&& (e matches UpdrError::InitialStateUnsafe(m) && module.safe_ans(
                        final(self).frames@[0]@,
                    ) == Option::Some(m@))
                },
            },
    {
        broadcast use group_term_view_lemmas;

        let ghost orig = self.backwards_reachable_states@;
        let ghost flen = self.frames@.len() as int;
        let mut searching = true;
        while searching
            invariant
                self.wf(),
                self.frames == old(self).frames,
                self.frames@.len() as int == flen,
                flen >= 1,
                self.currently_blocking_id == old(self).currently_blocking_id,
                orig == old(self).backwards_reachable_states@,
                self.backwards_reachable_states@.len() == orig.len(),
                brs_preserved(orig, self.backwards_reachable_states@),
                brs_floor(self.backwards_reachable_states@, flen),
                flen == 1 ==> self.backwards_reachable_states == old(
                    self,
                ).backwards_reachable_states,
                forall|j: int, k: int|
                    0 <= j < orig.len() && orig[j].known_absent_until_frame <= k
                        < self.backwards_reachable_states@[j].known_absent_until_frame
                        ==> #[trigger] advance_justified(
                        module,
                        self.frames@,
                        self.backwards_reachable_states@[j].term_or_model,
                        k,
                    ),
                !searching ==> forall|j: int|
                    0 <= j < self.backwards_reachable_states@.len() ==> (#[trigger] self.backwards_reachable_states@[j]).known_absent_until_frame
                        + 1 >= flen,
            decreases slack(self.backwards_reachable_states@, flen), (if searching {
                1int
            } else {
                0int
            }),
        {
            proof {
                lemma_slack_nonneg(self.backwards_reachable_states@, flen);
            }
            if self.backwards_reachable_states.len() == 0 {
                searching = false;
            } else {
                let min_idx = min_state_index(&self.backwards_reachable_states);
                proof {
                    // Some node sits at or below the frontier, and the
                    // selected node is minimal, so its progress is in range.
                    let cur = self.backwards_reachable_states@;
                    let w = choose|j: int|
                        0 <= j < cur.len() && (#[trigger] cur[j]).known_absent_until_frame + 1
                            <= flen;
                    assert(lex_le(
                        cur[min_idx as int].known_absent_until_frame,
                        cur[min_idx as int].num_steps_to_bad,
                        cur[w].known_absent_until_frame,
                        cur[w].num_steps_to_bad,
                    ));
                }
                let kaf = self.backwards_reachable_states[min_idx].known_absent_until_frame;
                if kaf == self.frames.len() - 1 {
                    searching = false;
                } else {
                    match &self.backwards_reachable_states[min_idx].term_or_model {
                        TermOrModel::Term(t) => {
                            let neg = negate(clone_term(t));
                            let cex = module.implies_cex(&self.frames[kaf + 1].terms, &neg);
                            if cex.is_some() {
                                return Result::Ok(
                                    Option::Some(self.backwards_reachable_states[min_idx].id),
                                );
                            }
                        },
                        TermOrModel::Model(m) => {
                            let conj = Term::NAryOp(
                                NOp::And,
                                clone_terms(&self.frames[kaf + 1].terms),
                            );
                            if module.eval_in_model(m, &conj) != 0 {
                                return Result::Ok(
                                    Option::Some(self.backwards_reachable_states[min_idx].id),
                                );
                            }
                        },
                    }
                    // The obligation does not appear in the next frame.
                    let ghost prev = self.backwards_reachable_states@;
                    self.backwards_reachable_states[min_idx].known_absent_until_frame = kaf + 1;
                    proof {
                        let cur = self.backwards_reachable_states@;
                        assert(kaf + 2 <= flen);
                        assert(advance_justified(
                            module,
                            self.frames@,
                            cur[min_idx as int].term_or_model,
                            kaf as int,
                        ));
                        assert forall|j: int, k: int|
                            0 <= j < orig.len() && orig[j].known_absent_until_frame <= k
                                < cur[j].known_absent_until_frame implies #[trigger] advance_justified(
                            module,
                            self.frames@,
                            cur[j].term_or_model,
                            k,
                        ) by {
                            if j != min_idx as int || k < kaf as int {
                                assert(cur[j].term_or_model == prev[j].term_or_model);
                                assert(advance_justified(
                                    module,
                                    self.frames@,
                                    prev[j].term_or_model,
                                    k,
                                ));
                            }
                        }
                        lemma_slack_update(
                            prev,
                            self.backwards_reachable_states@,
                            flen,
                            min_idx as int,
                        );
                        lemma_slack_nonneg(self.backwards_reachable_states@, flen);
                    }
                }
            }
        }
        // Search for a new state violating safety in the frontier.
        let last_index = self.frames.len() - 1;
        let counter_example = module.safe_cex(&self.frames[last_index].terms);
        let safeties = module.safeties();
        if safeties.len() == 0 || counter_example.is_none() {
            // Nothing to block.
            return Result::Ok(Option::None);
        }
        if self.frames.len() < 2 {
            let m = match counter_example {
                Option::Some(m) => m,
                Option::None => unreached(),
            };
            return Result::Err(UpdrError::InitialStateUnsafe(m));
        }
        let m = match counter_example {
            Option::Some(m) => m,
            Option::None => unreached(),
        };
        let id = self.backwards_reachable_states.len();
        let ghost before_push = self.backwards_reachable_states@;
        let new_state = BackwardsReachableState {
            id,
            term_or_model: TermOrModel::Model(m),
            num_steps_to_bad: 0,
            // Was not found in the last frame, only in this one.
            known_absent_until_frame: self.frames.len() - 2,
        };
        self.backwards_reachable_states.push(new_state);
        proof {
            let brs = self.backwards_reachable_states@;
            assert(brs[id as int].known_absent_until_frame + 1 <= flen);
            assert(brs_floor(brs, flen));
            assert forall|j: int| 0 <= j < brs.len() implies lex_le(
                brs[id as int].known_absent_until_frame,
                brs[id as int].num_steps_to_bad,
                (#[trigger] brs[j]).known_absent_until_frame,
                brs[j].num_steps_to_bad,
            ) by {
                if j < id as int {
                    assert(before_push[j].known_absent_until_frame + 1 >= flen);
                }
            }
        }
        Result::Ok(Option::Some(id))
    }

    /// Ask the oracle for a predecessor of the obligation within the given
    /// frame: a counterexample-to-induction, or the unsat core refuting one.
    fn get_predecessor<O: Oracle>(
        &self,
        term_or_model: &TermOrModel,
        frame_index: usize,
        module: &O,
    ) -> (r: CexOrCore)
        requires
            frame_index < self.frames@.len(),
        ensures
            r@ == module.pred_ans(
                self.frames@[frame_index as int]@,
                obligation_term_v(module, term_or_model@),
            ),
    {
        let as_term: Term = match term_or_model {
            TermOrModel::Term(t) => clone_term(t),
            TermOrModel::Model(m) => module.model_to_term(m),
        };
        let prev_frame = &self.frames[frame_index];
        module.get_pred(&prev_frame.terms, &as_term)
    }

    /// Refute an obligation at the given frame by backward reachability.
    ///
    /// Predecessors reported by the oracle become new obligations, blocked
    /// recursively one frame earlier; when no predecessor remains the oracle
    /// supplies an unsat core as the minimal justification, and the negated
    /// obligation strengthens every frame up to `frame_index` that does not
    /// already hold it, then propagates forward while the oracle confirms it
    /// preserved. Regressing into the initial frame is a fatal inconsistency.
    fn block<O: Oracle>(
        &mut self,
        term_or_model: &TermOrModel,
        frame_index: usize,
        trace: &mut Vec<TermOrModel>,
        module: &O,
        fuel: usize,
    ) -> (r: Result<(), UpdrError>)
        requires
            old(self).wf(),
            1 <= frame_index < old(self).frames@.len(),
            old(self).frames@.len() <= usize::MAX / 2,
            old(self).currently_blocking_id matches Option::Some(cb) && (cb as int) < old(
                self,
            ).backwards_reachable_states@.len() && frame_index <= old(
                self,
            ).backwards_reachable_states@[cb as int].known_absent_until_frame + 1 && old(
                self,
            ).backwards_reachable_states@[cb as int].known_absent_until_frame + 2 <= old(
                self,
            ).frames@.len(),
        ensures
            final(self).wf(),
            final(self).frames@.len() == old(self).frames@.len(),
            final(self).currently_blocking_id == old(self).currently_blocking_id,
            brs_extended(
                old(self).backwards_reachable_states@,
                final(self).backwards_reachable_states@,
            ),
            forall|i: int|
                0 <= i < old(self).frames@.len() ==> (#[trigger] old(
                    self,
                ).frames@[i]@).is_prefix_of(final(self).frames@[i]@),
            r is Ok ==> forall|i: int|
                0 <= i <= frame_index ==> (#[trigger] final(self).frames@[i]@).contains(
                    negate_v(obligation_term_v(module, term_or_model@)),
                ),
            // The obligation already contradicts the initial frame: the run
            // aborts with the obligation as diagnostic context, untouched.
            frame_index == 1 && module.implies_ans(
                old(self).frames@[0]@,
                negate_v(obligation_term_v(module, term_or_model@)),
            ) is Some ==> (r matches Result::Err(UpdrError::AbstractCex(t)) && t@
                == obligation_term_v(module, term_or_model@)) && final(self).frames == old(
                self,
            ).frames && final(self).backwards_reachable_states == old(
                self,
            ).backwards_reachable_states,
            // The oracle refutes the obligation outright: blocking succeeds.
            fuel >= 1 && module.pred_ans(
                old(self).frames@[frame_index - 1]@,
                obligation_term_v(module, term_or_model@),
            ) is Core && (frame_index == 1 ==> module.implies_ans(
                old(self).frames@[0]@,
                negate_v(obligation_term_v(module, term_or_model@)),
            ) is None) ==> r is Ok,
            // The oracle reports a counterexample-to-induction: a node for
            // the predecessor is registered, with distance and progress both
            // derived from the currently blocked source.
            fuel >= 1 && (frame_index >= 2 || module.implies_ans(
                old(self).frames@[0]@,
                negate_v(obligation_term_v(module, term_or_model@)),
            ) is None) ==> (module.pred_ans(
                old(self).frames@[frame_index - 1]@,
                obligation_term_v(module, term_or_model@),
            ) matches CexOrCoreV::Cex(pair) ==> {
                let brs = final(self).backwards_reachable_states@;
                let src = old(self).backwards_reachable_states@[old(
                    self,
                ).currently_blocking_id->Some_0 as int];
                let steps = src.known_absent_until_frame + 1 - frame_index
                    + src.num_steps_to_bad;
                &&& brs.len() > old(self).backwards_reachable_states@.len()
                &&& brs[old(self).backwards_reachable_states@.len() as int].id == old(
                    self,
                ).backwards_reachable_states@.len()
                &&& brs[old(self).backwards_reachable_states@.len() as int].term_or_model@
                    == TermOrModelV::Model(pair.1)
                &&& brs[old(self).backwards_reachable_states@.len() as int].known_absent_until_frame
                    == steps
                &&& brs[old(self).backwards_reachable_states@.len() as int].num_steps_to_bad
                    == steps
            }),
            // On success every frame up to frame_index was strengthened
            // idempotently from its state after the predecessor search, and
            // frames beyond received the negation exactly when the oracle
            // confirmed it preserved.
            r is Ok ==> exists|mid: Seq<Seq<TermV>>|
                {
                    let nv = negate_v(obligation_term_v(module, term_or_model@));
                    &&& #[trigger] mid.len() == old(self).frames@.len()
                    &&& (forall|i: int|
                        0 <= i < mid.len() ==> (#[trigger] old(
                            self,
                        ).frames@[i]@).is_prefix_of(mid[i]))
                    &&& (forall|i: int|
                        0 <= i <= frame_index ==> final(self).frames@[i]@ == #[trigger] strengthened(
                            mid[i],
                            nv,
                        ))
                    &&& (forall|i: int|
                        frame_index < i < mid.len() ==> final(self).frames@[i]@ == #[trigger] mid[i]
                            || final(self).frames@[i]@ == mid[i].push(nv))
                    &&& (forall|i: int|
                        frame_index < i < mid.len() && final(self).frames@[i]@ == (
                        #[trigger] mid[i]).push(nv) ==> !mid[i].contains(nv) && module.trans_ans(
                            final(self).frames@[i - 1]@,
                            nv,
                        ) is None)
                },
        decreases frame_index,
    {
        broadcast use group_term_view_lemmas;

        let as_term: Term = match term_or_model {
            TermOrModel::Term(t) => clone_term(t),
            TermOrModel::Model(m) => module.model_to_term(m),
        };
        let ghost atv = obligation_term_v(module, term_or_model@);
        if frame_index == 1 {
            let neg = negate(clone_term(&as_term));
            if module.implies_cex(&self.frames[0].terms, &neg).is_some() {
                // The obligation already contradicts the initial frame.
                return Result::Err(UpdrError::AbstractCex(as_term));
            }
        }
        let ghost succ = fuel >= 1 && module.pred_ans(
            old(self).frames@[frame_index - 1]@,
            atv,
        ) is Core;
        let ghost fcex = fuel >= 1 && (module.pred_ans(
            old(self).frames@[frame_index - 1]@,
            atv,
        ) matches CexOrCoreV::Cex(_));
        let ghost cb0 = old(self).currently_blocking_id->Some_0;
        let ghost steps0 = old(self).backwards_reachable_states@[cb0 as int].known_absent_until_frame
            + 1 - frame_index + old(
            self,
        ).backwards_reachable_states@[cb0 as int].num_steps_to_bad;
        let mut refuted = false;
        let mut k: usize = 0;
        while k < fuel && !refuted
            invariant
                self.wf(),
                self.frames@.len() == old(self).frames@.len(),
                self.frames@.len() <= usize::MAX / 2,
                self.currently_blocking_id == old(self).currently_blocking_id,
                old(self).currently_blocking_id matches Option::Some(cb) && (cb as int) < old(
                    self,
                ).backwards_reachable_states@.len() && frame_index <= old(
                    self,
                ).backwards_reachable_states@[cb as int].known_absent_until_frame + 1 && old(
                    self,
                ).backwards_reachable_states@[cb as int].known_absent_until_frame + 2 <= old(
                    self,
                ).frames@.len(),
                cb0 == old(self).currently_blocking_id->Some_0,
                steps0 == old(self).backwards_reachable_states@[cb0 as int].known_absent_until_frame
                    + 1 - frame_index + old(
                    self,
                ).backwards_reachable_states@[cb0 as int].num_steps_to_bad,
                succ == (fuel >= 1 && module.pred_ans(
                    old(self).frames@[frame_index - 1]@,
                    atv,
                ) is Core),
                fcex == (fuel >= 1 && (module.pred_ans(
                    old(self).frames@[frame_index - 1]@,
                    atv,
                ) matches CexOrCoreV::Cex(_))),
                atv == obligation_term_v(module, term_or_model@),
                frame_index == 1 ==> module.implies_ans(
                    old(self).frames@[0]@,
                    negate_v(atv),
                ) is None,
                1 <= frame_index < self.frames@.len(),
                k <= fuel,
                refuted ==> k >= 1,
                brs_extended(
                    old(self).backwards_reachable_states@,
                    self.backwards_reachable_states@,
                ),
                forall|i: int|
                    0 <= i < old(self).frames@.len() ==> (#[trigger] old(
                        self,
                    ).frames@[i]@).is_prefix_of(self.frames@[i]@),
                k == 0 ==> self.frames == old(self).frames
                    && self.backwards_reachable_states == old(self).backwards_reachable_states,
                succ && !refuted ==> k == 0,
                fcex && k >= 1 ==> {
                    let brs = self.backwards_reachable_states@;
                    let base = old(self).backwards_reachable_states@.len() as int;
                    &&& brs.len() > base
                    &&& brs[base].id == base
                    &&& (module.pred_ans(old(self).frames@[frame_index - 1]@, atv) matches CexOrCoreV::Cex(pair)
                        && brs[base].term_or_model@ == TermOrModelV::Model(pair.1))
                    &&& brs[base].known_absent_until_frame == steps0
                    &&& brs[base].num_steps_to_bad == steps0
                },
            decreases fuel - k,
        {
            match self.get_predecessor(term_or_model, frame_index - 1, module) {
                CexOrCore::Cex((_trans, cti)) => {
                    proof {
                        // A first answer cannot be a counterexample when the
                        // oracle's answer to this very query is a core.
                        if succ {
                            assert(k == 0);
                            assert(self.frames@[frame_index - 1] == old(
                                self,
                            ).frames@[frame_index - 1]);
                            assert(false);
                        }
                    }
                    let cb = match self.currently_blocking_id {
                        Option::Some(c) => c,
                        Option::None => unreached(),
                    };
                    proof {
                        assert(self.backwards_reachable_states@[cb as int] == old(
                            self,
                        ).backwards_reachable_states@[cb as int]);
                    }
                    // The frame count bounds the source's progress and, with
                    // well-formedness, its distance, so the derived value
                    // cannot overflow.
                    let n_frames = self.frames.len();
                    let src = &self.backwards_reachable_states[cb];
                    proof {
                        assert(src.known_absent_until_frame + 2 <= n_frames);
                        assert(src.num_steps_to_bad <= src.known_absent_until_frame);
                    }
                    let steps_from_cex = src.known_absent_until_frame + 1 - frame_index
                        + src.num_steps_to_bad;
                    let id = self.backwards_reachable_states.len();
                    let bstate = BackwardsReachableState {
                        id,
                        term_or_model: TermOrModel::Model(clone_model(&cti)),
                        known_absent_until_frame: steps_from_cex,
                        num_steps_to_bad: steps_from_cex,
                    };
                    self.backwards_reachable_states.push(bstate);
                    trace.push(TermOrModel::Model(clone_model(&cti)));
                    if frame_index == 1 {
                        // The predecessor lies inside the initial frame.
                        let t = module.model_to_term(&cti);
                        trace.pop();
                        return Result::Err(UpdrError::AbstractCex(t));
                    }
                    let ghost frames_before = self.frames@;
                    let ghost brs_before = self.backwards_reachable_states@;
                    let res = self.block(
                        &TermOrModel::Model(cti),
                        frame_index - 1,
                        trace,
                        module,
                        fuel,
                    );
                    trace.pop();
                    proof {
                        assert forall|i: int| 0 <= i < old(self).frames@.len() implies (
                        #[trigger] old(self).frames@[i]@).is_prefix_of(self.frames@[i]@) by {
                            lemma_prefix_trans(
                                old(self).frames@[i]@,
                                frames_before[i]@,
                                self.frames@[i]@,
                            );
                        }
                        assert(brs_extended(brs_before, self.backwards_reachable_states@));
                        assert(brs_extended(
                            old(self).backwards_reachable_states@,
                            self.backwards_reachable_states@,
                        ));
                        let base = old(self).backwards_reachable_states@.len() as int;
                        if base < brs_before.len() {
                            assert(self.backwards_reachable_states@[base] == brs_before[base]);
                        }
                    }
                    if res.is_err() {
                        return res;
                    }
                },
                CexOrCore::Core(_core) => {
                    // The unsat core is the minimal justification: the
                    // obligation has no predecessor left, so it is refuted.
                    proof {
                        if fcex && k == 0 {
                            assert(self.frames@[frame_index - 1] == old(
                                self,
                            ).frames@[frame_index - 1]);
                            assert(false);
                        }
                    }
                    refuted = true;
                },
            }
            k = k + 1;
        }
        if !refuted {
            proof {
                assert(!succ);
            }
            return Result::Err(UpdrError::OutOfFuel);
        }
        // Strengthen every frame up to frame_index with the negated
        // obligation, skipping frames that already contain it.
        let negated = negate(as_term);
        let ghost nv = negated@;
        let ghost mid = Seq::new(
            self.frames@.len() as nat,
            |i: int| self.frames@[i]@,
        );
        let mut i: usize = 0;
        while i <= frame_index
            invariant
                self.wf(),
                self.frames@.len() == old(self).frames@.len(),
                self.currently_blocking_id == old(self).currently_blocking_id,
                1 <= frame_index < self.frames@.len(),
                i <= frame_index + 1,
                nv == negated@,
                nv == negate_v(obligation_term_v(module, term_or_model@)),
                frame_index == 1 ==> module.implies_ans(
                    old(self).frames@[0]@,
                    negate_v(obligation_term_v(module, term_or_model@)),
                ) is None,
                mid.len() == self.frames@.len(),
                brs_extended(
                    old(self).backwards_reachable_states@,
                    self.backwards_reachable_states@,
                ),
                forall|j: int|
                    0 <= j < mid.len() ==> (#[trigger] old(self).frames@[j]@).is_prefix_of(mid[j]),
                forall|j: int| 0 <= j < i ==> self.frames@[j]@ == #[trigger] strengthened(
                    mid[j],
                    nv,
                ),
                forall|j: int| i <= j < mid.len() ==> self.frames@[j]@ == #[trigger] mid[j],
                fcex ==> {
                    let brs = self.backwards_reachable_states@;
                    let base = old(self).backwards_reachable_states@.len() as int;
                    &&& brs.len() > base
                    &&& brs[base].id == base
                    &&& (module.pred_ans(old(self).frames@[frame_index - 1]@, atv) matches CexOrCoreV::Cex(pair)
                        && brs[base].term_or_model@ == TermOrModelV::Model(pair.1))
                    &&& brs[base].known_absent_until_frame == steps0
                    &&& brs[base].num_steps_to_bad == steps0
                },
            decreases frame_index - i + 1,
        {
            // The number of frames bounds the loop index.
            let n_frames = self.frames.len();
            proof {
                assert(i < n_frames);
            }
            let ghost frames_before = self.frames@;
            if !frame_contains(&self.frames[i].terms, &negated) {
                let c = clone_term(&negated);
                self.frames[i].strengthen(c);
                proof {
                    assert(self.frames@[i as int]@ == frames_before[i as int]@.push(nv));
                }
            }
            proof {
                assert(self.frames@[i as int]@ == strengthened(mid[i as int], nv));
            }
            i = i + 1;
        }
        // Propagate the new term forward while the oracle confirms it
        // preserved; stop at the first frame where propagation fails.
        let mut p = frame_index;
        let mut stopped = false;
        while p < self.frames.len() - 1 && !stopped
            invariant
                self.wf(),
                self.frames@.len() == old(self).frames@.len(),
                self.currently_blocking_id == old(self).currently_blocking_id,
                1 <= frame_index <= p,
                p < self.frames@.len(),
                nv == negated@,
                nv == negate_v(obligation_term_v(module, term_or_model@)),
                frame_index == 1 ==> module.implies_ans(
                    old(self).frames@[0]@,
                    negate_v(obligation_term_v(module, term_or_model@)),
                ) is None,
                mid.len() == self.frames@.len(),
                brs_extended(
                    old(self).backwards_reachable_states@,
                    self.backwards_reachable_states@,
                ),
                forall|j: int|
                    0 <= j < mid.len() ==> (#[trigger] old(self).frames@[j]@).is_prefix_of(mid[j]),
                forall|j: int|
                    0 <= j <= frame_index ==> self.frames@[j]@ == #[trigger] strengthened(
                        mid[j],
                        nv,
                    ),
                forall|j: int|
                    frame_index < j <= p ==> self.frames@[j]@ == #[trigger] mid[j] || (
                    self.frames@[j]@ == mid[j].push(nv) && !mid[j].contains(nv)
                        && module.trans_ans(self.frames@[j - 1]@, nv) is None),
                forall|j: int| p < j < mid.len() ==> self.frames@[j]@ == #[trigger] mid[j],
                fcex ==> {
                    let brs = self.backwards_reachable_states@;
                    let base = old(self).backwards_reachable_states@.len() as int;
                    &&& brs.len() > base
                    &&& brs[base].id == base
                    &&& (module.pred_ans(old(self).frames@[frame_index - 1]@, atv) matches CexOrCoreV::Cex(pair)
                        && brs[base].term_or_model@ == TermOrModelV::Model(pair.1))
                    &&& brs[base].known_absent_until_frame == steps0
                    &&& brs[base].num_steps_to_bad == steps0
                },
            decreases self.frames@.len() - p,
        {
            let prev_terms = clone_terms(&self.frames[p].terms);
            let ghost frames_before = self.frames@;
            if !frame_contains(&self.frames[p + 1].terms, &negated) {
                if module.trans_cex(&prev_terms, &negated).is_none() {
                    let c = clone_term(&negated);
                    self.frames[p + 1].strengthen(c);
                    proof {
                        assert(self.frames@[p + 1]@ == mid[p + 1].push(nv));
                        assert(module.trans_ans(self.frames@[p as int]@, nv) is None);
                    }
                } else {
                    stopped = true;
                }
            }
            p = p + 1;
        }
        proof {
            assert forall|j: int|
                0 <= j < old(self).frames@.len() implies (#[trigger] old(
                self,
            ).frames@[j]@).is_prefix_of(self.frames@[j]@) by {
                assert(old(self).frames@[j]@.is_prefix_of(mid[j]));
                if j <= frame_index {
                    assert(self.frames@[j]@ == strengthened(mid[j], nv));
                    if !mid[j].contains(nv) {
                        lemma_prefix_extend(old(self).frames@[j]@, mid[j], nv);
                    }
                } else {
                    assert(self.frames@[j]@ == mid[j] || (self.frames@[j]@ == mid[j].push(nv)
                        && !mid[j].contains(nv) && module.trans_ans(
                        self.frames@[j - 1]@,
                        nv,
                    ) is None));
                    if self.frames@[j]@ == mid[j].push(nv) {
                        lemma_prefix_extend(old(self).frames@[j]@, mid[j], nv);
                    }
                }
            }
            assert forall|i2: int|
                0 <= i2 <= frame_index implies (#[trigger] self.frames@[i2]@).contains(nv) by {
                assert(self.frames@[i2]@ == strengthened(mid[i2], nv));
                if mid[i2].contains(nv) {
                    assert(self.frames@[i2]@ == mid[i2]);
                } else {
                    assert(self.frames@[i2]@ == mid[i2].push(nv));
                    assert(mid[i2].push(nv)[mid[i2].len() as int] == nv);
                }
            }
            assert forall|i2: int|
                frame_index < i2 < mid.len() implies self.frames@[i2]@ == #[trigger] mid[i2]
                || self.frames@[i2]@ == mid[i2].push(nv) by {
                assert(self.frames@[i2]@ == mid[i2] || (self.frames@[i2]@ == mid[i2].push(nv)
                    && !mid[i2].contains(nv) && module.trans_ans(
                    self.frames@[i2 - 1]@,
                    nv,
                ) is None));
            }
        }
        Result::Ok(())
    }

    /// Drain the blocking queue: repeatedly select an obligation and block
    /// it one frame past its refutation progress, until none remains for the
    /// current frame count or the step bound runs out.
    ///
    /// Returns `Ok(true)` when every known bad-reaching state is excluded up
    /// to the frontier, `Ok(false)` when the bound ran out first.
    fn establish_safety<O: Oracle>(&mut self, module: &O, fuel: usize) -> (r: Result<
        bool,
        UpdrError,
    >)
        requires
            old(self).wf(),
            brs_floor(old(self).backwards_reachable_states@, old(self).frames@.len() as int),
            old(self).frames@.len() <= usize::MAX / 2,
        ensures
            final(self).wf(),
            final(self).frames@.len() == old(self).frames@.len(),
            brs_floor(
                final(self).backwards_reachable_states@,
                final(self).frames@.len() as int,
            ),
            brs_preserved(
                old(self).backwards_reachable_states@,
                final(self).backwards_reachable_states@,
            ),
            forall|i: int|
                0 <= i < old(self).frames@.len() ==> (#[trigger] old(
                    self,
                ).frames@[i]@).is_prefix_of(final(self).frames@[i]@),
            // On a drained queue the frontier admits no safety counterexample
            // and every known obligation's progress has reached the frontier.
            r == Result::<bool, UpdrError>::Ok(true) ==> (module.safeties_spec().len() == 0
                || module.safe_ans(final(self).frames@[final(self).frames@.len() - 1]@) is None)
                && (forall|j: int|
                0 <= j < final(self).backwards_reachable_states@.len()
                    ==> (#[trigger] final(self).backwards_reachable_states@[j]).known_absent_until_frame
                    + 1 >= final(self).frames@.len()),
    {
        let mut k: usize = 0;
        while k < fuel
            invariant
                self.wf(),
                self.frames@.len() == old(self).frames@.len(),
                self.frames@.len() <= usize::MAX / 2,
                k <= fuel,
                brs_floor(self.backwards_reachable_states@, self.frames@.len() as int),
                brs_preserved(
                    old(self).backwards_reachable_states@,
                    self.backwards_reachable_states@,
                ),
                forall|i: int|
                    0 <= i < old(self).frames@.len() ==> (#[trigger] old(
                        self,
                    ).frames@[i]@).is_prefix_of(self.frames@[i]@),
            decreases fuel - k,
        {
            let ghost brs_mid = self.backwards_reachable_states@;
            let state_index = match self.find_state_to_block(module) {
                Result::Ok(Option::Some(idx)) => idx,
                Result::Ok(Option::None) => {
                    return Result::Ok(true);
                },
                Result::Err(e) => {
                    return Result::Err(e);
                },
            };
            proof {
                lemma_brs_preserved_trans(
                    old(self).backwards_reachable_states@,
                    brs_mid,
                    self.backwards_reachable_states@,
                );
            }
            self.currently_blocking_id = Option::Some(state_index);
            let bstate_tm = clone_term_or_model(
                &self.backwards_reachable_states[state_index].term_or_model,
            );
            let bstate_kaf = self.backwards_reachable_states[state_index].known_absent_until_frame;
            let nf = self.frames.len();
            proof {
                assert(bstate_kaf + 2 <= nf);
            }
            let mut trace: Vec<TermOrModel> = Vec::new();
            let ghost brs_before = self.backwards_reachable_states@;
            let ghost frames_before = self.frames@;
            let res = self.block(&bstate_tm, bstate_kaf + 1, &mut trace, module, fuel);
            proof {
                assert forall|i: int| 0 <= i < old(self).frames@.len() implies (#[trigger] old(
                    self,
                ).frames@[i]@).is_prefix_of(self.frames@[i]@) by {
                    lemma_prefix_trans(old(self).frames@[i]@, frames_before[i]@, self.frames@[i]@);
                }
                // Blocking leaves every known node in place, so both the
                // preservation order and the floor witness survive.
                assert forall|j: int|
                    0 <= j < brs_before.len() implies #[trigger] self.backwards_reachable_states@[j]
                    == brs_before[j] by {}
                lemma_brs_preserved_trans(
                    old(self).backwards_reachable_states@,
                    brs_before,
                    self.backwards_reachable_states@,
                );
                let w = choose|j: int|
                    0 <= j < brs_before.len() && (#[trigger] brs_before[j]).known_absent_until_frame
                        + 1 <= self.frames@.len();
                assert(brs_before.len() > 0 ==> brs_floor(
                    self.backwards_reachable_states@,
                    self.frames@.len() as int,
                ));
                assert(brs_floor(
                    self.backwards_reachable_states@,
                    self.frames@.len() as int,
                ));
            }
            if res.is_err() {
                let e = match res {
                    Result::Err(e) => e,
                    Result::Ok(_) => unreached(),
                };
                return Result::Err(e);
            }
            k = k + 1;
        }
        Result::Ok(false)
    }

    /// One round of redundancy elimination: in every frame, drop each term
    /// that the rest of the same frame already implies. A single pass, not
    /// iterated to a fixed point.
    pub fn simplify<O: Oracle>(&mut self, module: &O)
        requires
            old(self).wf(),
        ensures
            final(self).wf(),
            final(self).frames@.len() == old(self).frames@.len(),
            final(self).backwards_reachable_states == old(self).backwards_reachable_states,
            final(self).currently_blocking_id == old(self).currently_blocking_id,
            forall|i: int|
                0 <= i < old(self).frames@.len() ==> #[trigger] final(self).frames@[i]@
                    == simplify_frame(module, old(self).frames@[i]@),
    {
        broadcast use group_term_view_lemmas;

        let nframes = self.frames.len();
        let mut i: usize = 0;
        while i < nframes
            invariant
                self.wf(),
                nframes == self.frames@.len(),
                self.frames@.len() == old(self).frames@.len(),
                self.backwards_reachable_states == old(self).backwards_reachable_states,
                self.currently_blocking_id == old(self).currently_blocking_id,
                i <= nframes,
                forall|j: int|
                    0 <= j < i ==> #[trigger] self.frames@[j]@ == simplify_frame(
                        module,
                        old(self).frames@[j]@,
                    ),
                forall|j: int| i <= j < nframes ==> self.frames@[j] == old(self).frames@[j],
            decreases nframes - i,
        {
            broadcast use group_term_view_lemmas;

            let ghost whole = term_views(self.frames@[i as int].terms@);
            let ghost pred = |t: TermV| module.implies_ans(remove_term(whole, t), t) is Some;
            let ghost frames_snap = self.frames@;
            let n = self.frames[i].terms.len();
            let mut kept: Vec<Term> = Vec::new();
            proof {
                reveal(Seq::filter);
                assert(term_views(Seq::<Term>::empty()) =~= Seq::<TermV>::empty());
                assert(whole.subrange(0, 0).filter(pred) =~= Seq::<TermV>::empty());
            }
            let mut j: usize = 0;
            while j < n
                invariant
                    self.frames@ == frames_snap,
                    (i as int) < frames_snap.len(),
                    n == frames_snap[i as int].terms@.len(),
                    whole == term_views(frames_snap[i as int].terms@),
                    whole.len() == n,
                    pred == (|t: TermV| module.implies_ans(remove_term(whole, t), t) is Some),
                    j <= n,
                    term_views(kept@) == whole.subrange(0, j as int).filter(pred),
                decreases n - j,
            {
                broadcast use group_term_view_lemmas;

                // The rest of the frame: every term other than this one.
                let mut f_minus_t: Vec<Term> = Vec::new();
                let ghost inner_pred = |x: TermV| x != whole[j as int];
                proof {
                    reveal(Seq::filter);
                    assert(term_views(Seq::<Term>::empty()) =~= Seq::<TermV>::empty());
                    assert(whole.subrange(0, 0).filter(inner_pred) =~= Seq::<TermV>::empty());
                }
                let mut k: usize = 0;
                while k < n
                    invariant
                        self.frames@ == frames_snap,
                        (i as int) < frames_snap.len(),
                        n == frames_snap[i as int].terms@.len(),
                        whole == term_views(frames_snap[i as int].terms@),
                        whole.len() == n,
                        j < n,
                        k <= n,
                        inner_pred == (|x: TermV| x != whole[j as int]),
                        term_views(f_minus_t@) == whole.subrange(0, k as int).filter(inner_pred),
                    decreases n - k,
                {
                    broadcast use group_term_view_lemmas;

                    let ghost fmt_prev = f_minus_t@;
                    if !term_eq(&self.frames[i].terms[k], &self.frames[i].terms[j]) {
                        let c = clone_term(&self.frames[i].terms[k]);
                        f_minus_t.push(c);
                        proof {
                            assert(f_minus_t@ =~= fmt_prev + seq![f_minus_t@[fmt_prev.len() as int]]);
                            crate::syntax::lemma_term_views_concat(
                                fmt_prev,
                                seq![f_minus_t@[fmt_prev.len() as int]],
                            );
                            assert(term_views(seq![f_minus_t@[fmt_prev.len() as int]])
                                =~= seq![whole[k as int]]);
                        }
                    }
                    proof {
                        lemma_filter_snoc(whole, inner_pred, k as int);
                        assert(term_views(f_minus_t@) == whole.subrange(0, k + 1).filter(
                            inner_pred,
                        ));
                    }
                    k = k + 1;
                }
                proof {
                    assert(whole.subrange(0, n as int) =~= whole);
                    assert(term_views(f_minus_t@) == remove_term(whole, whole[j as int]));
                }
                let cex = module.implies_cex(&f_minus_t, &self.frames[i].terms[j]);
                let ghost kept_prev = kept@;
                if cex.is_some() {
                    let c = clone_term(&self.frames[i].terms[j]);
                    kept.push(c);
                    proof {
                        assert(kept@ =~= kept_prev + seq![kept@[kept_prev.len() as int]]);
                        crate::syntax::lemma_term_views_concat(
                            kept_prev,
                            seq![kept@[kept_prev.len() as int]],
                        );
                        assert(term_views(seq![kept@[kept_prev.len() as int]])
                            =~= seq![whole[j as int]]);
                    }
                }
                proof {
                    lemma_filter_snoc(whole, pred, j as int);
                    assert(pred(whole[j as int]) == cex.is_some());
                    assert(term_views(kept@) == whole.subrange(0, j + 1).filter(pred));
                }
                j = j + 1;
            }
            proof {
                assert(whole.subrange(0, n as int) =~= whole);
                assert(term_views(kept@) == simplify_frame(module, whole));
            }
            self.frames[i].terms = kept;
            i = i + 1;
        }
    }

    /// Append a new, empty frame, then propagate forward: every term of a
    /// frame absent from its successor and confirmed preserved by the
    /// transition relation under that frame is copied into the successor.
    pub fn add_frame_and_push<O: Oracle>(&mut self, module: &O)
        requires
            old(self).wf(),
        ensures
            final(self).wf(),
            final(self).frames@.len() == old(self).frames@.len() + 1,
            final(self).backwards_reachable_states == old(self).backwards_reachable_states,
            final(self).currently_blocking_id == old(self).currently_blocking_id,
            final(self).frames@[0] == old(self).frames@[0],
            forall|i: int|
                0 <= i < old(self).frames@.len() ==> #[trigger] final(self).frames@[i + 1]@
                    == pushed_frame(
                    module,
                    final(self).frames@[i]@,
                    if i + 1 < old(self).frames@.len() {
                        old(self).frames@[i + 1]@
                    } else {
                        Seq::<TermV>::empty()
                    },
                    final(self).frames@[i]@.len() as int,
                ),
    {
        broadcast use group_term_view_lemmas;

        let ghost old_frames = old(self).frames@;
        let old_len = self.frames.len();
        let mut empty_terms: Vec<Term> = Vec::new();
        proof {
            assert(term_views(Seq::<Term>::empty()) =~= Seq::<TermV>::empty());
        }
        self.frames.push(Frame { terms: empty_terms });
        let mut i: usize = 0;
        while i < old_len
            invariant
                self.wf(),
                old_len == old_frames.len(),
                old_frames == old(self).frames@,
                self.frames@.len() == old_len + 1,
                self.backwards_reachable_states == old(self).backwards_reachable_states,
                self.currently_blocking_id == old(self).currently_blocking_id,
                i <= old_len,
                self.frames@[0] == old_frames[0],
                forall|k: int|
                    0 <= k < i ==> #[trigger] self.frames@[k + 1]@ == pushed_frame(
                        module,
                        self.frames@[k]@,
                        if k + 1 < old_frames.len() {
                            old_frames[k + 1]@
                        } else {
                            Seq::<TermV>::empty()
                        },
                        self.frames@[k]@.len() as int,
                    ),
                forall|k: int|
                    i < k < old_len ==> #[trigger] self.frames@[k] == old_frames[k],
                self.frames@[old_len as int]@ == if i < old_len {
                    Seq::<TermV>::empty()
                } else {
                    self.frames@[old_len as int]@
                },
            decreases old_len - i,
        {
            broadcast use group_term_view_lemmas;

            let prev_terms = clone_terms(&self.frames[i].terms);
            let ghost prev_views = term_views(self.frames@[i as int].terms@);
            let ghost next0 = term_views(self.frames@[i + 1].terms@);
            let ghost frames_at_entry = self.frames@;
            let n = prev_terms.len();
            let mut j: usize = 0;
            while j < n
                invariant
                    self.wf(),
                    (i as int) < old_len,
                    old_len == old_frames.len(),
                    (i as int) + 1 < self.frames@.len(),
                    self.frames@.len() == old_len + 1,
                    self.backwards_reachable_states == old(self).backwards_reachable_states,
                    self.currently_blocking_id == old(self).currently_blocking_id,
                    n == prev_terms@.len(),
                    term_views(prev_terms@) == prev_views,
                    prev_views.len() == n,
                    j <= n,
                    self.frames@.len() == frames_at_entry.len(),
                    forall|k: int|
                        0 <= k < self.frames@.len() && k != i + 1 ==> #[trigger] self.frames@[k]
                            == frames_at_entry[k],
                    self.frames@[i + 1]@ == pushed_frame(module, prev_views, next0, j as int),
                decreases n - j,
            {
                broadcast use group_term_view_lemmas;

                let ghost frames_before = self.frames@;
                proof {
                    crate::syntax::lemma_term_views_index(prev_terms@, j as int);
                }
                if !frame_contains(&self.frames[i + 1].terms, &prev_terms[j]) {
                    if module.trans_cex(&prev_terms, &prev_terms[j]).is_none() {
                        let c = clone_term(&prev_terms[j]);
                        self.frames[i + 1].strengthen(c);
                    }
                }
                j = j + 1;
            }
            proof {
                assert(prev_views.subrange(0, n as int) =~= prev_views);
                assert(self.frames@[i as int] == frames_at_entry[i as int]);
            }
            i = i + 1;
        }
    }

    /// The top-level driver: seed one obligation per clause of each negated
    /// safety property and the initial frame from the flattened initial-state
    /// conjunction, then alternate draining the blocking queue, simplifying,
    /// and extending the frame sequence, up to `fuel` rounds.
    ///
    /// The search stops as soon as two consecutive frames hold the same
    /// terms: that frame is inductive and is returned as the certificate.
    /// `Ok(None)` means the bound ran out first.
    pub fn search<O: Oracle>(&mut self, module: &O, fuel: usize) -> (r: Result<
        Option<Frame>,
        UpdrError,
    >)
        requires
            fuel + 1 <= usize::MAX / 2,
            forall|i: int|
                0 <= i < module.inits_spec().len() ==> (#[trigger] module.inits_spec()[i]) matches TermV::NAryOp(
                    NOp::And,
                    _,
                ),
            forall|i: int|
                0 <= i < module.safeties_spec().len() ==> splittable_v(
                    #[trigger] module.safeties_spec()[i],
                ),
        ensures
            r matches Result::Ok(_) ==> final(self).wf(),
            r matches Result::Ok(Option::Some(f)) ==> exists|i: int|
                0 <= i && i + 1 < final(self).frames@.len() && f@ == (#[trigger] final(self).frames@[i])@
                    && same_members(final(self).frames@[i]@, final(self).frames@[i + 1]@),
            // One obligation was seeded per clause of each negated safety
            // property and is never removed or rewritten: only its progress
            // moves.
            final(self).backwards_reachable_states@.len() >= seeded_obligations(
                module.safeties_spec(),
            ).len(),
            forall|i: int|
                0 <= i < seeded_obligations(module.safeties_spec()).len() ==> {
                    let b = #[trigger] final(self).backwards_reachable_states@[i];
                    &&& b.id == i
                    &&& b.term_or_model@ == TermOrModelV::Term(
                        seeded_obligations(module.safeties_spec())[i],
                    )
                    &&& b.num_steps_to_bad == 0
                },
            // With no rounds to run, the search stops right after seeding:
            // frame 0 is the flattened initial conjunction and the seeded
            // obligations stand untouched.
            fuel == 0 ==> (r matches Result::Ok(Option::None)) && final(self).frames@.len() == 1
                && final(self).frames@[0]@ == init_conjuncts(module.inits_spec()) && seeds_match(
                final(self).backwards_reachable_states@,
                seeded_obligations(module.safeties_spec()),
            ),
    {
        broadcast use group_term_view_lemmas;

        // Seed one obligation per clause of each negated safety property.
        self.backwards_reachable_states = Vec::new();
        self.currently_blocking_id = Option::None;
        let ghost all_seeds = seeded_obligations(module.safeties_spec());
        let safeties = module.safeties();
        let mut s: usize = 0;
        while s < safeties.len()
            invariant
                term_views(safeties@) == module.safeties_spec(),
                all_seeds == seeded_obligations(module.safeties_spec()),
                forall|i: int|
                    0 <= i < module.safeties_spec().len() ==> splittable_v(
                        #[trigger] module.safeties_spec()[i],
                    ),
                s <= safeties@.len(),
                self.currently_blocking_id is None,
                self.frames == old(self).frames,
                seeds_match(
                    self.backwards_reachable_states@,
                    seeded_obligations(module.safeties_spec().subrange(0, s as int)),
                ),
            decreases safeties@.len() - s,
        {
            broadcast use group_term_view_lemmas;

            proof {
                crate::syntax::lemma_term_views_index(safeties@, s as int);
                crate::syntax::lemma_term_views_len(safeties@);
            }
            let ghost base = seeded_obligations(module.safeties_spec().subrange(0, s as int));
            let ghost cvs = ttc_v(module.safeties_spec()[s as int]);
            let ghost seg = nas_vs(cvs);
            let mut clauses = term_to_cnf_clauses(&safeties[s]);
            proof {
                crate::syntax::lemma_nas_vs_len(cvs);
                assert(cvs.subrange(0, cvs.len() as int) =~= cvs);
                assert(base + seg.subrange(0, 0) =~= base);
            }
            while clauses.len() > 0
                invariant
                    base.len() <= self.backwards_reachable_states@.len(),
                    self.backwards_reachable_states@.len() - base.len() + clauses@.len()
                        == seg.len(),
                    seg == nas_vs(cvs),
                    seg.len() == cvs.len(),
                    self.currently_blocking_id is None,
                    self.frames == old(self).frames,
                    term_views(clauses@) == cvs.subrange(
                        self.backwards_reachable_states@.len() - base.len() as int,
                        cvs.len() as int,
                    ),
                    seeds_match(
                        self.backwards_reachable_states@,
                        base + seg.subrange(
                            0,
                            self.backwards_reachable_states@.len() - base.len() as int,
                        ),
                    ),
                decreases clauses@.len(),
            {
                broadcast use group_term_view_lemmas;

                let ghost done = self.backwards_reachable_states@.len() - base.len() as int;
                let ghost prev_clauses = clauses@;
                let ghost prev_brs = self.backwards_reachable_states@;
                let clause = clauses.remove(0);
                let id = self.backwards_reachable_states.len();
                let negated = negate_and_simplify(&clause);
                self.backwards_reachable_states.push(
                    BackwardsReachableState {
                        id,
                        term_or_model: TermOrModel::Term(negated),
                        num_steps_to_bad: 0,
                        known_absent_until_frame: 0,
                    },
                );
                proof {
                    crate::syntax::lemma_term_views_index(prev_clauses, 0);
                    assert(clause@ == cvs[done]);
                    crate::syntax::lemma_nas_vs_index(cvs, done);
                    assert(nas_v(clause@) == seg[done]);
                    assert(clauses@ =~= prev_clauses.subrange(1, prev_clauses.len() as int));
                    crate::syntax::lemma_term_views_subrange(
                        prev_clauses,
                        1,
                        prev_clauses.len() as int,
                    );
                    assert(cvs.subrange(done, cvs.len() as int).subrange(
                        1,
                        cvs.len() - done,
                    ) =~= cvs.subrange(done + 1, cvs.len() as int));
                    assert(term_views(clauses@) =~= cvs.subrange(done + 1, cvs.len() as int));
                    assert(base + seg.subrange(0, done + 1) =~= (base + seg.subrange(
                        0,
                        done,
                    )).push(seg[done]));
                    assert(seeds_match(
                        self.backwards_reachable_states@,
                        base + seg.subrange(0, done + 1),
                    ));
                }
            }
            proof {
                assert(seg.subrange(0, seg.len() as int) =~= seg);
                let whole = module.safeties_spec();
                assert(whole.subrange(0, s + 1).drop_last() =~= whole.subrange(0, s as int));
                assert(whole.subrange(0, s + 1).last() == whole[s as int]);
                assert(seeded_obligations(whole.subrange(0, s + 1)) == base + seg);
            }
            s = s + 1;
        }
        proof {
            assert(module.safeties_spec().subrange(
                0,
                module.safeties_spec().len() as int,
            ) =~= module.safeties_spec());
            crate::syntax::lemma_term_views_len(safeties@);
            assert(seeds_match(self.backwards_reachable_states@, all_seeds));
        }
        // Seed the initial frame from the flattened initial-state conjunction.
        let ghost init_target = init_conjuncts(module.inits_spec());
        let inits = module.inits();
        let mut f0: Vec<Term> = Vec::new();
        proof {
            assert(init_conjuncts(module.inits_spec().subrange(0, 0)) =~= Seq::<TermV>::empty());
            assert(term_views(f0@) =~= Seq::<TermV>::empty());
        }
        let mut q: usize = 0;
        while q < inits.len()
            invariant
                term_views(inits@) == module.inits_spec(),
                forall|i: int|
                    0 <= i < module.inits_spec().len() ==> (
                    #[trigger] module.inits_spec()[i]) matches TermV::NAryOp(NOp::And, _),
                q <= inits@.len(),
                term_views(f0@) == init_conjuncts(module.inits_spec().subrange(0, q as int)),
            decreases inits@.len() - q,
        {
            broadcast use group_term_view_lemmas;

            proof {
                crate::syntax::lemma_term_views_index(inits@, q as int);
                crate::syntax::lemma_term_views_len(inits@);
            }
            let ghost f0_prev = f0@;
            match &inits[q] {
                Term::NAryOp(NOp::And, ts) => {
                    let mut chunk = clone_terms(ts);
                    let ghost chunk_views = term_views(chunk@);
                    f0.append(&mut chunk);
                    proof {
                        crate::syntax::lemma_term_views_concat(f0_prev, chunk@);
                        assert(chunk_views == term_views(ts@));
                    }
                },
                _ => {
                    proof {
                        assert(false);
                    }
                },
            }
            proof {
                let whole = module.inits_spec();
                assert(whole.subrange(0, q + 1).drop_last() =~= whole.subrange(0, q as int));
                assert(whole.subrange(0, q + 1).last() == whole[q as int]);
                assert(term_views(f0@) =~= init_conjuncts(whole.subrange(0, q + 1)));
            }
            q = q + 1;
        }
        proof {
            assert(module.inits_spec().subrange(
                0,
                module.inits_spec().len() as int,
            ) =~= module.inits_spec());
            crate::syntax::lemma_term_views_len(inits@);
            assert(term_views(f0@) == init_target);
        }
        self.frames = Vec::new();
        self.frames.push(Frame { terms: f0 });
        proof {
            assert(self.wf());
            if self.backwards_reachable_states@.len() > 0 {
                assert(self.backwards_reachable_states@[0].known_absent_until_frame == 0);
            }
            assert(brs_floor(self.backwards_reachable_states@, self.frames@.len() as int));
            assert(self.frames@[0]@ == init_target);
        }
        // Alternate establishing safety, simplifying and extending, until
        // two consecutive frames agree or the bound runs out.
        let mut round: usize = 0;
        while round < fuel
            invariant
                self.wf(),
                round <= fuel,
                fuel + 1 <= usize::MAX / 2,
                self.frames@.len() == 1 + round,
                brs_floor(self.backwards_reachable_states@, self.frames@.len() as int),
                all_seeds == seeded_obligations(module.safeties_spec()),
                self.backwards_reachable_states@.len() >= all_seeds.len(),
                forall|i: int|
                    0 <= i < all_seeds.len() ==> {
                        let b = #[trigger] self.backwards_reachable_states@[i];
                        &&& b.id == i
                        &&& b.term_or_model@ == TermOrModelV::Term(all_seeds[i])
                        &&& b.num_steps_to_bad == 0
                    },
                fuel == 0 ==> self.frames@.len() == 1 && self.frames@[0]@ == init_conjuncts(
                    module.inits_spec(),
                ) && seeds_match(self.backwards_reachable_states@, all_seeds),
            decreases fuel - round,
        {
            let ghost brs_at_round = self.backwards_reachable_states@;
            let established = self.establish_safety(module, fuel);
            proof {
                // The seeded obligations survive the round: identity,
                // formula and distance are preserved, only progress moves.
                assert forall|i: int| 0 <= i < all_seeds.len() implies {
                    let b = #[trigger] self.backwards_reachable_states@[i];
                    &&& b.id == i
                    &&& b.term_or_model@ == TermOrModelV::Term(all_seeds[i])
                    &&& b.num_steps_to_bad == 0
                } by {
                    assert(brs_at_round[i].id == i);
                    assert(self.backwards_reachable_states@[i].term_or_model == brs_at_round[
                        i
                    ].term_or_model);
                }
            }
            match established {
                Result::Err(e) => {
                    return Result::Err(e);
                },
                Result::Ok(false) => {
                    // The step bound ran out while obligations remained.
                    return Result::Ok(Option::None);
                },
                Result::Ok(true) => {},
            }
            self.simplify(module);
            self.add_frame_and_push(module);
            match self.find_convergent_frame() {
                Option::Some(ix) => {
                    let certificate = Frame { terms: clone_terms(&self.frames[ix].terms) };
                    return Result::Ok(Option::Some(certificate));
                },
                Option::None => {},
            }
            round = round + 1;
        }
        Result::Ok(Option::None)
    }

    /// The first frame holding the same terms as its successor, if any.
    fn find_convergent_frame(&self) -> (r: Option<usize>)
        requires
            self.frames@.len() >= 1,
        ensures
            match r {
                Option::Some(i) => (i as int) + 1 < self.frames@.len() && same_members(
                    self.frames@[i as int]@,
                    self.frames@[i as int + 1]@,
                ),
                Option::None => true,
            },
    {
        let n = self.frames.len();
        let mut i: usize = 0;
        while i < n - 1
            invariant
                n == self.frames@.len(),
                n >= 1,
                i <= n,
            decreases n - i,
        {
            if frames_same_members(&self.frames[i].terms, &self.frames[i + 1].terms) {
                return Option::Some(i);
            }
            i = i + 1;
        }
        Option::None
    }
}

/// Whether every term of `a` stands in `b`.
fn terms_subset(a: &Vec<Term>, b: &Vec<Term>) -> (r: bool)
    ensures
        r == (forall|t: TermV|
            #[trigger] term_views(a@).contains(t) ==> term_views(b@).contains(t)),
{
    broadcast use group_term_view_lemmas;

    let n = a.len();
    let mut i: usize = 0;
    while i < n
        invariant
            n == a@.len(),
            i <= n,
            forall|j: int|
                0 <= j < i ==> term_views(b@).contains(#[trigger] term_view(a@[j])),
        decreases n - i,
    {
        if !frame_contains(b, &a[i]) {
            proof {
                crate::syntax::lemma_term_views_index(a@, i as int);
                crate::syntax::lemma_term_views_len(a@);
                assert(term_views(a@).contains(term_views(a@)[i as int]));
            }
            return false;
        }
        proof {
            crate::syntax::lemma_term_views_index(a@, i as int);
        }
        i = i + 1;
    }
    proof {
        assert forall|t: TermV| #[trigger] term_views(a@).contains(t) implies term_views(
            b@,
        ).contains(t) by {
            let j = choose|j: int| 0 <= j < term_views(a@).len() && term_views(a@)[j] == t;
            crate::syntax::lemma_term_views_index(a@, j);
            crate::syntax::lemma_term_views_len(a@);
        }
    }
    true
}

/// Whether two frames hold the same terms, in any order.
fn frames_same_members(a: &Vec<Term>, b: &Vec<Term>) -> (r: bool)
    ensures
        r == same_members(term_views(a@), term_views(b@)),
{
    terms_subset(a, b) && terms_subset(b, a)
}

/// The frame's terms with every occurrence of `t` removed.
pub open spec fn remove_term(ts: Seq<TermV>, t: TermV) -> Seq<TermV> {
    ts.filter(|x: TermV| x != t)
}

/// One round of redundancy elimination over a frame: a term stays exactly
/// when the rest of the frame does not imply it (the oracle reports a
/// countermodel).
pub open spec fn simplify_frame<O: Oracle>(module: &O, ts: Seq<TermV>) -> Seq<TermV> {
    ts.filter(|t: TermV| module.implies_ans(remove_term(ts, t), t) is Some)
}

/// Simplify soundness: every term remaining after one round of redundancy
/// elimination is one the frame minus that term does not imply.
pub proof fn lemma_simplify_sound<O: Oracle>(module: &O, ts: Seq<TermV>)
    ensures
        forall|t: TermV|
            #[trigger] simplify_frame(module, ts).contains(t) ==> module.implies_ans(
                remove_term(ts, t),
                t,
            ) is Some,
{
    let pred = |t: TermV| module.implies_ans(remove_term(ts, t), t) is Some;
    assert forall|t: TermV| #[trigger] simplify_frame(module, ts).contains(t) implies module.implies_ans(
        remove_term(ts, t),
        t,
    ) is Some by {
        ts.filter_lemma(pred);
        let i = choose|i: int|
            0 <= i < ts.filter(pred).len() && ts.filter(pred)[i] == t;
        assert(pred(ts.filter(pred)[i]));
    }
}

/// The target frame after the source frame's first `k` terms have been
/// offered for forward propagation: a term already present is skipped, one
/// the oracle confirms preserved under the source frame is appended, and the
/// rest are left behind.
pub open spec fn pushed_frame<O: Oracle>(
    module: &O,
    prev: Seq<TermV>,
    next: Seq<TermV>,
    k: int,
) -> Seq<TermV>
    decreases k,
{
    if k <= 0 {
        next
    } else {
        let acc = pushed_frame(module, prev, next, k - 1);
        if acc.contains(prev[k - 1]) {
            acc
        } else if module.trans_ans(prev, prev[k - 1]) is None {
            acc.push(prev[k - 1])
        } else {
            acc
        }
    }
}

/// Push soundness: a term standing in the target frame after propagation
/// either already stood there or is one the oracle confirmed preserved by
/// the transition relation under the source frame.
pub proof fn lemma_push_sound<O: Oracle>(module: &O, prev: Seq<TermV>, next: Seq<TermV>, k: int)
    requires
        k <= prev.len(),
    ensures
        forall|t: TermV|
            #[trigger] pushed_frame(module, prev, next, k).contains(t) ==> next.contains(t) || (
            prev.contains(t) && module.trans_ans(prev, t) is None),
    decreases k,
{
    if k > 0 {
        lemma_push_sound(module, prev, next, k - 1);
        let acc = pushed_frame(module, prev, next, k - 1);
        assert forall|t: TermV|
            #[trigger] pushed_frame(module, prev, next, k).contains(t) implies next.contains(t) || (
        prev.contains(t) && module.trans_ans(prev, t) is None) by {
            if !acc.contains(prev[k - 1]) && module.trans_ans(prev, prev[k - 1]) is None {
                let i = choose|i: int|
                    0 <= i < acc.push(prev[k - 1]).len() && #[trigger] acc.push(prev[k - 1])[i]
                        == t;
                if i < acc.len() {
                    assert(acc.contains(t));
                } else {
                    assert(t == prev[k - 1]);
                    assert(prev.contains(prev[k - 1]));
                }
            } else {
                assert(acc.contains(t));
            }
        }
    }
}

/// Restricting a filtered prefix by one more element.
proof fn lemma_filter_snoc(s: Seq<TermV>, pred: spec_fn(TermV) -> bool, k: int)
    requires
        0 <= k < s.len(),
    ensures
        s.subrange(0, k + 1).filter(pred) == if pred(s[k]) {
            s.subrange(0, k).filter(pred).push(s[k])
        } else {
            s.subrange(0, k).filter(pred)
        },
{
    reveal(Seq::filter);
    let a = s.subrange(0, k + 1);
    let b = s.subrange(0, k);
    assert(a.len() == k + 1);
    assert(a.drop_last() =~= b);
    assert(a.last() == s[k]);
    assert(a.filter(pred) == if pred(a.last()) {
        a.drop_last().filter(pred).push(a.last())
    } else {
        a.drop_last().filter(pred)
    });
}

/// Two sequences holding the same terms, in any order and multiplicity.
pub open spec fn same_members(a: Seq<TermV>, b: Seq<TermV>) -> bool {
    &&& forall|t: TermV| #[trigger] a.contains(t) ==> b.contains(t)
    &&& forall|t: TermV| #[trigger] b.contains(t) ==> a.contains(t)
}

/// Preservation of the node list is transitive.
proof fn lemma_brs_preserved_trans(
    a: Seq<BackwardsReachableState>,
    b: Seq<BackwardsReachableState>,
    c: Seq<BackwardsReachableState>,
)
    requires
        brs_preserved(a, b),
        brs_preserved(b, c),
    ensures
        brs_preserved(a, c),
{
}

/// A sequence is a prefix of any extension of a sequence it is a prefix of.
proof fn lemma_prefix_extend(a: Seq<TermV>, b: Seq<TermV>, x: TermV)
    requires
        a.is_prefix_of(b),
    ensures
        a.is_prefix_of(b.push(x)),
{
    assert(b.push(x).subrange(0, a.len() as int) =~= b.subrange(0, a.len() as int));
}

/// Prefix order is transitive.
proof fn lemma_prefix_trans(a: Seq<TermV>, b: Seq<TermV>, c: Seq<TermV>)
    requires
        a.is_prefix_of(b),
        b.is_prefix_of(c),
    ensures
        a.is_prefix_of(c),
{
    assert(c.subrange(0, a.len() as int) =~= b.subrange(0, a.len() as int));
}

} // verus!
