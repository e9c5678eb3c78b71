//! The first-order term language.
//!
//! Terms are quantified first-order formulas over a relational vocabulary.
//! Each executable type has a mathematical view (`TermV`, `SortV`, ...) built
//! from `Seq` and plain values; all contracts in the crate are stated over
//! these views.

use vstd::prelude::*;

verus! {

/// Unary logical operators: negation and the "always" (invariant) modality.
#[derive(Clone, Copy, PartialEq, Eq, Structural, Debug)]
pub enum UOp {
    Not,
    Always,
}

/// Binary logical operators.
#[derive(Clone, Copy, PartialEq, Eq, Structural, Debug)]
pub enum BinOp {
    Equals,
    NotEquals,
    Implies,
    Iff,
}

/// N-ary logical operators.
#[derive(Clone, Copy, PartialEq, Eq, Structural, Debug)]
pub enum NOp {
    And,
    Or,
}

/// First-order quantifiers.
#[derive(Clone, Copy, PartialEq, Eq, Structural, Debug)]
pub enum Quantifier {
    Forall,
    Exists,
}

/// A sort: either the built-in boolean sort or an uninterpreted sort.
#[derive(PartialEq, Eq, Debug)]
pub enum Sort {
    Bool,
    Id(String),
}

/// A quantified variable together with its sort.
#[derive(PartialEq, Eq, Debug)]
pub struct Binder {
    pub name: String,
    pub sort: Sort,
}

/// A first-order term.
#[derive(PartialEq, Eq, Debug)]
pub enum Term {
    /// A boolean constant.
    Literal(bool),
    /// A nullary symbol or bound variable.
    Id(String),
    /// An applied relation or function symbol.
    App(String, Vec<Term>),
    UnaryOp(UOp, Box<Term>),
    BinOp(BinOp, Box<Term>, Box<Term>),
    NAryOp(NOp, Vec<Term>),
    Quantified { quantifier: Quantifier, binders: Vec<Binder>, body: Box<Term> },
}

/// Mathematical view of a sort.
#[verifier::ext_equal]
pub enum SortV {
    Bool,
    Id(Seq<char>),
}

/// Mathematical view of a binder.
#[verifier::ext_equal]
pub struct BinderV {
    pub name: Seq<char>,
    pub sort: SortV,
}

/// Mathematical view of a term.
#[verifier::ext_equal]
pub enum TermV {
    Literal(bool),
    Id(Seq<char>),
    App(Seq<char>, Seq<TermV>),
    UnaryOp(UOp, Box<TermV>),
    BinOp(BinOp, Box<TermV>, Box<TermV>),
    NAryOp(NOp, Seq<TermV>),
    Quantified { quantifier: Quantifier, binders: Seq<BinderV>, body: Box<TermV> },
}

impl View for Sort {
    type V = SortV;

    open spec fn view(&self) -> SortV {
        match self {
            Sort::Bool => SortV::Bool,
            Sort::Id(s) => SortV::Id(s@),
        }
    }
}

impl View for Binder {
    type V = BinderV;

    open spec fn view(&self) -> BinderV {
        BinderV { name: self.name@, sort: self.sort@ }
    }
}

/// The view of a term: the same tree with strings replaced by `Seq<char>`
/// and vectors by `Seq`.
pub open spec fn term_view(t: Term) -> TermV
    decreases t,
{
    match t {
        Term::Literal(b) => TermV::Literal(b),
        Term::Id(s) => TermV::Id(s@),
        Term::App(f, args) => TermV::App(f@, term_views(args@)),
        Term::UnaryOp(op, t1) => TermV::UnaryOp(op, Box::new(term_view(*t1))),
        Term::BinOp(op, lhs, rhs) => TermV::BinOp(
            op,
            Box::new(term_view(*lhs)),
            Box::new(term_view(*rhs)),
        ),
        Term::NAryOp(op, ts) => TermV::NAryOp(op, term_views(ts@)),
        Term::Quantified { quantifier, binders, body } => TermV::Quantified {
            quantifier,
            binders: binder_views(binders@),
            body: Box::new(term_view(*body)),
        },
    }
}

/// Elementwise view of a sequence of terms.
pub open spec fn term_views(ts: Seq<Term>) -> Seq<TermV>
    decreases ts,
{
    if ts.len() == 0 {
        Seq::<TermV>::empty()
    } else {
        seq![term_view(ts[0])] + term_views(ts.subrange(1, ts.len() as int))
    }
}

/// Elementwise view of a sequence of binders.
pub open spec fn binder_views(bs: Seq<Binder>) -> Seq<BinderV>
    decreases bs,
{
    if bs.len() == 0 {
        Seq::<BinderV>::empty()
    } else {
        seq![bs[0]@] + binder_views(bs.subrange(1, bs.len() as int))
    }
}

impl View for Term {
    type V = TermV;

    open spec fn view(&self) -> TermV {
        term_view(*self)
    }
}

pub broadcast proof fn lemma_term_views_len(ts: Seq<Term>)
    ensures
        #[trigger] term_views(ts).len() == ts.len(),
    decreases ts,
{
    if ts.len() > 0 {
        lemma_term_views_len(ts.subrange(1, ts.len() as int));
    }
}

pub broadcast proof fn lemma_term_views_index(ts: Seq<Term>, i: int)
    requires
        0 <= i < ts.len(),
    ensures
        #[trigger] term_views(ts)[i] == term_view(ts[i]),
    decreases ts,
{
    lemma_term_views_len(ts);
    if i > 0 {
        lemma_term_views_index(ts.subrange(1, ts.len() as int), i - 1);
    }
}

pub broadcast proof fn lemma_binder_views_len(bs: Seq<Binder>)
    ensures
        #[trigger] binder_views(bs).len() == bs.len(),
    decreases bs,
{
    if bs.len() > 0 {
        lemma_binder_views_len(bs.subrange(1, bs.len() as int));
    }
}

pub broadcast proof fn lemma_binder_views_index(bs: Seq<Binder>, i: int)
    requires
        0 <= i < bs.len(),
    ensures
        #[trigger] binder_views(bs)[i] == bs[i]@,
    decreases bs,
{
    lemma_binder_views_len(bs);
    if i > 0 {
        lemma_binder_views_index(bs.subrange(1, bs.len() as int), i - 1);
    }
}

pub broadcast group group_term_view_lemmas {
    lemma_term_views_len,
    lemma_term_views_index,
    lemma_binder_views_len,
    lemma_binder_views_index,
}

/// Elementwise view of a sequence of term/polarity pairs (an assumption or
/// unsat-core map).
pub open spec fn tb_views(s: Seq<(Term, bool)>) -> Seq<(TermV, bool)>
    decreases s,
{
    if s.len() == 0 {
        Seq::<(TermV, bool)>::empty()
    } else {
        seq![(s[0].0@, s[0].1)] + tb_views(s.subrange(1, s.len() as int))
    }
}

pub broadcast proof fn lemma_tb_views_len(s: Seq<(Term, bool)>)
    ensures
        #[trigger] tb_views(s).len() == s.len(),
    decreases s,
{
    if s.len() > 0 {
        lemma_tb_views_len(s.subrange(1, s.len() as int));
    }
}

pub broadcast proof fn lemma_tb_views_index(s: Seq<(Term, bool)>, i: int)
    requires
        0 <= i < s.len(),
    ensures
        #[trigger] tb_views(s)[i] == (s[i].0@, s[i].1),
    decreases s,
{
    lemma_tb_views_len(s);
    if i > 0 {
        lemma_tb_views_index(s.subrange(1, s.len() as int), i - 1);
    }
}

/// Taking views commutes with subrange.
pub proof fn lemma_term_views_subrange(ts: Seq<Term>, a: int, b: int)
    requires
        0 <= a <= b <= ts.len(),
    ensures
        term_views(ts.subrange(a, b)) == term_views(ts).subrange(a, b),
{
    broadcast use group_term_view_lemmas;

    assert forall|i: int| 0 <= i < b - a implies term_views(ts.subrange(a, b))[i] == term_views(
        ts,
    ).subrange(a, b)[i] by {
        lemma_term_views_index(ts.subrange(a, b), i);
        lemma_term_views_index(ts, a + i);
    }
    assert(term_views(ts.subrange(a, b)) =~= term_views(ts).subrange(a, b));
}

/// Taking views distributes over concatenation.
pub proof fn lemma_term_views_concat(a: Seq<Term>, b: Seq<Term>)
    ensures
        term_views(a + b) == term_views(a) + term_views(b),
{
    broadcast use group_term_view_lemmas;

    assert forall|i: int| 0 <= i < a.len() + b.len() implies term_views(a + b)[i] == (term_views(a)
        + term_views(b))[i] by {
        if i < a.len() {
            assert((a + b)[i] == a[i]);
        } else {
            assert((a + b)[i] == b[i - a.len()]);
        }
    }
    assert(term_views(a + b) =~= term_views(a) + term_views(b));
}

/// Structural equality of sorts, decided executably.
pub fn sort_eq(a: &Sort, b: &Sort) -> (r: bool)
    ensures
        r == (a@ == b@),
{
    match (a, b) {
        (Sort::Bool, Sort::Bool) => true,
        (Sort::Id(s1), Sort::Id(s2)) => s1.eq(s2),
        _ => false,
    }
}

/// Structural equality of terms, decided executably: true exactly when the
/// two terms have the same view.
pub fn term_eq(a: &Term, b: &Term) -> (r: bool)
    ensures
        r == (a@ == b@),
    decreases *a, 0int,
{
    broadcast use group_term_view_lemmas;

    match (a, b) {
        (Term::Literal(b1), Term::Literal(b2)) => *b1 == *b2,
        (Term::Id(s1), Term::Id(s2)) => s1.eq(s2),
        (Term::App(f1, args1), Term::App(f2, args2)) => f1.eq(f2) && terms_eq(args1, args2),
        (Term::UnaryOp(op1, t1), Term::UnaryOp(op2, t2)) => *op1 == *op2 && term_eq(t1, t2),
        (Term::BinOp(op1, l1, r1), Term::BinOp(op2, l2, r2)) => *op1 == *op2 && term_eq(l1, l2)
            && term_eq(r1, r2),
        (Term::NAryOp(op1, ts1), Term::NAryOp(op2, ts2)) => *op1 == *op2 && terms_eq(ts1, ts2),
        (
            Term::Quantified { quantifier: q1, binders: bs1, body: t1 },
            Term::Quantified { quantifier: q2, binders: bs2, body: t2 },
        ) => *q1 == *q2 && binders_eq(bs1, bs2) && term_eq(t1, t2),
        _ => false,
    }
}

/// Structural equality of term vectors.
pub fn terms_eq(a: &Vec<Term>, b: &Vec<Term>) -> (r: bool)
    ensures
        r == (term_views(a@) == term_views(b@)),
    decreases *a, a@.len() + 1,
{
    broadcast use group_term_view_lemmas;

    if a.len() != b.len() {
        assert(term_views(a@).len() != term_views(b@).len());
        false
    } else {
        let r = terms_eq_from(a, b, 0);
        proof {
            if r {
                assert(term_views(a@) =~= term_views(b@));
            } else {
                let j = choose|j: int|
                    0 <= j < a@.len() && term_view(a@[j]) != term_view(b@[j]);
                lemma_term_views_index(a@, j);
                lemma_term_views_index(b@, j);
            }
        }
        r
    }
}

fn terms_eq_from(a: &Vec<Term>, b: &Vec<Term>, i: usize) -> (r: bool)
    requires
        a@.len() == b@.len(),
        i <= a@.len(),
    ensures
        r == (forall|j: int|
            i <= j < a@.len() ==> #[trigger] term_view(a@[j]) == term_view(b@[j])),
    decreases *a, a@.len() - i,
{
    if i == a.len() {
        true
    } else {
        if term_eq(&a[i], &b[i]) {
            terms_eq_from(a, b, i + 1)
        } else {
            false
        }
    }
}

fn binders_eq(a: &Vec<Binder>, b: &Vec<Binder>) -> (r: bool)
    ensures
        r == (binder_views(a@) == binder_views(b@)),
{
    broadcast use group_term_view_lemmas;

    if a.len() != b.len() {
        assert(binder_views(a@).len() != binder_views(b@).len());
        return false;
    }
    let n = a.len();
    let mut i: usize = 0;
    while i < n
        invariant
            n == a@.len(),
            a@.len() == b@.len(),
            i <= n,
            forall|j: int| 0 <= j < i ==> #[trigger] a@[j]@ == b@[j]@,
        decreases n - i,
    {
        let one = &a[i];
        let two = &b[i];
        if !(one.name.eq(&two.name) && sort_eq(&one.sort, &two.sort)) {
            proof {
                lemma_binder_views_index(a@, i as int);
                lemma_binder_views_index(b@, i as int);
            }
            return false;
        }
        assert(a@[i as int]@ == b@[i as int]@);
        i = i + 1;
    }
    proof {
        assert(binder_views(a@) =~= binder_views(b@));
    }
    true
}

/// An exact copy of a term: the clone has the same view.
pub fn clone_term(t: &Term) -> (r: Term)
    ensures
        r@ == t@,
    decreases *t, 0int,
{
    broadcast use group_term_view_lemmas;

    match t {
        Term::Literal(b) => Term::Literal(*b),
        Term::Id(s) => Term::Id(s.clone()),
        Term::App(f, args) => {
            let mut out: Vec<Term> = Vec::new();
            clone_terms_onto(args, 0, &mut out);
            proof {
                assert(term_views(out@) =~= term_views(args@));
            }
            Term::App(f.clone(), out)
        },
        Term::UnaryOp(op, t1) => Term::UnaryOp(*op, Box::new(clone_term(t1))),
        Term::BinOp(op, lhs, rhs) => Term::BinOp(
            *op,
            Box::new(clone_term(lhs)),
            Box::new(clone_term(rhs)),
        ),
        Term::NAryOp(op, ts) => {
            let mut out: Vec<Term> = Vec::new();
            clone_terms_onto(ts, 0, &mut out);
            proof {
                assert(term_views(out@) =~= term_views(ts@));
            }
            Term::NAryOp(*op, out)
        },
        Term::Quantified { quantifier, binders, body } => {
            let mut bs: Vec<Binder> = Vec::new();
            clone_binders_onto(binders, 0, &mut bs);
            proof {
                assert(binder_views(bs@) =~= binder_views(binders@));
            }
            Term::Quantified {
                quantifier: *quantifier,
                binders: bs,
                body: Box::new(clone_term(body)),
            }
        },
    }
}

fn clone_terms_onto(ts: &Vec<Term>, i: usize, out: &mut Vec<Term>)
    requires
        i <= ts@.len(),
    ensures
        final(out)@.len() == old(out)@.len() + ts@.len() - i,
        forall|j: int| 0 <= j < old(out)@.len() ==> #[trigger] final(out)@[j] == old(out)@[j],
        forall|j: int|
            old(out)@.len() <= j < final(out)@.len() ==> #[trigger] term_view(final(out)@[j])
                == term_view(ts@[i + (j - old(out)@.len())]),
    decreases *ts, ts@.len() - i,
{
    if i < ts.len() {
        let c = clone_term(&ts[i]);
        out.push(c);
        clone_terms_onto(ts, i + 1, out);
    }
}

fn clone_binders_onto(bs: &Vec<Binder>, i: usize, out: &mut Vec<Binder>)
    requires
        i <= bs@.len(),
    ensures
        final(out)@.len() == old(out)@.len() + bs@.len() - i,
        forall|j: int| 0 <= j < old(out)@.len() ==> #[trigger] final(out)@[j] == old(out)@[j],
        forall|j: int|
            old(out)@.len() <= j < final(out)@.len() ==> #[trigger] final(out)@[j]@
                == bs@[i + (j - old(out)@.len())]@,
    decreases bs@.len() - i,
{
    if i < bs.len() {
        let one = &bs[i];
        let sort = match &one.sort {
            Sort::Bool => Sort::Bool,
            Sort::Id(s) => Sort::Id(s.clone()),
        };
        out.push(Binder { name: one.name.clone(), sort });
        clone_binders_onto(bs, i + 1, out);
    }
}

/// An exact copy of a sort: the copy has the same view.
pub fn clone_sort(s: &Sort) -> (r: Sort)
    ensures
        r@ == s@,
{
    match s {
        Sort::Bool => Sort::Bool,
        Sort::Id(name) => Sort::Id(name.clone()),
    }
}

/// Copy of a binder vector with the same views.
pub fn clone_binders(bs: &Vec<Binder>) -> (r: Vec<Binder>)
    ensures
        binder_views(r@) == binder_views(bs@),
{
    broadcast use group_term_view_lemmas;

    let mut out: Vec<Binder> = Vec::new();
    clone_binders_onto(bs, 0, &mut out);
    proof {
        assert(binder_views(out@) =~= binder_views(bs@));
    }
    out
}

/// Copy of a term vector with the same views.
pub fn clone_terms(ts: &Vec<Term>) -> (r: Vec<Term>)
    ensures
        term_views(r@) == term_views(ts@),
{
    broadcast use group_term_view_lemmas;

    let mut out: Vec<Term> = Vec::new();
    clone_terms_onto(ts, 0, &mut out);
    proof {
        assert(term_views(out@) =~= term_views(ts@));
    }
    out
}

/// Plain negation: wrapping a term in `Not`.
pub open spec fn negate_v(v: TermV) -> TermV {
    TermV::UnaryOp(UOp::Not, Box::new(v))
}

/// Negate a term by wrapping it in `Not`.
pub fn negate(t: Term) -> (r: Term)
    ensures
        r@ == negate_v(t@),
{
    Term::UnaryOp(UOp::Not, Box::new(t))
}

/// Negation pushed one level into the term: literals flip, a double negation
/// cancels, equalities dualize, conjunction and disjunction swap by
/// De Morgan's laws, and a quantifier flips. Operators that have no cheap
/// dual are wrapped in a plain `Not`.
pub open spec fn nas_v(v: TermV) -> TermV
    decreases v,
{
    match v {
        TermV::Literal(b) => TermV::Literal(!b),
        TermV::UnaryOp(UOp::Not, t) => *t,
        TermV::BinOp(BinOp::Equals, lhs, rhs) => TermV::BinOp(BinOp::NotEquals, lhs, rhs),
        TermV::BinOp(BinOp::NotEquals, lhs, rhs) => TermV::BinOp(BinOp::Equals, lhs, rhs),
        TermV::NAryOp(NOp::And, ts) => TermV::NAryOp(NOp::Or, nas_vs(ts)),
        TermV::NAryOp(NOp::Or, ts) => TermV::NAryOp(NOp::And, nas_vs(ts)),
        TermV::Quantified { quantifier, binders, body } => TermV::Quantified {
            quantifier: flip_quantifier(quantifier),
            binders,
            body: Box::new(nas_v(*body)),
        },
        _ => TermV::UnaryOp(UOp::Not, Box::new(v)),
    }
}

/// Elementwise [`nas_v`].
pub open spec fn nas_vs(vs: Seq<TermV>) -> Seq<TermV>
    decreases vs,
{
    if vs.len() == 0 {
        Seq::<TermV>::empty()
    } else {
        seq![nas_v(vs[0])] + nas_vs(vs.subrange(1, vs.len() as int))
    }
}

pub open spec fn flip_quantifier(q: Quantifier) -> Quantifier {
    match q {
        Quantifier::Forall => Quantifier::Exists,
        Quantifier::Exists => Quantifier::Forall,
    }
}

pub broadcast proof fn lemma_nas_vs_len(vs: Seq<TermV>)
    ensures
        #[trigger] nas_vs(vs).len() == vs.len(),
    decreases vs,
{
    if vs.len() > 0 {
        lemma_nas_vs_len(vs.subrange(1, vs.len() as int));
    }
}

pub broadcast proof fn lemma_nas_vs_index(vs: Seq<TermV>, i: int)
    requires
        0 <= i < vs.len(),
    ensures
        #[trigger] nas_vs(vs)[i] == nas_v(vs[i]),
    decreases vs,
{
    lemma_nas_vs_len(vs);
    if i > 0 {
        lemma_nas_vs_index(vs.subrange(1, vs.len() as int), i - 1);
    }
}

/// Negate a term, simplifying as the negation is pushed in.
pub fn negate_and_simplify(t: &Term) -> (r: Term)
    ensures
        r@ == nas_v(t@),
    decreases *t, 1int,
{
    broadcast use {group_term_view_lemmas, lemma_nas_vs_len, lemma_nas_vs_index};

    match t {
        Term::Literal(b) => Term::Literal(!*b),
        Term::UnaryOp(UOp::Not, t1) => clone_term(t1),
        Term::BinOp(BinOp::Equals, lhs, rhs) => Term::BinOp(
            BinOp::NotEquals,
            Box::new(clone_term(lhs)),
            Box::new(clone_term(rhs)),
        ),
        Term::BinOp(BinOp::NotEquals, lhs, rhs) => Term::BinOp(
            BinOp::Equals,
            Box::new(clone_term(lhs)),
            Box::new(clone_term(rhs)),
        ),
        Term::NAryOp(NOp::And, ts) => {
            let mut out: Vec<Term> = Vec::new();
            nas_onto(ts, 0, &mut out);
            proof {
                assert(term_views(out@) =~= nas_vs(term_views(ts@)));
            }
            Term::NAryOp(NOp::Or, out)
        },
        Term::NAryOp(NOp::Or, ts) => {
            let mut out: Vec<Term> = Vec::new();
            nas_onto(ts, 0, &mut out);
            proof {
                assert(term_views(out@) =~= nas_vs(term_views(ts@)));
            }
            Term::NAryOp(NOp::And, out)
        },
        Term::Quantified { quantifier, binders, body } => {
            let q = match quantifier {
                Quantifier::Forall => Quantifier::Exists,
                Quantifier::Exists => Quantifier::Forall,
            };
            let mut bs: Vec<Binder> = Vec::new();
            clone_binders_onto(binders, 0, &mut bs);
            proof {
                assert(binder_views(bs@) =~= binder_views(binders@));
            }
            Term::Quantified { quantifier: q, binders: bs, body: Box::new(negate_and_simplify(body)) }
        },
        _ => Term::UnaryOp(UOp::Not, Box::new(clone_term(t))),
    }
}

fn nas_onto(ts: &Vec<Term>, i: usize, out: &mut Vec<Term>)
    requires
        i <= ts@.len(),
    ensures
        final(out)@.len() == old(out)@.len() + ts@.len() - i,
        forall|j: int| 0 <= j < old(out)@.len() ==> #[trigger] final(out)@[j] == old(out)@[j],
        forall|j: int|
            old(out)@.len() <= j < final(out)@.len() ==> #[trigger] term_view(final(out)@[j])
                == nas_v(term_view(ts@[i + (j - old(out)@.len())])),
    decreases *ts, ts@.len() - i,
{
    if i < ts.len() {
        let c = negate_and_simplify(&ts[i]);
        out.push(c);
        nas_onto(ts, i + 1, out);
    }
}

} // verus!
