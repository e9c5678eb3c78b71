//! S-expressions: the data carried over the solver's wire protocol.
//!
//! Commands sent to the solver process and replies decoded from it are
//! s-expressions; the process transport moves them as values and app code
//! prints and parses the actual byte stream. [`term_sexp`] encodes a
//! first-order term into its solver form.

use vstd::prelude::*;

use crate::syntax::{BinOp, Binder, NOp, Quantifier, Sort, SortV, Term, TermV, UOp};
use crate::syntax::{binder_views, group_term_view_lemmas, term_view, term_views};

verus! {

/// An atom: a symbol or a number.
#[derive(PartialEq, Eq, Debug)]
pub enum Atom {
    S(String),
    I(u64),
}

/// An s-expression: an atom, a comment, or a parenthesized list.
#[derive(PartialEq, Eq, Debug)]
pub enum Sexp {
    Atom(Atom),
    Comment(String),
    List(Vec<Sexp>),
}

/// Mathematical view of an atom.
#[verifier::ext_equal]
pub enum AtomV {
    S(Seq<char>),
    I(u64),
}

/// Mathematical view of an s-expression.
#[verifier::ext_equal]
pub enum SexpV {
    Atom(AtomV),
    Comment(Seq<char>),
    List(Seq<SexpV>),
}

impl View for Atom {
    type V = AtomV;

    open spec fn view(&self) -> AtomV {
        match self {
            Atom::S(s) => AtomV::S(s@),
            Atom::I(i) => AtomV::I(*i),
        }
    }
}

/// The view of an s-expression.
pub open spec fn sexp_view(e: Sexp) -> SexpV
    decreases e,
{
    match e {
        Sexp::Atom(a) => SexpV::Atom(a@),
        Sexp::Comment(c) => SexpV::Comment(c@),
        Sexp::List(items) => SexpV::List(sexp_views(items@)),
    }
}

/// Elementwise view of a sequence of s-expressions.
pub open spec fn sexp_views(es: Seq<Sexp>) -> Seq<SexpV>
    decreases es,
{
    if es.len() == 0 {
        Seq::<SexpV>::empty()
    } else {
        seq![sexp_view(es[0])] + sexp_views(es.subrange(1, es.len() as int))
    }
}

impl View for Sexp {
    type V = SexpV;

    open spec fn view(&self) -> SexpV {
        sexp_view(*self)
    }
}

pub broadcast proof fn lemma_sexp_views_len(es: Seq<Sexp>)
    ensures
        #[trigger] sexp_views(es).len() == es.len(),
    decreases es,
{
    if es.len() > 0 {
        lemma_sexp_views_len(es.subrange(1, es.len() as int));
    }
}

pub broadcast proof fn lemma_sexp_views_index(es: Seq<Sexp>, i: int)
    requires
        0 <= i < es.len(),
    ensures
        #[trigger] sexp_views(es)[i] == sexp_view(es[i]),
    decreases es,
{
    lemma_sexp_views_len(es);
    if i > 0 {
        lemma_sexp_views_index(es.subrange(1, es.len() as int), i - 1);
    }
}

pub broadcast group group_sexp_view_lemmas {
    lemma_sexp_views_len,
    lemma_sexp_views_index,
}

/// An exact copy of an s-expression: the copy has the same view.
pub fn clone_sexp(e: &Sexp) -> (r: Sexp)
    ensures
        r@ == e@,
    decreases *e, 0int,
{
    broadcast use group_sexp_view_lemmas;

    match e {
        Sexp::Atom(Atom::S(s)) => Sexp::Atom(Atom::S(s.clone())),
        Sexp::Atom(Atom::I(i)) => Sexp::Atom(Atom::I(*i)),
        Sexp::Comment(c) => Sexp::Comment(c.clone()),
        Sexp::List(items) => {
            let mut out: Vec<Sexp> = Vec::new();
            clone_sexps_onto(items, 0, &mut out);
            proof {
                assert(sexp_views(out@) =~= sexp_views(items@));
            }
            Sexp::List(out)
        },
    }
}

fn clone_sexps_onto(es: &Vec<Sexp>, i: usize, out: &mut Vec<Sexp>)
    requires
        i <= es@.len(),
    ensures
        final(out)@.len() == old(out)@.len() + es@.len() - i,
        forall|j: int| 0 <= j < old(out)@.len() ==> #[trigger] final(out)@[j] == old(out)@[j],
        forall|j: int|
            old(out)@.len() <= j < final(out)@.len() ==> #[trigger] sexp_view(final(out)@[j])
                == sexp_view(es@[i + (j - old(out)@.len())]),
    decreases *es, es@.len() - i,
{
    if i < es.len() {
        let c = clone_sexp(&es[i]);
        out.push(c);
        clone_sexps_onto(es, i + 1, out);
    }
}

/// A symbol atom.
pub fn atom_s(s: String) -> (r: Sexp)
    ensures
        r@ == SexpV::Atom(AtomV::S(s@)),
{
    Sexp::Atom(Atom::S(s))
}

/// A numeral atom.
pub fn atom_i(i: u64) -> (r: Sexp)
    ensures
        r@ == SexpV::Atom(AtomV::I(i)),
{
    Sexp::Atom(Atom::I(i))
}

/// The view of an application: a list headed by a symbol.
pub open spec fn app_v(head: Seq<char>, args: Seq<SexpV>) -> SexpV {
    SexpV::List(seq![SexpV::Atom(AtomV::S(head))] + args)
}

/// An application: a list headed by the given symbol.
pub fn app(head: &str, args: Vec<Sexp>) -> (r: Sexp)
    ensures
        r@ == app_v(head@, sexp_views(args@)),
{
    broadcast use group_sexp_view_lemmas;

    let mut items: Vec<Sexp> = Vec::new();
    items.push(atom_s(head.to_owned()));
    let ghost one = items@;
    let mut rest = args;
    let ghost rest0 = rest@;
    items.append(&mut rest);
    proof {
        assert(items@ =~= one + rest0);
        assert forall|j: int| 0 <= j < items@.len() implies #[trigger] sexp_views(items@)[j] == (
        seq![SexpV::Atom(AtomV::S(head@))] + sexp_views(rest0))[j] by {
            lemma_sexp_views_index(items@, j);
            if j > 0 {
                lemma_sexp_views_index(rest0, j - 1);
            }
        }
        assert(sexp_views(items@) =~= seq![SexpV::Atom(AtomV::S(head@))] + sexp_views(rest0));
    }
    Sexp::List(items)
}

// ===========================================================================
// Encoding terms
// ===========================================================================

/// The solver form of a sort: `Bool`, or the sort's name.
pub open spec fn sort_sexp_v(s: SortV) -> SexpV {
    match s {
        SortV::Bool => SexpV::Atom(AtomV::S("Bool"@)),
        SortV::Id(name) => SexpV::Atom(AtomV::S(name)),
    }
}

/// Encode a sort.
pub fn sort_sexp(s: &Sort) -> (r: Sexp)
    ensures
        r@ == sort_sexp_v(s@),
{
    match s {
        Sort::Bool => atom_s("Bool".to_owned()),
        Sort::Id(name) => atom_s(name.clone()),
    }
}

/// The fragment of terms the solver understands: no modality anywhere.
pub open spec fn fo_v(v: TermV) -> bool
    decreases v,
{
    match v {
        TermV::Literal(_) => true,
        TermV::Id(_) => true,
        TermV::App(_, args) => fo_list(args),
        TermV::UnaryOp(UOp::Not, t) => fo_v(*t),
        TermV::UnaryOp(_, _) => false,
        TermV::BinOp(_, lhs, rhs) => fo_v(*lhs) && fo_v(*rhs),
        TermV::NAryOp(_, vs) => fo_list(vs),
        TermV::Quantified { body, .. } => fo_v(*body),
    }
}

/// Every member of the sequence is solver-encodable.
pub open spec fn fo_list(vs: Seq<TermV>) -> bool
    decreases vs,
{
    if vs.len() == 0 {
        true
    } else {
        fo_v(vs[0]) && fo_list(vs.subrange(1, vs.len() as int))
    }
}

/// The solver form of a binder: `(name sort)`.
pub open spec fn binder_sexp_v(b: crate::syntax::BinderV) -> SexpV {
    SexpV::List(seq![SexpV::Atom(AtomV::S(b.name)), sort_sexp_v(b.sort)])
}

/// Elementwise [`binder_sexp_v`].
pub open spec fn binder_sexps_v(bs: Seq<crate::syntax::BinderV>) -> Seq<SexpV>
    decreases bs,
{
    if bs.len() == 0 {
        Seq::<SexpV>::empty()
    } else {
        seq![binder_sexp_v(bs[0])] + binder_sexps_v(bs.subrange(1, bs.len() as int))
    }
}

pub broadcast proof fn lemma_binder_sexps_len(bs: Seq<crate::syntax::BinderV>)
    ensures
        #[trigger] binder_sexps_v(bs).len() == bs.len(),
    decreases bs,
{
    if bs.len() > 0 {
        lemma_binder_sexps_len(bs.subrange(1, bs.len() as int));
    }
}

pub broadcast proof fn lemma_binder_sexps_index(bs: Seq<crate::syntax::BinderV>, i: int)
    requires
        0 <= i < bs.len(),
    ensures
        #[trigger] binder_sexps_v(bs)[i] == binder_sexp_v(bs[i]),
    decreases bs,
{
    lemma_binder_sexps_len(bs);
    if i > 0 {
        lemma_binder_sexps_index(bs.subrange(1, bs.len() as int), i - 1);
    }
}

/// The solver form of a term: identifiers and applications keep their names,
/// boolean constants become `true`/`false`, negation becomes `not`, equality
/// `=`, inequality `distinct`, implication `=>`, bi-implication `=`,
/// conjunction `and`, disjunction `or`, and a quantified term binds its
/// variables with their sorts around its body.
pub open spec fn term_sexp_v(v: TermV) -> SexpV
    decreases v,
{
    match v {
        TermV::Literal(b) => if b {
            SexpV::Atom(AtomV::S("true"@))
        } else {
            SexpV::Atom(AtomV::S("false"@))
        },
        TermV::Id(name) => SexpV::Atom(AtomV::S(name)),
        TermV::App(f, args) => app_v(f, term_sexps_v(args)),
        TermV::UnaryOp(UOp::Not, t) => app_v("not"@, seq![term_sexp_v(*t)]),
        TermV::UnaryOp(_, _) => SexpV::List(Seq::<SexpV>::empty()),
        TermV::BinOp(op, lhs, rhs) => app_v(
            match op {
                BinOp::Equals => "="@,
                BinOp::NotEquals => "distinct"@,
                BinOp::Implies => "=>"@,
                BinOp::Iff => "="@,
            },
            seq![term_sexp_v(*lhs), term_sexp_v(*rhs)],
        ),
        TermV::NAryOp(op, vs) => app_v(
            match op {
                NOp::And => "and"@,
                NOp::Or => "or"@,
            },
            term_sexps_v(vs),
        ),
        TermV::Quantified { quantifier, binders, body } => app_v(
            match quantifier {
                Quantifier::Forall => "forall"@,
                Quantifier::Exists => "exists"@,
            },
            seq![SexpV::List(binder_sexps_v(binders)), term_sexp_v(*body)],
        ),
    }
}

/// Elementwise [`term_sexp_v`].
pub open spec fn term_sexps_v(vs: Seq<TermV>) -> Seq<SexpV>
    decreases vs,
{
    if vs.len() == 0 {
        Seq::<SexpV>::empty()
    } else {
        seq![term_sexp_v(vs[0])] + term_sexps_v(vs.subrange(1, vs.len() as int))
    }
}

pub broadcast proof fn lemma_term_sexps_len(vs: Seq<TermV>)
    ensures
        #[trigger] term_sexps_v(vs).len() == vs.len(),
    decreases vs,
{
    if vs.len() > 0 {
        lemma_term_sexps_len(vs.subrange(1, vs.len() as int));
    }
}

pub broadcast proof fn lemma_term_sexps_index(vs: Seq<TermV>, i: int)
    requires
        0 <= i < vs.len(),
    ensures
        #[trigger] term_sexps_v(vs)[i] == term_sexp_v(vs[i]),
    decreases vs,
{
    lemma_term_sexps_len(vs);
    if i > 0 {
        lemma_term_sexps_index(vs.subrange(1, vs.len() as int), i - 1);
    }
}

/// Encode a term for the solver.
pub fn term_sexp(t: &Term) -> (r: Sexp)
    requires
        fo_v(t@),
    ensures
        r@ == term_sexp_v(t@),
    decreases *t, 1int,
{
    broadcast use {group_sexp_view_lemmas, group_term_view_lemmas};

    match t {
        Term::Literal(b) => {
            if *b {
                atom_s("true".to_owned())
            } else {
                atom_s("false".to_owned())
            }
        },
        Term::Id(name) => atom_s(name.clone()),
        Term::App(f, args) => {
            proof {
                lemma_fo_list(term_views(args@));
            }
            let items = term_sexps(args);
            let ghost itv = sexp_views(items@);
            let r = app(f.as_str(), items);
            proof {
                assert(itv =~= term_sexps_v(term_views(args@)));
            }
            r
        },
        Term::UnaryOp(UOp::Not, t1) => {
            let mut items: Vec<Sexp> = Vec::new();
            items.push(term_sexp(t1));
            proof {
                lemma_sexp_views_len(items@);
                lemma_sexp_views_index(items@, 0);
                assert(sexp_views(items@) =~= seq![term_sexp_v((**t1)@)]);
            }
            app("not", items)
        },
        Term::UnaryOp(_, _) => {
            proof {
                assert(false);
            }
            Sexp::List(Vec::new())
        },
        Term::BinOp(op, lhs, rhs) => {
            let head = match op {
                BinOp::Equals => "=",
                BinOp::NotEquals => "distinct",
                BinOp::Implies => "=>",
                BinOp::Iff => "=",
            };
            let mut items: Vec<Sexp> = Vec::new();
            items.push(term_sexp(lhs));
            items.push(term_sexp(rhs));
            proof {
                lemma_sexp_views_len(items@);
                lemma_sexp_views_index(items@, 0);
                lemma_sexp_views_index(items@, 1);
                assert(sexp_views(items@) =~= seq![
                    term_sexp_v((**lhs)@),
                    term_sexp_v((**rhs)@),
                ]);
            }
            app(head, items)
        },
        Term::NAryOp(op, ts) => {
            proof {
                lemma_fo_list(term_views(ts@));
            }
            let head = match op {
                NOp::And => "and",
                NOp::Or => "or",
            };
            let items = term_sexps(ts);
            app(head, items)
        },
        Term::Quantified { quantifier, binders, body } => {
            let head = match quantifier {
                Quantifier::Forall => "forall",
                Quantifier::Exists => "exists",
            };
            let mut bs: Vec<Sexp> = Vec::new();
            binder_sexps_onto(binders, 0, &mut bs);
            proof {
                assert forall|j: int| 0 <= j < bs@.len() implies #[trigger] sexp_views(bs@)[j]
                    == binder_sexps_v(binder_views(binders@))[j] by {
                    lemma_sexp_views_index(bs@, j);
                    lemma_binder_sexps_index(binder_views(binders@), j);
                    crate::syntax::lemma_binder_views_index(binders@, j);
                }
                lemma_binder_sexps_len(binder_views(binders@));
                crate::syntax::lemma_binder_views_len(binders@);
                lemma_sexp_views_len(bs@);
                assert(sexp_views(bs@) =~= binder_sexps_v(binder_views(binders@)));
            }
            let mut items: Vec<Sexp> = Vec::new();
            items.push(Sexp::List(bs));
            items.push(term_sexp(body));
            proof {
                lemma_sexp_views_len(items@);
                lemma_sexp_views_index(items@, 0);
                lemma_sexp_views_index(items@, 1);
                assert(sexp_views(items@) =~= seq![
                    SexpV::List(binder_sexps_v(binder_views(binders@))),
                    term_sexp_v((**body)@),
                ]);
            }
            app(head, items)
        },
    }
}

/// Encode each term of a vector.
fn term_sexps(ts: &Vec<Term>) -> (r: Vec<Sexp>)
    requires
        fo_list(term_views(ts@)),
    ensures
        sexp_views(r@) == term_sexps_v(term_views(ts@)),
    decreases *ts, ts@.len() + 1,
{
    broadcast use {group_sexp_view_lemmas, group_term_view_lemmas};

    let mut out: Vec<Sexp> = Vec::new();
    term_sexps_onto(ts, 0, &mut out);
    proof {
        broadcast use {lemma_term_sexps_len, lemma_term_sexps_index};

        assert forall|j: int| 0 <= j < out@.len() implies #[trigger] sexp_views(out@)[j]
            == term_sexps_v(term_views(ts@))[j] by {
            lemma_sexp_views_index(out@, j);
            crate::syntax::lemma_term_views_index(ts@, j);
        }
        assert(sexp_views(out@) =~= term_sexps_v(term_views(ts@)));
    }
    out
}

fn term_sexps_onto(ts: &Vec<Term>, i: usize, out: &mut Vec<Sexp>)
    requires
        i <= ts@.len(),
        fo_list(term_views(ts@)),
    ensures
        final(out)@.len() == old(out)@.len() + ts@.len() - i,
        forall|j: int| 0 <= j < old(out)@.len() ==> #[trigger] final(out)@[j] == old(out)@[j],
        forall|j: int|
            old(out)@.len() <= j < final(out)@.len() ==> #[trigger] sexp_view(final(out)@[j])
                == term_sexp_v(term_view(ts@[i + (j - old(out)@.len())])),
    decreases *ts, ts@.len() - i,
{
    broadcast use group_term_view_lemmas;

    if i < ts.len() {
        proof {
            lemma_fo_list(term_views(ts@));
            crate::syntax::lemma_term_views_index(ts@, i as int);
        }
        let c = term_sexp(&ts[i]);
        out.push(c);
        term_sexps_onto(ts, i + 1, out);
    }
}

fn binder_sexps_onto(bs: &Vec<Binder>, i: usize, out: &mut Vec<Sexp>)
    requires
        i <= bs@.len(),
    ensures
        final(out)@.len() == old(out)@.len() + bs@.len() - i,
        forall|j: int| 0 <= j < old(out)@.len() ==> #[trigger] final(out)@[j] == old(out)@[j],
        forall|j: int|
            old(out)@.len() <= j < final(out)@.len() ==> #[trigger] sexp_view(final(out)@[j])
                == binder_sexp_v(bs@[i + (j - old(out)@.len())]@),
    decreases bs@.len() - i,
{
    broadcast use group_sexp_view_lemmas;

    if i < bs.len() {
        let one = &bs[i];
        let mut items: Vec<Sexp> = Vec::new();
        items.push(atom_s(one.name.clone()));
        items.push(sort_sexp(&one.sort));
        proof {
            lemma_sexp_views_len(items@);
            lemma_sexp_views_index(items@, 0);
            lemma_sexp_views_index(items@, 1);
            assert(sexp_views(items@) =~= seq![
                SexpV::Atom(AtomV::S(one.name@)),
                sort_sexp_v(one.sort@),
            ]);
        }
        out.push(Sexp::List(items));
        binder_sexps_onto(bs, i + 1, out);
    }
}

/// Every member of a solver-encodable list is solver-encodable.
pub proof fn lemma_fo_list(vs: Seq<TermV>)
    ensures
        fo_list(vs) == (forall|i: int| 0 <= i < vs.len() ==> fo_v(#[trigger] vs[i])),
    decreases vs,
{
    if vs.len() > 0 {
        let rest = vs.subrange(1, vs.len() as int);
        lemma_fo_list(rest);
        if fo_list(vs) {
            assert forall|i: int| 0 <= i < vs.len() implies fo_v(#[trigger] vs[i]) by {
                if i > 0 {
                    assert(fo_v(rest[i - 1]));
                }
            }
        } else {
            if fo_v(vs[0]) {
                let j = choose|j: int| 0 <= j < rest.len() && !fo_v(rest[j]);
                assert(vs[j + 1] == rest[j]);
            }
        }
    }
}

} // verus!
