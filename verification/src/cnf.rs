//! Conversion of terms to conjunctive normal form.
//!
//! A term in canonical shape is either a flat conjunction `p1 & ... & pn` or
//! a single `always` modality wrapping a flat conjunction, where no conjunct
//! is itself a conjunction ([`cnf_wf_v`]). [`Cnf::new`] normalizes a term
//! into this shape; [`term_to_cnf_clauses`] fully distributes a term into
//! independent clauses, pushing a top-level universal quantifier onto each
//! clause. Neither operation recurses under `forall`/`exists` bodies beyond
//! the top level.

use vstd::prelude::*;

use crate::syntax::{BinOp, NOp, Quantifier, Term, TermV, UOp};
use crate::syntax::{clone_binders, clone_term, clone_terms, negate, negate_v};
use crate::syntax::{
    binder_views, group_term_view_lemmas, lemma_term_views_concat, term_view, term_views,
};

verus! {

// ===========================================================================
// Canonical shape
// ===========================================================================

/// The term is not itself a conjunction.
pub open spec fn not_and_v(v: TermV) -> bool {
    match v {
        TermV::NAryOp(NOp::And, _) => false,
        _ => true,
    }
}

/// No member of the sequence is a conjunction.
pub open spec fn all_not_and(vs: Seq<TermV>) -> bool {
    forall|i: int| 0 <= i < vs.len() ==> not_and_v(#[trigger] vs[i])
}

/// The term is a conjunction none of whose conjuncts is a conjunction.
pub open spec fn flat_conjunction_v(v: TermV) -> bool {
    match v {
        TermV::NAryOp(NOp::And, vs) => all_not_and(vs),
        _ => false,
    }
}

/// Canonical shape: a flat conjunction, or one `always` wrapping a flat
/// conjunction.
pub open spec fn cnf_wf_v(v: TermV) -> bool {
    match v {
        TermV::NAryOp(_, _) => flat_conjunction_v(v),
        TermV::UnaryOp(UOp::Always, body) => flat_conjunction_v(*body),
        _ => false,
    }
}

/// Whether the term is not a conjunction.
pub fn not_and(t: &Term) -> (r: bool)
    ensures
        r == not_and_v(t@),
{
    !(matches!(t, Term::NAryOp(NOp::And, _)))
}

/// Whether the term is a flat conjunction.
pub fn flat_disjunction(t: &Term) -> (r: bool)
    ensures
        r == flat_conjunction_v(t@),
{
    broadcast use group_term_view_lemmas;

    match t {
        Term::NAryOp(NOp::And, ts) => {
            proof {
                assert(t@ == TermV::NAryOp(NOp::And, term_views(ts@)));
            }
            let n = ts.len();
            let mut i: usize = 0;
            while i < n
                invariant
                    n == ts@.len(),
                    i <= n,
                    t@ == TermV::NAryOp(NOp::And, term_views(ts@)),
                    forall|j: int| 0 <= j < i ==> not_and_v(#[trigger] term_view(ts@[j])),
                decreases n - i,
            {
                if !not_and(&ts[i]) {
                    proof {
                        crate::syntax::lemma_term_views_len(ts@);
                        crate::syntax::lemma_term_views_index(ts@, i as int);
                        let vs = term_views(ts@);
                        assert(!not_and_v(vs[i as int]));
                        assert(!all_not_and(vs));
                    }
                    return false;
                }
                i = i + 1;
            }
            proof {
                assert forall|j: int| 0 <= j < term_views(ts@).len() implies not_and_v(
                    #[trigger] term_views(ts@)[j],
                ) by {
                    crate::syntax::lemma_term_views_index(ts@, j);
                }
                assert(all_not_and(term_views(ts@)));
            }
            true
        },
        _ => false,
    }
}

/// The well-formedness check for [`Cnf`]: whether the term is in canonical
/// shape.
pub fn cnf(t: &Term) -> (r: bool)
    ensures
        r == cnf_wf_v(t@),
{
    match t {
        Term::NAryOp(_, _) => flat_disjunction(t),
        Term::UnaryOp(UOp::Always, body) => flat_disjunction(body),
        _ => false,
    }
}

// ===========================================================================
// Collapsing `always` and flattening conjunctions
// ===========================================================================

/// If the term is an `always`, its body with consecutive `always` wrappers
/// collapsed; otherwise nothing.
pub open spec fn get_always_v(v: TermV) -> Option<TermV>
    decreases v,
{
    match v {
        TermV::UnaryOp(UOp::Always, t) => match get_always_v(*t) {
            Option::Some(b) => Option::Some(b),
            Option::None => Option::Some(*t),
        },
        _ => Option::None,
    }
}

/// If `t` is an `always`, get its body, collapsing consecutive `always`.
pub fn get_always(t: &Term) -> (r: Option<Term>)
    ensures
        match r {
            Option::Some(b) => get_always_v(t@) == Option::Some(b@),
            Option::None => get_always_v(t@) is None,
        },
    decreases *t,
{
    match t {
        Term::UnaryOp(UOp::Always, t1) => match get_always(t1) {
            Option::Some(b) => Option::Some(b),
            Option::None => Option::Some(clone_term(t1)),
        },
        _ => Option::None,
    }
}

/// The conjuncts of a term: a nested conjunction flattens into the
/// concatenation of its members' conjuncts, and any other term is the single
/// conjunct `[t]`.
pub open spec fn conjuncts_v(v: TermV) -> Seq<TermV>
    decreases v, 0int,
{
    match v {
        TermV::NAryOp(NOp::And, vs) => conjuncts_list(vs),
        _ => seq![v],
    }
}

/// Concatenation of the conjuncts of each element.
pub open spec fn conjuncts_list(vs: Seq<TermV>) -> Seq<TermV>
    decreases vs, vs.len() + 1,
{
    if vs.len() == 0 {
        Seq::<TermV>::empty()
    } else {
        conjuncts_v(vs[0]) + conjuncts_list(vs.subrange(1, vs.len() as int))
    }
}

/// No conjunct produced by flattening is itself a conjunction.
pub proof fn lemma_conjuncts_not_and(v: TermV)
    ensures
        forall|i: int| 0 <= i < conjuncts_v(v).len() ==> not_and_v(#[trigger] conjuncts_v(v)[i]),
    decreases v, 0int,
{
    match v {
        TermV::NAryOp(NOp::And, vs) => {
            lemma_conjuncts_list_not_and(vs);
            assert forall|i: int| 0 <= i < conjuncts_v(v).len() implies not_and_v(
                #[trigger] conjuncts_v(v)[i],
            ) by {
                assert(conjuncts_v(v)[i] == conjuncts_list(vs)[i]);
            }
        },
        _ => {
            assert(conjuncts_v(v) == seq![v]);
            assert(not_and_v(v));
        },
    }
}

proof fn lemma_conjuncts_list_not_and(vs: Seq<TermV>)
    ensures
        forall|i: int|
            0 <= i < conjuncts_list(vs).len() ==> not_and_v(#[trigger] conjuncts_list(vs)[i]),
    decreases vs, vs.len() + 1,
{
    if vs.len() > 0 {
        lemma_conjuncts_not_and(vs[0]);
        lemma_conjuncts_list_not_and(vs.subrange(1, vs.len() as int));
        let a = conjuncts_v(vs[0]);
        let b = conjuncts_list(vs.subrange(1, vs.len() as int));
        assert(conjuncts_list(vs) == a + b);
        assert forall|i: int| 0 <= i < conjuncts_list(vs).len() implies not_and_v(
            #[trigger] conjuncts_list(vs)[i],
        ) by {
            if i < a.len() {
                assert(conjuncts_list(vs)[i] == a[i]);
            } else {
                assert(conjuncts_list(vs)[i] == b[i - a.len()]);
            }
        }
    }
}

/// Flattening a sequence whose members are already no conjunctions is the
/// identity.
pub proof fn lemma_conjuncts_list_flat(vs: Seq<TermV>)
    requires
        forall|i: int| 0 <= i < vs.len() ==> not_and_v(#[trigger] vs[i]),
    ensures
        conjuncts_list(vs) == vs,
    decreases vs,
{
    if vs.len() == 0 {
        assert(conjuncts_list(vs) =~= vs);
    } else {
        lemma_conjuncts_list_flat(vs.subrange(1, vs.len() as int));
        assert(conjuncts_v(vs[0]) == seq![vs[0]]);
        assert(conjuncts_list(vs) =~= vs);
    }
}

/// Flatten a term into its conjuncts.
pub fn conjuncts(t: &Term) -> (r: Vec<Term>)
    ensures
        term_views(r@) == conjuncts_v(t@),
{
    let mut out: Vec<Term> = Vec::new();
    conjuncts_onto(t, &mut out);
    proof {
        assert(term_views(Seq::<Term>::empty()) + conjuncts_v(t@) =~= conjuncts_v(t@));
        assert(out@ =~= Seq::<Term>::empty() + out@);
    }
    out
}

fn conjuncts_onto(t: &Term, out: &mut Vec<Term>)
    ensures
        term_views(final(out)@) == term_views(old(out)@) + conjuncts_v(t@),
    decreases *t, 0int,
{
    broadcast use group_term_view_lemmas;

    match t {
        Term::NAryOp(NOp::And, ts) => {
            conjuncts_list_onto(ts, 0, out);
            proof {
                assert(term_views(ts@).subrange(0, ts@.len() as int) =~= term_views(ts@));
            }
        },
        _ => {
            let c = clone_term(t);
            let ghost prev = out@;
            out.push(c);
            proof {
                assert(out@ =~= prev + seq![c]);
                lemma_term_views_concat(prev, seq![c]);
                assert(term_views(seq![c]) =~= seq![term_view(c)]);
            }
        },
    }
}

fn conjuncts_list_onto(ts: &Vec<Term>, i: usize, out: &mut Vec<Term>)
    requires
        i <= ts@.len(),
    ensures
        term_views(final(out)@) == term_views(old(out)@) + conjuncts_list(
            term_views(ts@).subrange(i as int, term_views(ts@).len() as int),
        ),
    decreases *ts, ts@.len() - i + 1,
{
    broadcast use group_term_view_lemmas;

    let ghost whole = term_views(ts@);
    if i < ts.len() {
        let ghost mid1 = out@;
        conjuncts_onto(&ts[i], out);
        conjuncts_list_onto(ts, i + 1, out);
        proof {
            let rest = whole.subrange(i as int, whole.len() as int);
            assert(rest[0] == term_view(ts@[i as int]));
            assert(rest.subrange(1, rest.len() as int) =~= whole.subrange(
                i + 1,
                whole.len() as int,
            ));
            assert(rest == conjuncts_v(rest[0]) + conjuncts_list(rest.subrange(1, rest.len() as int))
                ==> true);
            assert(term_views(out@) =~= term_views(old(out)@) + conjuncts_list(rest));
        }
    } else {
        proof {
            assert(whole.subrange(i as int, whole.len() as int).len() == 0);
            assert(term_views(out@) =~= term_views(old(out)@) + conjuncts_list(
                whole.subrange(i as int, whole.len() as int),
            ));
        }
    }
}

// ===========================================================================
// The normalizer
// ===========================================================================

/// The canonical form of a term: the collapsed `always` body re-wrapped in
/// one `always`, or the flat conjunction of the term's conjuncts.
pub open spec fn cnf_of(v: TermV) -> TermV {
    match get_always_v(v) {
        Option::Some(body) => TermV::UnaryOp(UOp::Always, Box::new(body)),
        Option::None => TermV::NAryOp(NOp::And, conjuncts_v(v)),
    }
}

/// A term in conjunctive normal form.
///
/// These terms have the shape `(p1 & ... & pn)` or `always (p1 & ... & pn)`,
/// where the `pi` are not conjunctions. The constructor creates a single
/// conjunction so that the root is always `NAryOp(And, _)` or
/// `UnaryOp(Always, NAryOp(And, _))`. It does not recurse into `forall` and
/// `exists` bodies.
#[derive(PartialEq, Eq, Debug)]
pub struct Cnf(pub Term);

impl Cnf {
    /// Normalize a term.
    ///
    /// An `always`-rooted term must wrap a flat conjunction once its
    /// consecutive `always` modalities are collapsed; anything else would be
    /// malformed input to the well-formedness check.
    pub fn new(t: Term) -> (c: Cnf)
        requires
            (get_always_v(t@) matches Option::Some(body) ==> flat_conjunction_v(body)),
        ensures
            c.0@ == cnf_of(t@),
            cnf_wf_v(c.0@),
    {
        let c = match get_always(&t) {
            Option::Some(body) => Term::UnaryOp(UOp::Always, Box::new(body)),
            Option::None => Term::NAryOp(NOp::And, conjuncts(&t)),
        };
        proof {
            lemma_conjuncts_not_and(t@);
        }
        Cnf(c)
    }
}

// ===========================================================================
// Clause conversion
// ===========================================================================

/// The quantifier-free fragment accepted by the clause conversion: boolean
/// structure over literals, identifiers, applications and (in)equalities,
/// with no modality and no quantifier. Operands of an (in)equality are not
/// inspected.
pub open spec fn qf_v(v: TermV) -> bool
    decreases v,
{
    match v {
        TermV::Literal(_) => true,
        TermV::Id(_) => true,
        TermV::App(_, _) => true,
        TermV::UnaryOp(UOp::Not, t) => qf_v(*t),
        TermV::UnaryOp(_, _) => false,
        TermV::BinOp(BinOp::Equals, _, _) => true,
        TermV::BinOp(BinOp::NotEquals, _, _) => true,
        TermV::BinOp(_, lhs, rhs) => qf_v(*lhs) && qf_v(*rhs),
        TermV::NAryOp(_, vs) => qf_list(vs),
        TermV::Quantified { .. } => false,
    }
}

/// Every member of the sequence is in the accepted fragment.
pub open spec fn qf_list(vs: Seq<TermV>) -> bool
    decreases vs,
{
    if vs.len() == 0 {
        true
    } else {
        qf_v(vs[0]) && qf_list(vs.subrange(1, vs.len() as int))
    }
}

pub broadcast proof fn lemma_qf_list(vs: Seq<TermV>)
    ensures
        #[trigger] qf_list(vs) == (forall|i: int| 0 <= i < vs.len() ==> qf_v(#[trigger] vs[i])),
    decreases vs,
{
    if vs.len() > 0 {
        lemma_qf_list(vs.subrange(1, vs.len() as int));
        let rest = vs.subrange(1, vs.len() as int);
        if qf_list(vs) {
            assert forall|i: int| 0 <= i < vs.len() implies qf_v(#[trigger] vs[i]) by {
                if i > 0 {
                    assert(qf_v(rest[i - 1]));
                }
            }
        } else {
            if qf_v(vs[0]) {
                let j = choose|j: int| 0 <= j < rest.len() && !qf_v(rest[j]);
                assert(vs[j + 1] == rest[j]);
            }
        }
    }
}

/// Elementwise view of a sequence of term vectors.
pub open spec fn term_views2(vss: Seq<Vec<Term>>) -> Seq<Seq<TermV>>
    decreases vss,
{
    if vss.len() == 0 {
        Seq::<Seq<TermV>>::empty()
    } else {
        seq![term_views(vss[0]@)] + term_views2(vss.subrange(1, vss.len() as int))
    }
}

pub broadcast proof fn lemma_term_views2_len(vss: Seq<Vec<Term>>)
    ensures
        #[trigger] term_views2(vss).len() == vss.len(),
    decreases vss,
{
    if vss.len() > 0 {
        lemma_term_views2_len(vss.subrange(1, vss.len() as int));
    }
}

pub broadcast proof fn lemma_term_views2_index(vss: Seq<Vec<Term>>, i: int)
    requires
        0 <= i < vss.len(),
    ensures
        #[trigger] term_views2(vss)[i] == term_views(vss[i]@),
    decreases vss,
{
    lemma_term_views2_len(vss);
    if i > 0 {
        lemma_term_views2_index(vss.subrange(1, vss.len() as int), i - 1);
    }
}

pub broadcast group group_views2_lemmas {
    lemma_term_views2_len,
    lemma_term_views2_index,
}

/// Taking nested views commutes with subrange.
pub proof fn lemma_term_views2_subrange(vss: Seq<Vec<Term>>, a: int, b: int)
    requires
        0 <= a <= b <= vss.len(),
    ensures
        term_views2(vss.subrange(a, b)) == term_views2(vss).subrange(a, b),
{
    broadcast use group_views2_lemmas;

    assert forall|i: int| 0 <= i < b - a implies term_views2(vss.subrange(a, b))[i] == term_views2(
        vss,
    ).subrange(a, b)[i] by {
        lemma_term_views2_index(vss.subrange(a, b), i);
        lemma_term_views2_index(vss, a + i);
    }
    assert(term_views2(vss.subrange(a, b)) =~= term_views2(vss).subrange(a, b));
}

// ===========================================================================
// Cartesian product of clause sets
// ===========================================================================

/// Each row of `rows`, with `x` prepended.
pub open spec fn prepend_all(x: TermV, rows: Seq<Seq<TermV>>) -> Seq<Seq<TermV>> {
    rows.map_values(|row: Seq<TermV>| seq![x] + row)
}

/// All rows obtained by prepending one member of `firsts` to one row of
/// `rows`, grouped by the prepended member.
pub open spec fn cart_prepend(firsts: Seq<TermV>, rows: Seq<Seq<TermV>>) -> Seq<Seq<TermV>>
    decreases firsts,
{
    if firsts.len() == 0 {
        Seq::<Seq<TermV>>::empty()
    } else {
        prepend_all(firsts[0], rows) + cart_prepend(firsts.subrange(1, firsts.len() as int), rows)
    }
}

/// The cartesian product: every way of picking one member from each factor,
/// in order.
pub open spec fn cart_v(factors: Seq<Seq<TermV>>) -> Seq<Seq<TermV>>
    decreases factors,
{
    if factors.len() == 0 {
        seq![Seq::<TermV>::empty()]
    } else {
        cart_prepend(factors[0], cart_v(factors.subrange(1, factors.len() as int)))
    }
}

/// The product of the factors' lengths.
pub open spec fn lens_product(factors: Seq<Seq<TermV>>) -> nat
    decreases factors,
{
    if factors.len() == 0 {
        1
    } else {
        factors[0].len() * lens_product(factors.subrange(1, factors.len() as int))
    }
}

pub proof fn lemma_cart_prepend_len(firsts: Seq<TermV>, rows: Seq<Seq<TermV>>)
    ensures
        cart_prepend(firsts, rows).len() == firsts.len() * rows.len(),
    decreases firsts,
{
    if firsts.len() == 0 {
        assert(firsts.len() * rows.len() == 0) by (nonlinear_arith)
            requires firsts.len() == 0;
    } else {
        let rest = firsts.subrange(1, firsts.len() as int);
        lemma_cart_prepend_len(rest, rows);
        assert(rows.len() + (firsts.len() - 1) * rows.len() == firsts.len() * rows.len())
            by (nonlinear_arith)
            requires firsts.len() >= 1;
    }
}

/// The cartesian product of factors of sizes `n1, ..., nk` has exactly
/// `n1 * n2 * ... * nk` rows.
pub proof fn lemma_cart_len(factors: Seq<Seq<TermV>>)
    ensures
        cart_v(factors).len() == lens_product(factors),
    decreases factors,
{
    if factors.len() > 0 {
        let rest = factors.subrange(1, factors.len() as int);
        lemma_cart_len(rest);
        lemma_cart_prepend_len(factors[0], cart_v(rest));
    }
}

proof fn lemma_cart_prepend_contains(firsts: Seq<TermV>, rows: Seq<Seq<TermV>>, c: Seq<TermV>)
    requires
        cart_prepend(firsts, rows).contains(c),
    ensures
        exists|x: TermV, row: Seq<TermV>|
            firsts.contains(x) && rows.contains(row) && c == #[trigger] (seq![x] + row),
    decreases firsts,
{
    let k = choose|k: int| 0 <= k < cart_prepend(firsts, rows).len() && cart_prepend(firsts, rows)[k]
        == c;
    let head = prepend_all(firsts[0], rows);
    let rest = firsts.subrange(1, firsts.len() as int);
    if k < head.len() {
        assert(c == head[k]);
        assert(c == seq![firsts[0]] + rows[k]);
        assert(firsts.contains(firsts[0]));
        assert(rows.contains(rows[k]));
    } else {
        assert(cart_prepend(rest, rows)[k - head.len()] == c);
        assert(cart_prepend(rest, rows).contains(c));
        lemma_cart_prepend_contains(rest, rows, c);
        let (x, row) = choose|x: TermV, row: Seq<TermV>|
            rest.contains(x) && rows.contains(row) && c == #[trigger] (seq![x] + row);
        let j = choose|j: int| 0 <= j < rest.len() && rest[j] == x;
        assert(firsts[j + 1] == x);
        assert(firsts.contains(x));
    }
}

/// Every row of the cartesian product picks exactly one member from each
/// factor, in order.
pub proof fn lemma_cart_contains(factors: Seq<Seq<TermV>>, c: Seq<TermV>)
    requires
        cart_v(factors).contains(c),
    ensures
        c.len() == factors.len(),
        forall|i: int| 0 <= i < factors.len() ==> #[trigger] factors[i].contains(c[i]),
    decreases factors,
{
    if factors.len() == 0 {
        assert(cart_v(factors)[0] == c);
    } else {
        let rest = factors.subrange(1, factors.len() as int);
        lemma_cart_prepend_contains(factors[0], cart_v(rest), c);
        let (x, row) = choose|x: TermV, row: Seq<TermV>|
            factors[0].contains(x) && cart_v(rest).contains(row) && c == #[trigger] (seq![x] + row);
        lemma_cart_contains(rest, row);
        assert forall|i: int| 0 <= i < factors.len() implies #[trigger] factors[i].contains(
            c[i],
        ) by {
            if i == 0 {
                assert(c[0] == x);
            } else {
                assert(c[i] == row[i - 1]);
                assert(rest[i - 1].contains(row[i - 1]));
            }
        }
    }
}

pub proof fn lemma_cart_prepend_snoc(firsts: Seq<TermV>, x: TermV, rows: Seq<Seq<TermV>>)
    ensures
        cart_prepend(firsts.push(x), rows) == cart_prepend(firsts, rows) + prepend_all(x, rows),
    decreases firsts,
{
    let whole = firsts.push(x);
    if firsts.len() == 0 {
        assert(whole[0] == x);
        assert(whole.subrange(1, whole.len() as int) =~= Seq::<TermV>::empty());
        assert(cart_prepend(Seq::<TermV>::empty(), rows) =~= Seq::<Seq<TermV>>::empty());
        assert(cart_prepend(whole, rows) =~= prepend_all(x, rows));
        assert(cart_prepend(firsts, rows) + prepend_all(x, rows) =~= prepend_all(x, rows));
    } else {
        assert(whole.subrange(1, whole.len() as int) =~= firsts.subrange(
            1,
            firsts.len() as int,
        ).push(x));
        lemma_cart_prepend_snoc(firsts.subrange(1, firsts.len() as int), x, rows);
        assert(cart_prepend(whole, rows) =~= cart_prepend(firsts, rows) + prepend_all(x, rows));
    }
}

/// The cartesian product of a list of term vectors: one output row per way
/// of picking one member from each input vector.
pub fn cartesian_product(v: &Vec<Vec<Term>>) -> (r: Vec<Vec<Term>>)
    ensures
        term_views2(r@) == cart_v(term_views2(v@)),
{
    broadcast use group_views2_lemmas;

    let r = cartesian_product_from(v, 0);
    proof {
        assert(term_views2(v@).subrange(0, term_views2(v@).len() as int) =~= term_views2(v@));
    }
    r
}

fn cartesian_product_from(v: &Vec<Vec<Term>>, i: usize) -> (r: Vec<Vec<Term>>)
    requires
        i <= v@.len(),
    ensures
        term_views2(r@) == cart_v(term_views2(v@).subrange(i as int, term_views2(v@).len() as int)),
    decreases v@.len() - i,
{
    broadcast use {group_views2_lemmas, group_term_view_lemmas};

    let ghost whole = term_views2(v@);
    if i == v.len() {
        let mut r: Vec<Vec<Term>> = Vec::new();
        r.push(Vec::new());
        proof {
            assert(whole.subrange(i as int, whole.len() as int).len() == 0);
            assert(term_views(Seq::<Term>::empty()) =~= Seq::<TermV>::empty());
            assert(term_views2(r@) =~= seq![Seq::<TermV>::empty()]);
        }
        r
    } else {
        let rests = cartesian_product_from(v, i + 1);
        let firsts = &v[i];
        let ghost fv = term_views(firsts@);
        let ghost rv = term_views2(rests@);
        let mut out: Vec<Vec<Term>> = Vec::new();
        let mut j: usize = 0;
        while j < firsts.len()
            invariant
                j <= firsts@.len(),
                fv == term_views(firsts@),
                rv == term_views2(rests@),
                term_views2(out@) == cart_prepend(fv.subrange(0, j as int), rv),
            decreases firsts@.len() - j,
        {
            broadcast use {group_views2_lemmas, group_term_view_lemmas};

            let mut k: usize = 0;
            while k < rests.len()
                invariant
                    j < firsts@.len(),
                    k <= rests@.len(),
                    fv == term_views(firsts@),
                    rv == term_views2(rests@),
                    term_views2(out@) == cart_prepend(fv.subrange(0, j as int), rv) + prepend_all(
                        fv[j as int],
                        rv,
                    ).subrange(0, k as int),
                decreases rests@.len() - k,
            {
                broadcast use {group_views2_lemmas, group_term_view_lemmas};

                let mut row: Vec<Term> = Vec::new();
                row.push(clone_term(&firsts[j]));
                let mut tail = clone_terms(&rests[k]);
                row.append(&mut tail);
                let ghost prev = out@;
                out.push(row);
                proof {
                    assert(row@ =~= seq![row@[0]] + row@.subrange(1, row@.len() as int));
                    lemma_term_views_concat(seq![row@[0]], row@.subrange(1, row@.len() as int));
                    assert(term_views(seq![row@[0]]) =~= seq![term_view(row@[0])]);
                    assert(term_views(row@) == seq![fv[j as int]] + rv[k as int]);
                    assert(out@ =~= prev + seq![row]);
                    assert(term_views2(out@) =~= term_views2(prev) + seq![term_views(row@)]);
                    assert(prepend_all(fv[j as int], rv)[k as int] == seq![fv[j as int]] + rv[
                        k as int
                    ]);
                    assert(term_views2(out@) =~= cart_prepend(fv.subrange(0, j as int), rv)
                        + prepend_all(fv[j as int], rv).subrange(0, k + 1));
                }
                k = k + 1;
            }
            proof {
                assert(prepend_all(fv[j as int], rv).subrange(0, k as int) =~= prepend_all(
                    fv[j as int],
                    rv,
                ));
                lemma_cart_prepend_snoc(fv.subrange(0, j as int), fv[j as int], rv);
                assert(fv.subrange(0, j as int).push(fv[j as int]) =~= fv.subrange(0, j + 1));
                assert(term_views2(out@) == cart_prepend(fv.subrange(0, j + 1), rv));
            }
            j = j + 1;
        }
        proof {
            assert(fv.subrange(0, j as int) =~= fv);
            let sub = whole.subrange(i as int, whole.len() as int);
            assert(sub[0] == term_views(v@[i as int]@));
            assert(sub.subrange(1, sub.len() as int) =~= whole.subrange(
                i + 1,
                whole.len() as int,
            ));
            assert(cart_v(sub) == cart_prepend(fv, cart_v(whole.subrange(i + 1, whole.len() as int))));
        }
        out
    }
}

// ===========================================================================
// Bodies to clauses
// ===========================================================================

/// Each row wrapped into a disjunction.
pub open spec fn orcart_v(rows: Seq<Seq<TermV>>) -> Seq<TermV> {
    rows.map_values(|row: Seq<TermV>| TermV::NAryOp(NOp::Or, row))
}

/// The clauses of a quantifier-free term, with `neg` recording whether the
/// term occurs under a negation still to be applied. Negation is pushed
/// inward by De Morgan duals until it reaches atomic terms; an implication
/// contributes the clauses of `!lhs | rhs`, a bi-implication those of the
/// two-sided conjunction of implications; a disjunction distributes over its
/// members' clauses by cartesian product.
pub open spec fn btc_v(v: TermV, neg: bool) -> Seq<TermV>
    decreases v,
{
    match v {
        TermV::Literal(b) => seq![TermV::Literal(if neg { !b } else { b })],
        TermV::Id(_) => if neg {
            seq![negate_v(v)]
        } else {
            seq![v]
        },
        TermV::App(_, _) => if neg {
            seq![negate_v(v)]
        } else {
            seq![v]
        },
        TermV::UnaryOp(UOp::Not, t) => btc_v(*t, !neg),
        TermV::BinOp(BinOp::Equals, lhs, rhs) => if neg {
            seq![TermV::BinOp(BinOp::NotEquals, lhs, rhs)]
        } else {
            seq![v]
        },
        TermV::BinOp(BinOp::NotEquals, lhs, rhs) => if neg {
            seq![TermV::BinOp(BinOp::Equals, lhs, rhs)]
        } else {
            seq![v]
        },
        TermV::BinOp(BinOp::Implies, lhs, rhs) => if neg {
            btc_v(*lhs, false) + btc_v(*rhs, true)
        } else {
            orcart_v(cart_v(seq![btc_v(*lhs, true), btc_v(*rhs, false)]))
        },
        TermV::BinOp(BinOp::Iff, lhs, rhs) => if neg {
            orcart_v(
                cart_v(
                    seq![
                        btc_v(*lhs, false) + btc_v(*rhs, true),
                        btc_v(*rhs, false) + btc_v(*lhs, true),
                    ],
                ),
            )
        } else {
            orcart_v(cart_v(seq![btc_v(*lhs, true), btc_v(*rhs, false)])) + orcart_v(
                cart_v(seq![btc_v(*rhs, true), btc_v(*lhs, false)]),
            )
        },
        TermV::NAryOp(NOp::And, vs) => if neg {
            orcart_v(cart_v(btc_list_v(vs, true)))
        } else {
            btc_concat_v(vs, false)
        },
        TermV::NAryOp(NOp::Or, vs) => if neg {
            btc_concat_v(vs, true)
        } else {
            orcart_v(cart_v(btc_list_v(vs, false)))
        },
        _ => Seq::<TermV>::empty(),
    }
}

/// The clause lists of each member, kept separate.
pub open spec fn btc_list_v(vs: Seq<TermV>, neg: bool) -> Seq<Seq<TermV>>
    decreases vs,
{
    if vs.len() == 0 {
        Seq::<Seq<TermV>>::empty()
    } else {
        seq![btc_v(vs[0], neg)] + btc_list_v(vs.subrange(1, vs.len() as int), neg)
    }
}

/// The clause lists of each member, concatenated.
pub open spec fn btc_concat_v(vs: Seq<TermV>, neg: bool) -> Seq<TermV>
    decreases vs,
{
    if vs.len() == 0 {
        Seq::<TermV>::empty()
    } else {
        btc_v(vs[0], neg) + btc_concat_v(vs.subrange(1, vs.len() as int), neg)
    }
}

pub broadcast proof fn lemma_btc_list_len(vs: Seq<TermV>, neg: bool)
    ensures
        #[trigger] btc_list_v(vs, neg).len() == vs.len(),
    decreases vs,
{
    if vs.len() > 0 {
        lemma_btc_list_len(vs.subrange(1, vs.len() as int), neg);
    }
}

pub broadcast proof fn lemma_btc_list_index(vs: Seq<TermV>, neg: bool, i: int)
    requires
        0 <= i < vs.len(),
    ensures
        #[trigger] btc_list_v(vs, neg)[i] == btc_v(vs[i], neg),
    decreases vs,
{
    lemma_btc_list_len(vs, neg);
    if i > 0 {
        lemma_btc_list_index(vs.subrange(1, vs.len() as int), neg, i - 1);
    }
}

/// Convert a quantifier-free term to a list of clauses.
pub fn body_to_clauses(t: &Term, is_negated: bool) -> (r: Vec<Term>)
    requires
        qf_v(t@),
    ensures
        term_views(r@) == btc_v(t@, is_negated),
    decreases *t, 1int,
{
    broadcast use {group_term_view_lemmas, group_views2_lemmas};

    match t {
        Term::Literal(b) => {
            let lit = Term::Literal(if is_negated { !*b } else { *b });
            let mut r: Vec<Term> = Vec::new();
            r.push(lit);
            proof {
                assert(term_views(r@) =~= btc_v(t@, is_negated));
            }
            r
        },
        Term::Id(_) => {
            let c = clone_term(t);
            let one = if is_negated { negate(c) } else { c };
            let mut r: Vec<Term> = Vec::new();
            r.push(one);
            proof {
                assert(term_views(r@) =~= btc_v(t@, is_negated));
            }
            r
        },
        Term::App(_, _) => {
            let c = clone_term(t);
            let one = if is_negated { negate(c) } else { c };
            let mut r: Vec<Term> = Vec::new();
            r.push(one);
            proof {
                assert(term_views(r@) =~= btc_v(t@, is_negated));
            }
            r
        },
        Term::UnaryOp(UOp::Not, t1) => body_to_clauses(t1, !is_negated),
        Term::BinOp(BinOp::Equals, lhs, rhs) => {
            let op = if is_negated { BinOp::NotEquals } else { BinOp::Equals };
            let one = Term::BinOp(op, Box::new(clone_term(lhs)), Box::new(clone_term(rhs)));
            let mut r: Vec<Term> = Vec::new();
            r.push(one);
            proof {
                assert(term_views(r@) =~= btc_v(t@, is_negated));
            }
            r
        },
        Term::BinOp(BinOp::NotEquals, lhs, rhs) => {
            let op = if is_negated { BinOp::Equals } else { BinOp::NotEquals };
            let one = Term::BinOp(op, Box::new(clone_term(lhs)), Box::new(clone_term(rhs)));
            let mut r: Vec<Term> = Vec::new();
            r.push(one);
            proof {
                assert(term_views(r@) =~= btc_v(t@, is_negated));
            }
            r
        },
        Term::BinOp(BinOp::Implies, lhs, rhs) => {
            if is_negated {
                let mut a = body_to_clauses(lhs, false);
                let mut b = body_to_clauses(rhs, true);
                let ghost av = a@;
                let ghost bv = b@;
                a.append(&mut b);
                proof {
                    let lv = (**lhs)@;
                    let rv = (**rhs)@;
                    assert(t@ == TermV::BinOp(BinOp::Implies, Box::new(lv), Box::new(rv)));
                    lemma_term_views_concat(av, bv);
                    assert(term_views(a@) == btc_v(t@, is_negated));
                }
                a
            } else {
                let mut subs: Vec<Vec<Term>> = Vec::new();
                subs.push(body_to_clauses(lhs, true));
                subs.push(body_to_clauses(rhs, false));
                let r = or_of_product(subs);
                proof {
                    let lv = (**lhs)@;
                    let rv = (**rhs)@;
                    assert(t@ == TermV::BinOp(BinOp::Implies, Box::new(lv), Box::new(rv)));
                    assert(term_views2(subs@) =~= seq![btc_v(lv, true), btc_v(rv, false)]);
                    assert(term_views(r@) == btc_v(t@, is_negated));
                }
                r
            }
        },
        Term::BinOp(BinOp::Iff, lhs, rhs) => {
            if is_negated {
                let mut first = body_to_clauses(lhs, false);
                let mut first_b = body_to_clauses(rhs, true);
                let ghost fv = first@;
                let ghost fbv = first_b@;
                first.append(&mut first_b);
                proof {
                    lemma_term_views_concat(fv, fbv);
                }
                let mut second = body_to_clauses(rhs, false);
                let mut second_b = body_to_clauses(lhs, true);
                let ghost sv = second@;
                let ghost sbv = second_b@;
                second.append(&mut second_b);
                proof {
                    lemma_term_views_concat(sv, sbv);
                }
                let ghost fw = term_views(first@);
                let ghost sw = term_views(second@);
                let mut subs: Vec<Vec<Term>> = Vec::new();
                subs.push(first);
                subs.push(second);
                let r = or_of_product(subs);
                proof {
                    let lv = (**lhs)@;
                    let rv = (**rhs)@;
                    assert(t@ == TermV::BinOp(BinOp::Iff, Box::new(lv), Box::new(rv)));
                    assert(term_views2(subs@) =~= seq![fw, sw]);
                    assert(term_views(r@) == btc_v(t@, is_negated));
                }
                r
            } else {
                let mut subs1: Vec<Vec<Term>> = Vec::new();
                subs1.push(body_to_clauses(lhs, true));
                subs1.push(body_to_clauses(rhs, false));
                let mut a = or_of_product(subs1);
                let mut subs2: Vec<Vec<Term>> = Vec::new();
                subs2.push(body_to_clauses(rhs, true));
                subs2.push(body_to_clauses(lhs, false));
                let mut b = or_of_product(subs2);
                let ghost av = a@;
                let ghost bv = b@;
                a.append(&mut b);
                proof {
                    let lv = (**lhs)@;
                    let rv = (**rhs)@;
                    assert(t@ == TermV::BinOp(BinOp::Iff, Box::new(lv), Box::new(rv)));
                    assert(term_views2(subs1@) =~= seq![btc_v(lv, true), btc_v(rv, false)]);
                    assert(term_views2(subs2@) =~= seq![btc_v(rv, true), btc_v(lv, false)]);
                    lemma_term_views_concat(av, bv);
                    assert(term_views(a@) == btc_v(t@, is_negated));
                }
                a
            }
        },
        Term::NAryOp(NOp::And, ts) => {
            proof {
                broadcast use lemma_qf_list;
            }
            if is_negated {
                let subs = btc_each(ts, true);
                let r = or_of_product(subs);
                proof {
                    assert(term_views(r@) =~= btc_v(t@, is_negated));
                }
                r
            } else {
                let mut out: Vec<Term> = Vec::new();
                btc_concat_onto(ts, 0, false, &mut out);
                proof {
                    assert(term_views(ts@).subrange(0, term_views(ts@).len() as int) =~= term_views(
                        ts@,
                    ));
                    assert(term_views(out@) =~= btc_v(t@, is_negated));
                }
                out
            }
        },
        Term::NAryOp(NOp::Or, ts) => {
            proof {
                broadcast use lemma_qf_list;
            }
            if is_negated {
                let mut out: Vec<Term> = Vec::new();
                btc_concat_onto(ts, 0, true, &mut out);
                proof {
                    assert(term_views(ts@).subrange(0, term_views(ts@).len() as int) =~= term_views(
                        ts@,
                    ));
                    assert(term_views(out@) =~= btc_v(t@, is_negated));
                }
                out
            } else {
                let subs = btc_each(ts, false);
                let r = or_of_product(subs);
                proof {
                    assert(term_views(r@) =~= btc_v(t@, is_negated));
                }
                r
            }
        },
        _ => {
            proof {
                assert(false);
            }
            Vec::new()
        },
    }
}

/// The clause lists of each member of a conjunction or disjunction, kept
/// separate as factors for the cartesian product.
fn btc_each(ts: &Vec<Term>, neg: bool) -> (r: Vec<Vec<Term>>)
    requires
        qf_list(term_views(ts@)),
    ensures
        term_views2(r@) == btc_list_v(term_views(ts@), neg),
    decreases *ts, ts@.len() + 1,
{
    let mut out: Vec<Vec<Term>> = Vec::new();
    btc_each_onto(ts, 0, neg, &mut out);
    proof {
        broadcast use group_term_view_lemmas;

        assert(term_views(ts@).subrange(0, term_views(ts@).len() as int) =~= term_views(ts@));
        assert(term_views2(out@) =~= btc_list_v(term_views(ts@), neg));
    }
    out
}

fn btc_each_onto(ts: &Vec<Term>, i: usize, neg: bool, out: &mut Vec<Vec<Term>>)
    requires
        i <= ts@.len(),
        qf_list(term_views(ts@)),
    ensures
        term_views2(final(out)@) == term_views2(old(out)@) + btc_list_v(
            term_views(ts@).subrange(i as int, term_views(ts@).len() as int),
            neg,
        ),
    decreases *ts, ts@.len() - i,
{
    broadcast use {group_term_view_lemmas, group_views2_lemmas, lemma_qf_list};

    let ghost whole = term_views(ts@);
    if i < ts.len() {
        let ghost prev = out@;
        proof {
            crate::syntax::lemma_term_views_index(ts@, i as int);
            assert(qf_v(term_views(ts@)[i as int]));
        }
        let c = body_to_clauses(&ts[i], neg);
        out.push(c);
        btc_each_onto(ts, i + 1, neg, out);
        proof {
            let rest = whole.subrange(i as int, whole.len() as int);
            assert(rest[0] == term_view(ts@[i as int]));
            assert(rest.subrange(1, rest.len() as int) =~= whole.subrange(
                i + 1,
                whole.len() as int,
            ));
            assert(term_views2(prev.push(c)) =~= term_views2(prev) + seq![term_views(c@)]);
            assert(term_views2(out@) =~= term_views2(prev) + btc_list_v(rest, neg));
        }
    } else {
        proof {
            assert(whole.subrange(i as int, whole.len() as int).len() == 0);
            assert(term_views2(out@) =~= term_views2(old(out)@) + btc_list_v(
                whole.subrange(i as int, whole.len() as int),
                neg,
            ));
        }
    }
}

fn btc_concat_onto(ts: &Vec<Term>, i: usize, neg: bool, out: &mut Vec<Term>)
    requires
        i <= ts@.len(),
        qf_list(term_views(ts@)),
    ensures
        term_views(final(out)@) == term_views(old(out)@) + btc_concat_v(
            term_views(ts@).subrange(i as int, term_views(ts@).len() as int),
            neg,
        ),
    decreases *ts, ts@.len() - i,
{
    broadcast use {group_term_view_lemmas, lemma_qf_list};

    let ghost whole = term_views(ts@);
    if i < ts.len() {
        let ghost prev = out@;
        proof {
            crate::syntax::lemma_term_views_index(ts@, i as int);
            assert(qf_v(term_views(ts@)[i as int]));
        }
        let mut c = body_to_clauses(&ts[i], neg);
        let ghost cv = c@;
        out.append(&mut c);
        btc_concat_onto(ts, i + 1, neg, out);
        proof {
            let rest = whole.subrange(i as int, whole.len() as int);
            assert(rest[0] == term_view(ts@[i as int]));
            assert(rest.subrange(1, rest.len() as int) =~= whole.subrange(
                i + 1,
                whole.len() as int,
            ));
            lemma_term_views_concat(prev, cv);
            assert(term_views(out@) =~= term_views(prev) + btc_concat_v(rest, neg));
        }
    } else {
        proof {
            assert(whole.subrange(i as int, whole.len() as int).len() == 0);
            assert(term_views(out@) =~= term_views(old(out)@) + btc_concat_v(
                whole.subrange(i as int, whole.len() as int),
                neg,
            ));
        }
    }
}

/// The disjunctions formed from the cartesian product of the given clause
/// lists: one `Or` per way of picking one clause from each list.
fn or_of_product(subs: Vec<Vec<Term>>) -> (r: Vec<Term>)
    ensures
        term_views(r@) == orcart_v(cart_v(term_views2(subs@))),
{
    broadcast use {group_term_view_lemmas, group_views2_lemmas};

    let mut prod = cartesian_product(&subs);
    let ghost rows = term_views2(prod@);
    let mut out: Vec<Term> = Vec::new();
    while prod.len() > 0
        invariant
            out@.len() + prod@.len() == rows.len(),
            term_views2(prod@) == rows.subrange(out@.len() as int, rows.len() as int),
            term_views(out@) == orcart_v(rows).subrange(0, out@.len() as int),
        decreases prod@.len(),
    {
        broadcast use {group_term_view_lemmas, group_views2_lemmas};

        let ghost prev_prod = prod@;
        let ghost prev_out = out@;
        let row = prod.remove(0);
        out.push(Term::NAryOp(NOp::Or, row));
        proof {
            let k = prev_out.len() as int;
            assert(term_views(row@) == term_views2(prev_prod)[0]);
            assert(term_views2(prev_prod)[0] == rows[k]);
            assert(prod@ =~= prev_prod.subrange(1, prev_prod.len() as int));
            lemma_term_views2_subrange(prev_prod, 1, prev_prod.len() as int);
            assert(rows.subrange(k, rows.len() as int).subrange(
                1,
                rows.len() - k,
            ) =~= rows.subrange(k + 1, rows.len() as int));
            assert(term_views2(prod@) =~= rows.subrange(k + 1, rows.len() as int));
            assert(orcart_v(rows)[k] == TermV::NAryOp(NOp::Or, rows[k]));
            assert(term_views(prev_out.push(Term::NAryOp(NOp::Or, row))) =~= term_views(prev_out)
                + seq![TermV::NAryOp(NOp::Or, term_views(row@))]);
            assert(term_views(out@) =~= orcart_v(rows).subrange(0, k + 1));
        }
    }
    proof {
        assert(orcart_v(rows).subrange(0, out@.len() as int) =~= orcart_v(rows));
    }
    out
}

// ===========================================================================
// Terms to clauses
// ===========================================================================

/// The clauses of a term: a universally quantified term contributes one
/// quantified clause per clause of its body; any other term contributes its
/// own clauses.
pub open spec fn ttc_v(v: TermV) -> Seq<TermV> {
    match v {
        TermV::Quantified { quantifier: Quantifier::Forall, binders, body } => btc_v(
            *body,
            false,
        ).map_values(
            |c: TermV| TermV::Quantified {
                quantifier: Quantifier::Forall,
                binders: binders,
                body: Box::new(c),
            },
        ),
        _ => btc_v(v, false),
    }
}

/// The fragment accepted by [`term_to_cnf_clauses`]: a universally
/// quantified term with a quantifier-free body, or a quantifier-free term.
pub open spec fn splittable_v(v: TermV) -> bool {
    match v {
        TermV::Quantified { quantifier: Quantifier::Forall, body, .. } => qf_v(*body),
        _ => qf_v(v),
    }
}

/// Convert a term to separate clauses, pushing a top-level universal
/// quantifier onto each clause individually.
pub fn term_to_cnf_clauses(t: &Term) -> (r: Vec<Term>)
    requires
        splittable_v(t@),
    ensures
        term_views(r@) == ttc_v(t@),
{
    broadcast use group_term_view_lemmas;

    match t {
        Term::Quantified { quantifier: Quantifier::Forall, binders, body } => {
            let mut clauses = body_to_clauses(body, false);
            let ghost cvs = term_views(clauses@);
            let ghost bv = binder_views(binders@);
            let ghost target = ttc_v(t@);
            let mut out: Vec<Term> = Vec::new();
            while clauses.len() > 0
                invariant
                    out@.len() + clauses@.len() == cvs.len(),
                    term_views(clauses@) == cvs.subrange(out@.len() as int, cvs.len() as int),
                    term_views(out@) == target.subrange(0, out@.len() as int),
                    bv == binder_views(binders@),
                    target == cvs.map_values(
                        |c: TermV| TermV::Quantified {
                            quantifier: Quantifier::Forall,
                            binders: bv,
                            body: Box::new(c),
                        },
                    ),
                decreases clauses@.len(),
            {
                broadcast use group_term_view_lemmas;

                let ghost prev_clauses = clauses@;
                let ghost prev_out = out@;
                let c = clauses.remove(0);
                let wrapped = Term::Quantified {
                    quantifier: Quantifier::Forall,
                    binders: clone_binders(binders),
                    body: Box::new(c),
                };
                out.push(wrapped);
                proof {
                    let k = prev_out.len() as int;
                    assert(term_views(prev_clauses)[0] == cvs[k]);
                    assert(clauses@ =~= prev_clauses.subrange(1, prev_clauses.len() as int));
                    crate::syntax::lemma_term_views_subrange(
                        prev_clauses,
                        1,
                        prev_clauses.len() as int,
                    );
                    assert(cvs.subrange(k, cvs.len() as int).subrange(
                        1,
                        cvs.len() - k,
                    ) =~= cvs.subrange(k + 1, cvs.len() as int));
                    assert(term_views(clauses@) =~= cvs.subrange(k + 1, cvs.len() as int));
                    assert(wrapped@ == target[k]);
                    assert(term_views(prev_out.push(wrapped)) =~= term_views(prev_out) + seq![
                        wrapped@,
                    ]);
                    assert(term_views(out@) =~= target.subrange(0, k + 1));
                }
            }
            proof {
                assert(target.subrange(0, out@.len() as int) =~= target);
            }
            out
        },
        _ => body_to_clauses(t, false),
    }
}

// ===========================================================================
// Laws
// ===========================================================================

/// Negation involution: the clauses of a doubly negated quantifier-free term
/// are exactly the clauses of the term itself.
pub proof fn lemma_negation_involution(v: TermV)
    requires
        qf_v(v),
    ensures
        btc_v(negate_v(negate_v(v)), false) == btc_v(v, false),
{
    assert(btc_v(negate_v(negate_v(v)), false) == btc_v(negate_v(v), true));
    assert(btc_v(negate_v(v), true) == btc_v(v, false));
}

/// Disjunction distribution: for a disjunction, the clause output has
/// exactly `n1 * n2 * ... * nk` clauses, where `ni` is the number of clauses
/// of the `i`-th disjunct, and each output clause is a disjunction picking
/// one clause from each disjunct.
pub proof fn lemma_disjunction_distribution(vs: Seq<TermV>)
    ensures
        btc_v(TermV::NAryOp(NOp::Or, vs), false).len() == lens_product(btc_list_v(vs, false)),
        forall|k: int|
            0 <= k < btc_v(TermV::NAryOp(NOp::Or, vs), false).len() ==> (#[trigger] btc_v(
                TermV::NAryOp(NOp::Or, vs),
                false,
            )[k] matches TermV::NAryOp(NOp::Or, row) && row.len() == vs.len() && (forall|i: int|
                0 <= i < vs.len() ==> #[trigger] btc_v(vs[i], false).contains(row[i]))),
{
    broadcast use {lemma_btc_list_len, lemma_btc_list_index};

    let factors = btc_list_v(vs, false);
    let rows = cart_v(factors);
    lemma_cart_len(factors);
    assert forall|k: int| 0 <= k < btc_v(TermV::NAryOp(NOp::Or, vs), false).len() implies (
    #[trigger] btc_v(TermV::NAryOp(NOp::Or, vs), false)[k] matches TermV::NAryOp(NOp::Or, row)
        && row.len() == vs.len() && (forall|i: int|
        0 <= i < vs.len() ==> #[trigger] btc_v(vs[i], false).contains(row[i]))) by {
        assert(btc_v(TermV::NAryOp(NOp::Or, vs), false)[k] == TermV::NAryOp(NOp::Or, rows[k]));
        assert(rows.contains(rows[k]));
        lemma_cart_contains(factors, rows[k]);
        assert forall|i: int| 0 <= i < vs.len() implies #[trigger] btc_v(vs[i], false).contains(
            rows[k][i],
        ) by {
            assert(factors[i].contains(rows[k][i]));
        }
    }
}

/// Every clause the conversion produces is itself no conjunction: the
/// output is always a flat list of clauses.
pub proof fn lemma_btc_clauses(v: TermV, neg: bool)
    ensures
        forall|i: int| 0 <= i < btc_v(v, neg).len() ==> not_and_v(#[trigger] btc_v(v, neg)[i]),
    decreases v,
{
    let out = btc_v(v, neg);
    match v {
        TermV::UnaryOp(UOp::Not, t) => {
            lemma_btc_clauses(*t, !neg);
            assert(out == btc_v(*t, !neg));
        },
        TermV::BinOp(BinOp::Implies, lhs, rhs) => {
            if neg {
                lemma_btc_clauses(*lhs, false);
                lemma_btc_clauses(*rhs, true);
                lemma_concat_not_and(btc_v(*lhs, false), btc_v(*rhs, true));
                assert(out == btc_v(*lhs, false) + btc_v(*rhs, true));
            } else {
                lemma_orcart_not_and(cart_v(seq![btc_v(*lhs, true), btc_v(*rhs, false)]));
                assert(out == orcart_v(cart_v(seq![btc_v(*lhs, true), btc_v(*rhs, false)])));
            }
        },
        TermV::BinOp(BinOp::Iff, lhs, rhs) => {
            if neg {
                let rows = cart_v(
                    seq![
                        btc_v(*lhs, false) + btc_v(*rhs, true),
                        btc_v(*rhs, false) + btc_v(*lhs, true),
                    ],
                );
                lemma_orcart_not_and(rows);
                assert(out == orcart_v(rows));
            } else {
                let a = orcart_v(cart_v(seq![btc_v(*lhs, true), btc_v(*rhs, false)]));
                let b = orcart_v(cart_v(seq![btc_v(*rhs, true), btc_v(*lhs, false)]));
                lemma_orcart_not_and(cart_v(seq![btc_v(*lhs, true), btc_v(*rhs, false)]));
                lemma_orcart_not_and(cart_v(seq![btc_v(*rhs, true), btc_v(*lhs, false)]));
                lemma_concat_not_and(a, b);
                assert(out == a + b);
            }
        },
        TermV::NAryOp(NOp::And, vs) => {
            if neg {
                lemma_orcart_not_and(cart_v(btc_list_v(vs, true)));
                assert(out == orcart_v(cart_v(btc_list_v(vs, true))));
            } else {
                lemma_btc_concat_clauses(vs, false);
                assert(out == btc_concat_v(vs, false));
            }
        },
        TermV::NAryOp(NOp::Or, vs) => {
            if neg {
                lemma_btc_concat_clauses(vs, true);
                assert(out == btc_concat_v(vs, true));
            } else {
                lemma_orcart_not_and(cart_v(btc_list_v(vs, false)));
                assert(out == orcart_v(cart_v(btc_list_v(vs, false))));
            }
        },
        TermV::Literal(b) => {
            assert(out =~= seq![TermV::Literal(if neg { !b } else { b })]);
            assert(not_and_v(out[0]));
        },
        TermV::Id(_) => {
            assert(out.len() == 1 && not_and_v(out[0]));
        },
        TermV::App(_, _) => {
            assert(out.len() == 1 && not_and_v(out[0]));
        },
        TermV::BinOp(_, _, _) => {
            assert(out.len() == 1 && not_and_v(out[0]));
        },
        _ => {
            assert(out.len() == 0);
        },
    }
}

proof fn lemma_orcart_not_and(rows: Seq<Seq<TermV>>)
    ensures
        forall|i: int| 0 <= i < orcart_v(rows).len() ==> not_and_v(#[trigger] orcart_v(rows)[i]),
{
    assert forall|i: int| 0 <= i < orcart_v(rows).len() implies not_and_v(
        #[trigger] orcart_v(rows)[i],
    ) by {
        assert(orcart_v(rows)[i] == TermV::NAryOp(NOp::Or, rows[i]));
    }
}

proof fn lemma_btc_concat_clauses(vs: Seq<TermV>, neg: bool)
    ensures
        forall|i: int|
            0 <= i < btc_concat_v(vs, neg).len() ==> not_and_v(#[trigger] btc_concat_v(vs, neg)[i]),
    decreases vs,
{
    if vs.len() > 0 {
        lemma_btc_clauses(vs[0], neg);
        lemma_btc_concat_clauses(vs.subrange(1, vs.len() as int), neg);
        lemma_concat_not_and(btc_v(vs[0], neg), btc_concat_v(vs.subrange(1, vs.len() as int), neg));
    }
}

proof fn lemma_concat_not_and(a: Seq<TermV>, b: Seq<TermV>)
    requires
        forall|i: int| 0 <= i < a.len() ==> not_and_v(#[trigger] a[i]),
        forall|i: int| 0 <= i < b.len() ==> not_and_v(#[trigger] b[i]),
    ensures
        forall|i: int| 0 <= i < (a + b).len() ==> not_and_v(#[trigger] (a + b)[i]),
{
    assert forall|i: int| 0 <= i < (a + b).len() implies not_and_v(#[trigger] (a + b)[i]) by {
        if i < a.len() {
            assert((a + b)[i] == a[i]);
        } else {
            assert((a + b)[i] == b[i - a.len()]);
        }
    }
}

/// Normalizing a term already in canonical shape is the identity.
pub proof fn lemma_cnf_canonical_noop(v: TermV)
    requires
        cnf_wf_v(v),
    ensures
        cnf_of(v) == v,
{
    match v {
        TermV::NAryOp(NOp::And, vs) => {
            lemma_conjuncts_list_flat(vs);
        },
        TermV::UnaryOp(UOp::Always, body) => {
            assert(get_always_v(*body) is None);
        },
        _ => {},
    }
}

} // verus!
