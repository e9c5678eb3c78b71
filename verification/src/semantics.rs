//! Finite first-order structures and the logical vocabulary.
//!
//! A [`Signature`] fixes the sorts and relations a transition system speaks
//! of; a [`Model`] is a finite structure over such a signature: one
//! cardinality per sort and one [`Interpretation`] (a finite table) per
//! relation. A trace decoded from a solver reply is a sequence of such
//! models, one per transition-system state.

use vstd::prelude::*;

use crate::syntax::clone_sort;
use crate::syntax::{Sort, SortV};

verus! {

/// A relation declaration: name, argument sorts, result sort, and whether
/// the relation may change from state to state.
#[derive(PartialEq, Eq, Debug)]
pub struct RelationDecl {
    pub mutable: bool,
    pub name: String,
    pub args: Vec<Sort>,
    pub typ: Sort,
}

/// Mathematical view of a relation declaration.
#[verifier::ext_equal]
pub struct RelationDeclV {
    pub mutable: bool,
    pub name: Seq<char>,
    pub args: Seq<SortV>,
    pub typ: SortV,
}

/// The logical vocabulary: sorts and relations.
#[derive(PartialEq, Eq, Debug)]
pub struct Signature {
    pub sorts: Vec<Sort>,
    pub relations: Vec<RelationDecl>,
}

/// Mathematical view of a signature.
#[verifier::ext_equal]
pub struct SignatureV {
    pub sorts: Seq<SortV>,
    pub relations: Seq<RelationDeclV>,
}

/// The interpretation of one relation symbol: a table of values indexed by
/// argument tuples over the finite universe.
#[derive(Clone, PartialEq, Eq, Debug)]
pub struct Interpretation {
    pub shape: Vec<usize>,
    pub data: Vec<usize>,
}

/// Mathematical view of an interpretation.
#[verifier::ext_equal]
pub struct InterpretationV {
    pub shape: Seq<usize>,
    pub data: Seq<usize>,
}

/// A finite first-order structure: a universe cardinality per sort of the
/// signature and an interpretation per relation.
#[derive(PartialEq, Eq, Debug)]
pub struct Model {
    pub signature: Signature,
    pub universe: Vec<usize>,
    pub interp: Vec<Interpretation>,
}

/// Mathematical view of a model.
#[verifier::ext_equal]
pub struct ModelV {
    pub signature: SignatureV,
    pub universe: Seq<usize>,
    pub interp: Seq<InterpretationV>,
}

/// Elementwise view of a sequence of sorts.
pub open spec fn sort_views(ss: Seq<Sort>) -> Seq<SortV>
    decreases ss,
{
    if ss.len() == 0 {
        Seq::<SortV>::empty()
    } else {
        seq![ss[0]@] + sort_views(ss.subrange(1, ss.len() as int))
    }
}

pub broadcast proof fn lemma_sort_views_len(ss: Seq<Sort>)
    ensures
        #[trigger] sort_views(ss).len() == ss.len(),
    decreases ss,
{
    if ss.len() > 0 {
        lemma_sort_views_len(ss.subrange(1, ss.len() as int));
    }
}

pub broadcast proof fn lemma_sort_views_index(ss: Seq<Sort>, i: int)
    requires
        0 <= i < ss.len(),
    ensures
        #[trigger] sort_views(ss)[i] == ss[i]@,
    decreases ss,
{
    lemma_sort_views_len(ss);
    if i > 0 {
        lemma_sort_views_index(ss.subrange(1, ss.len() as int), i - 1);
    }
}

impl View for RelationDecl {
    type V = RelationDeclV;

    open spec fn view(&self) -> RelationDeclV {
        RelationDeclV {
            mutable: self.mutable,
            name: self.name@,
            args: sort_views(self.args@),
            typ: self.typ@,
        }
    }
}

/// Elementwise view of a sequence of relation declarations.
pub open spec fn relation_views(rs: Seq<RelationDecl>) -> Seq<RelationDeclV>
    decreases rs,
{
    if rs.len() == 0 {
        Seq::<RelationDeclV>::empty()
    } else {
        seq![rs[0]@] + relation_views(rs.subrange(1, rs.len() as int))
    }
}

pub broadcast proof fn lemma_relation_views_len(rs: Seq<RelationDecl>)
    ensures
        #[trigger] relation_views(rs).len() == rs.len(),
    decreases rs,
{
    if rs.len() > 0 {
        lemma_relation_views_len(rs.subrange(1, rs.len() as int));
    }
}

pub broadcast proof fn lemma_relation_views_index(rs: Seq<RelationDecl>, i: int)
    requires
        0 <= i < rs.len(),
    ensures
        #[trigger] relation_views(rs)[i] == rs[i]@,
    decreases rs,
{
    lemma_relation_views_len(rs);
    if i > 0 {
        lemma_relation_views_index(rs.subrange(1, rs.len() as int), i - 1);
    }
}

impl View for Signature {
    type V = SignatureV;

    open spec fn view(&self) -> SignatureV {
        SignatureV { sorts: sort_views(self.sorts@), relations: relation_views(self.relations@) }
    }
}

impl View for Interpretation {
    type V = InterpretationV;

    open spec fn view(&self) -> InterpretationV {
        InterpretationV { shape: self.shape@, data: self.data@ }
    }
}

/// Elementwise view of a sequence of interpretations.
pub open spec fn interp_views(is: Seq<Interpretation>) -> Seq<InterpretationV>
    decreases is,
{
    if is.len() == 0 {
        Seq::<InterpretationV>::empty()
    } else {
        seq![is[0]@] + interp_views(is.subrange(1, is.len() as int))
    }
}

pub broadcast proof fn lemma_interp_views_len(is: Seq<Interpretation>)
    ensures
        #[trigger] interp_views(is).len() == is.len(),
    decreases is,
{
    if is.len() > 0 {
        lemma_interp_views_len(is.subrange(1, is.len() as int));
    }
}

pub broadcast proof fn lemma_interp_views_index(is: Seq<Interpretation>, i: int)
    requires
        0 <= i < is.len(),
    ensures
        #[trigger] interp_views(is)[i] == is[i]@,
    decreases is,
{
    lemma_interp_views_len(is);
    if i > 0 {
        lemma_interp_views_index(is.subrange(1, is.len() as int), i - 1);
    }
}

impl View for Model {
    type V = ModelV;

    open spec fn view(&self) -> ModelV {
        ModelV {
            signature: self.signature@,
            universe: self.universe@,
            interp: interp_views(self.interp@),
        }
    }
}

pub broadcast group group_semantics_view_lemmas {
    lemma_sort_views_len,
    lemma_sort_views_index,
    lemma_relation_views_len,
    lemma_relation_views_index,
    lemma_interp_views_len,
    lemma_interp_views_index,
}

/// Copy of a vector of plain values.
pub fn copy_usizes(v: &Vec<usize>) -> (r: Vec<usize>)
    ensures
        r@ == v@,
{
    let mut out: Vec<usize> = Vec::new();
    let n = v.len();
    let mut i: usize = 0;
    while i < n
        invariant
            n == v@.len(),
            i <= n,
            out@ == v@.subrange(0, i as int),
        decreases n - i,
    {
        out.push(v[i]);
        proof {
            assert(out@ =~= v@.subrange(0, i + 1));
        }
        i = i + 1;
    }
    proof {
        assert(v@.subrange(0, n as int) =~= v@);
    }
    out
}

/// Copy of a vector of sorts with the same views.
pub fn clone_sorts(ss: &Vec<Sort>) -> (r: Vec<Sort>)
    ensures
        sort_views(r@) == sort_views(ss@),
{
    broadcast use group_semantics_view_lemmas;

    let mut out: Vec<Sort> = Vec::new();
    let n = ss.len();
    let mut i: usize = 0;
    while i < n
        invariant
            n == ss@.len(),
            i <= n,
            out@.len() == i,
            forall|j: int| 0 <= j < i ==> #[trigger] out@[j]@ == ss@[j]@,
        decreases n - i,
    {
        out.push(clone_sort(&ss[i]));
        i = i + 1;
    }
    proof {
        assert forall|j: int| 0 <= j < n implies #[trigger] sort_views(out@)[j] == sort_views(
            ss@,
        )[j] by {
            lemma_sort_views_index(out@, j);
            lemma_sort_views_index(ss@, j);
        }
        assert(sort_views(out@) =~= sort_views(ss@));
    }
    out
}

/// Copy of a relation declaration with the same view.
pub fn clone_relation(r: &RelationDecl) -> (c: RelationDecl)
    ensures
        c@ == r@,
{
    RelationDecl {
        mutable: r.mutable,
        name: r.name.clone(),
        args: clone_sorts(&r.args),
        typ: clone_sort(&r.typ),
    }
}

/// Copy of a signature with the same view.
pub fn clone_signature(sig: &Signature) -> (c: Signature)
    ensures
        c@ == sig@,
{
    broadcast use group_semantics_view_lemmas;

    let sorts = clone_sorts(&sig.sorts);
    let mut relations: Vec<RelationDecl> = Vec::new();
    let n = sig.relations.len();
    let mut i: usize = 0;
    while i < n
        invariant
            n == sig.relations@.len(),
            i <= n,
            relations@.len() == i,
            forall|j: int| 0 <= j < i ==> #[trigger] relations@[j]@ == sig.relations@[j]@,
        decreases n - i,
    {
        relations.push(clone_relation(&sig.relations[i]));
        i = i + 1;
    }
    proof {
        assert forall|j: int| 0 <= j < n implies #[trigger] relation_views(relations@)[j]
            == relation_views(sig.relations@)[j] by {
            lemma_relation_views_index(relations@, j);
            lemma_relation_views_index(sig.relations@, j);
        }
        assert(relation_views(relations@) =~= relation_views(sig.relations@));
    }
    Signature { sorts, relations }
}

/// Copy of an interpretation with the same view.
pub fn clone_interp(i: &Interpretation) -> (c: Interpretation)
    ensures
        c@ == i@,
{
    Interpretation { shape: copy_usizes(&i.shape), data: copy_usizes(&i.data) }
}

/// Copy of a model with the same view.
pub fn clone_model(m: &Model) -> (c: Model)
    ensures
        c@ == m@,
{
    broadcast use group_semantics_view_lemmas;

    let signature = clone_signature(&m.signature);
    let universe = copy_usizes(&m.universe);
    let mut interp: Vec<Interpretation> = Vec::new();
    let n = m.interp.len();
    let mut i: usize = 0;
    while i < n
        invariant
            n == m.interp@.len(),
            i <= n,
            interp@.len() == i,
            forall|j: int| 0 <= j < i ==> #[trigger] interp@[j]@ == m.interp@[j]@,
        decreases n - i,
    {
        interp.push(clone_interp(&m.interp[i]));
        i = i + 1;
    }
    proof {
        assert forall|j: int| 0 <= j < n implies #[trigger] interp_views(interp@)[j] == interp_views(
            m.interp@,
        )[j] by {
            lemma_interp_views_index(interp@, j);
            lemma_interp_views_index(m.interp@, j);
        }
        assert(interp_views(interp@) =~= interp_views(m.interp@));
    }
    Model { signature, universe, interp }
}

} // verus!
