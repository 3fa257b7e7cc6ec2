//! Linear Temporal Logic formula trees and their normalizing smart
//! constructors.
//!
//! An `LTL` value is an owned tree: `Top`, `Bottom`, an `Atom` carrying the
//! positional id of a ground atom, the unary wrappers `Not`, `Globally`,
//! `Eventually` and `Next`, and the variadic connectives `And` and `Or`.
//! The smart constructors `and` and `or` flatten nested conjunctions and
//! disjunctions; `and` additionally treats `Bottom` as absorbing and `Top`
//! as an identity.  `or` deliberately performs no such absorption: the two
//! constructors are asymmetric by design, and downstream formula shapes
//! depend on exactly which simplifications are applied.

use vstd::prelude::*;

verus! {

/// Mathematical model of an `LTL` tree: the same shape, with unbounded
/// integers for atom ids and `Seq` for child lists.
#[verifier::ext_equal]
pub ghost enum LTLView {
    Top,
    Bottom,
    Atom(int),
    Not(Box<LTLView>),
    Globally(Box<LTLView>),
    Eventually(Box<LTLView>),
    Next(Box<LTLView>),
    And(Seq<LTLView>),
    Or(Seq<LTLView>),
}

/// A propositional LTL formula over ground-atom ids.
#[derive(Debug, PartialEq, Eq, Hash, PartialOrd, Ord)]
pub enum LTL {
    Top,
    Bottom,
    Atom(usize),
    Not(Box<LTL>),
    Globally(Box<LTL>),
    Eventually(Box<LTL>),
    Next(Box<LTL>),
    And(Vec<LTL>),
    Or(Vec<LTL>),
}

/// The mathematical value of a formula tree.
pub open spec fn ltl_view(f: LTL) -> LTLView
    decreases f, 1int,
{
    match f {
        LTL::Top => LTLView::Top,
        LTL::Bottom => LTLView::Bottom,
        LTL::Atom(id) => LTLView::Atom(id as int),
        LTL::Not(g) => LTLView::Not(Box::new(ltl_view(*g))),
        LTL::Globally(g) => LTLView::Globally(Box::new(ltl_view(*g))),
        LTL::Eventually(g) => LTLView::Eventually(Box::new(ltl_view(*g))),
        LTL::Next(g) => LTLView::Next(Box::new(ltl_view(*g))),
        LTL::And(fs) => LTLView::And(ltl_views(fs@)),
        LTL::Or(fs) => LTLView::Or(ltl_views(fs@)),
    }
}

/// The mathematical values of a list of formulas, element-wise.
pub open spec fn ltl_views(fs: Seq<LTL>) -> Seq<LTLView>
    decreases fs, 0int,
{
    if fs.len() == 0 {
        Seq::empty()
    } else {
        seq![ltl_view(fs[0])] + ltl_views(fs.drop_first())
    }
}

/// `ltl_views` maps `ltl_view` over its argument, position by position.
pub proof fn lemma_ltl_views(fs: Seq<LTL>)
    ensures
        ltl_views(fs).len() == fs.len(),
        forall|i: int| 0 <= i < fs.len() ==> ltl_views(fs)[i] == ltl_view(fs[i]),
    decreases fs.len(),
{
    if fs.len() > 0 {
        lemma_ltl_views(fs.drop_first());
    }
}

impl View for LTL {
    type V = LTLView;

    open spec fn view(&self) -> LTLView {
        ltl_view(*self)
    }
}

/// A formula's view has the same head constructor as the formula.
pub proof fn lemma_ltl_view_shape(f: LTL)
    ensures
        (ltl_view(f) is Top) == (f is Top),
        (ltl_view(f) is Bottom) == (f is Bottom),
        (ltl_view(f) is And) == (f is And),
        (ltl_view(f) is Or) == (f is Or),
{
    match f {
        LTL::Top => {},
        LTL::Bottom => {},
        LTL::Atom(_) => {},
        LTL::Not(_) => {},
        LTL::Globally(_) => {},
        LTL::Eventually(_) => {},
        LTL::Next(_) => {},
        LTL::And(_) => {},
        LTL::Or(_) => {},
    }
}

/// The children a formula contributes when it is conjoined: an `And` node
/// contributes its child list, anything else contributes itself.
pub open spec fn and_children(f: LTLView) -> Seq<LTLView> {
    match f {
        LTLView::And(fs) => fs,
        _ => seq![f],
    }
}

/// The children a formula contributes when it is disjoined.
pub open spec fn or_children(f: LTLView) -> Seq<LTLView> {
    match f {
        LTLView::Or(fs) => fs,
        _ => seq![f],
    }
}

/// What `LTL::and` builds: `Bottom` absorbs, `Top` is an identity, and
/// otherwise the two operands' conjunct lists are concatenated.
pub open spec fn and_spec(a: LTLView, b: LTLView) -> LTLView {
    if a is Bottom || b is Bottom {
        LTLView::Bottom
    } else if a is Top {
        b
    } else if b is Top {
        a
    } else {
        LTLView::And(and_children(a) + and_children(b))
    }
}

/// What `LTL::or` builds: flattening only, with no `Top`/`Bottom`
/// shortcuts.
pub open spec fn or_spec(a: LTLView, b: LTLView) -> LTLView {
    LTLView::Or(or_children(a) + or_children(b))
}

/// What `LTL::implies` builds: `a -> b` desugars to `!a | b`.
pub open spec fn implies_spec(a: LTLView, b: LTLView) -> LTLView {
    or_spec(LTLView::Not(Box::new(a)), b)
}

impl LTL {
    /// Conjunction with eager normalization: `Bottom` absorbs, `Top` is an
    /// identity, and nested `And` lists are flattened in left-to-right
    /// order.
    pub fn and(self, other: LTL) -> (r: LTL)
        ensures
            r@ == and_spec(self@, other@),
    {
        let ghost a = self@;
        let ghost b = other@;
        match (self, other) {
            (LTL::Bottom, _) => LTL::Bottom,
            (_, LTL::Bottom) => LTL::Bottom,
            (LTL::Top, rhs) => rhs,
            (lhs, LTL::Top) => lhs,
            (LTL::And(mut lhs), LTL::And(mut rhs)) => {
                let ghost l0 = lhs@;
                let ghost r0 = rhs@;
                lhs.append(&mut rhs);
                let res = LTL::And(lhs);
                proof {
                    lemma_ltl_views(l0);
                    lemma_ltl_views(r0);
                    lemma_ltl_views(l0 + r0);
                    assert(ltl_views(l0 + r0) =~= ltl_views(l0) + ltl_views(r0));
                    assert(res@ =~= and_spec(a, b));
                }
                res
            }
            (LTL::And(lhs), rhs) => {
                let ghost l0 = lhs@;
                let ghost rr = rhs;
                let res = LTL::And(push_formula(lhs, rhs));
                proof {
                    lemma_ltl_view_shape(rr);
                    lemma_ltl_views(l0);
                    lemma_ltl_views(l0.push(rr));
                    assert(ltl_views(l0.push(rr)) =~= ltl_views(l0) + seq![b]);
                    assert(res@ =~= and_spec(a, b));
                }
                res
            }
            (lhs, LTL::And(rhs)) => {
                let ghost r0 = rhs@;
                let ghost l = lhs;
                let res = LTL::And(prepend_formula(lhs, rhs));
                proof {
                    lemma_ltl_view_shape(l);
                    lemma_ltl_views(r0);
                    lemma_ltl_views(seq![l] + r0);
                    assert(ltl_views(seq![l] + r0) =~= seq![a] + ltl_views(r0));
                    assert(res@ =~= and_spec(a, b));
                }
                res
            }
            (lhs, rhs) => {
                let ghost l = lhs;
                let ghost rr = rhs;
                let res = LTL::And(pair_formulas(lhs, rhs));
                proof {
                    lemma_ltl_view_shape(l);
                    lemma_ltl_view_shape(rr);
                    lemma_ltl_views(seq![l, rr]);
                    assert(ltl_views(seq![l, rr]) =~= seq![a, b]);
                    assert(and_children(a) + and_children(b) =~= seq![a, b]);
                    assert(res@ == LTLView::And(ltl_views(seq![l, rr])));
                    assert(res@ =~= and_spec(a, b));
                }
                res
            }
        }
    }

    /// Negation: always wraps, with no double-negation elimination.
    pub fn not(self) -> (r: LTL)
        ensures
            r@ == LTLView::Not(Box::new(self@)),
    {
        LTL::Not(Box::new(self))
    }

    /// Disjunction: flattens nested `Or` lists and nothing more.
    pub fn or(self, other: LTL) -> (r: LTL)
        ensures
            r@ == or_spec(self@, other@),
    {
        let ghost a = self@;
        let ghost b = other@;
        match (self, other) {
            (LTL::Or(mut lhs), LTL::Or(mut rhs)) => {
                let ghost l0 = lhs@;
                let ghost r0 = rhs@;
                lhs.append(&mut rhs);
                let res = LTL::Or(lhs);
                proof {
                    lemma_ltl_views(l0);
                    lemma_ltl_views(r0);
                    lemma_ltl_views(l0 + r0);
                    assert(ltl_views(l0 + r0) =~= ltl_views(l0) + ltl_views(r0));
                    assert(res@ =~= or_spec(a, b));
                }
                res
            }
            (LTL::Or(lhs), rhs) => {
                let ghost l0 = lhs@;
                let ghost rr = rhs;
                let res = LTL::Or(push_formula(lhs, rhs));
                proof {
                    lemma_ltl_view_shape(rr);
                    lemma_ltl_views(l0);
                    lemma_ltl_views(l0.push(rr));
                    assert(ltl_views(l0.push(rr)) =~= ltl_views(l0) + seq![b]);
                    assert(res@ =~= or_spec(a, b));
                }
                res
            }
            (lhs, LTL::Or(rhs)) => {
                let ghost r0 = rhs@;
                let ghost l = lhs;
                let res = LTL::Or(prepend_formula(lhs, rhs));
                proof {
                    lemma_ltl_view_shape(l);
                    lemma_ltl_views(r0);
                    lemma_ltl_views(seq![l] + r0);
                    assert(ltl_views(seq![l] + r0) =~= seq![a] + ltl_views(r0));
                    assert(res@ =~= or_spec(a, b));
                }
                res
            }
            (lhs, rhs) => {
                let ghost l = lhs;
                let ghost rr = rhs;
                let res = LTL::Or(pair_formulas(lhs, rhs));
                proof {
                    lemma_ltl_view_shape(l);
                    lemma_ltl_view_shape(rr);
                    lemma_ltl_views(seq![l, rr]);
                    assert(ltl_views(seq![l, rr]) =~= seq![a, b]);
                    assert(or_children(a) + or_children(b) =~= seq![a, b]);
                    assert(res@ == LTLView::Or(ltl_views(seq![l, rr])));
                    assert(res@ =~= or_spec(a, b));
                }
                res
            }
        }
    }

    /// Implication, desugared to `!self | other`.
    pub fn implies(self, other: LTL) -> (r: LTL)
        ensures
            r@ == implies_spec(self@, other@),
    {
        self.not().or(other)
    }

    /// Temporal "next": always wraps, with no simplification.
    pub fn next(self) -> (r: LTL)
        ensures
            r@ == LTLView::Next(Box::new(self@)),
    {
        LTL::Next(Box::new(self))
    }

    /// Temporal "eventually": always wraps, with no simplification.
    pub fn eventually(self) -> (r: LTL)
        ensures
            r@ == LTLView::Eventually(Box::new(self@)),
    {
        LTL::Eventually(Box::new(self))
    }
}

/// `Top` is an identity of the conjunction constructor, on either side.
pub proof fn lemma_and_top(x: LTLView)
    ensures
        and_spec(LTLView::Top, x) == x,
        and_spec(x, LTLView::Top) == x,
{
}

/// `Bottom` absorbs under the conjunction constructor, on either side.
pub proof fn lemma_and_bottom(x: LTLView)
    ensures
        and_spec(LTLView::Bottom, x) == LTLView::Bottom,
        and_spec(x, LTLView::Bottom) == LTLView::Bottom,
{
}

/// The conjunction constructor is associative: either grouping flattens to
/// the same conjunct sequence.
pub proof fn lemma_and_assoc(a: LTLView, b: LTLView, c: LTLView)
    ensures
        and_spec(and_spec(a, b), c) == and_spec(a, and_spec(b, c)),
{
    if a is Bottom || b is Bottom || c is Bottom {
    } else if a is Top || b is Top || c is Top {
    } else {
        assert((and_children(a) + and_children(b)) + and_children(c) =~= and_children(a) + (
        and_children(b) + and_children(c)));
        assert(and_spec(and_spec(a, b), c) =~= and_spec(a, and_spec(b, c)));
    }
}

impl Default for LTL {
    /// The default formula is `Bottom`.
    fn default() -> (r: LTL)
        ensures
            r == LTL::Bottom,
    {
        LTL::Bottom
    }
}

fn push_formula(fs: Vec<LTL>, f: LTL) -> (r: Vec<LTL>)
    ensures
        r@ == fs@.push(f),
{
    let mut r = fs;
    r.push(f);
    r
}

fn prepend_formula(f: LTL, fs: Vec<LTL>) -> (r: Vec<LTL>)
    ensures
        r@ == seq![f] + fs@,
{
    let ghost fs0 = fs@;
    let mut r = Vec::new();
    r.push(f);
    let mut rest = fs;
    r.append(&mut rest);
    proof {
        assert(r@ =~= seq![f] + fs0);
    }
    r
}

fn pair_formulas(a: LTL, b: LTL) -> (r: Vec<LTL>)
    ensures
        r@ == seq![a, b],
{
    let mut r = Vec::new();
    r.push(a);
    r.push(b);
    proof {
        assert(r@ =~= seq![a, b]);
    }
    r
}

} // verus!
