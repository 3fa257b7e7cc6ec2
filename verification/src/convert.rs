//! The grounding-and-conversion engine.
//!
//! `collect_output` enumerates every ground instantiation of every predicate
//! and action — the cartesian product of each signature's typed parameters
//! against the problem variables of matching type — into an ordered atom
//! universe whose positional index is the atom id.  `convert_value` and
//! `convert_action` then rewrite an action's symbolic precondition and
//! effect formulas into LTL trees over those ids and compose, per ground
//! instance, the transition axiom
//! `Globally((call AND preconditions) IMPLIES Next(effects))`.

use vstd::prelude::*;

use crate::ltl::{
    and_children, and_spec, implies_spec, lemma_ltl_views, ltl_views, LTL, LTLView,
};
use crate::pdc::{
    lemma_value_views, name_seqs, value_view, value_views, vars_of_type_spec, Action, ActionView,
    Domain, DomainView, Parameter, ParameterView, PredicateView, Problem, ProblemView, Value,
    ValueView, Variable, VariableView,
};

verus! {

// ---------------------------------------------------------------------------
// Errors

/// A grounding or conversion failure.  All three variants report programmer
/// or data errors in the domain/problem pair; none is recoverable.
#[derive(Debug, PartialEq, Eq)]
pub enum ConvError {
    /// A predicate or action parameter has no declared type.
    MissingType { owner: String, parameter: String },
    /// A concrete argument's type differs from its parameter's declared type.
    TypeMismatch { action: String, parameter: String, expected: String, actual: String },
    /// A call names no atom of the universe: unknown name, wrong arity, or
    /// an argument that no substitution entry resolves.
    UnknownAtom { name: String, arguments: Vec<String> },
}

/// Mathematical model of a `ConvError`.
#[verifier::ext_equal]
pub ghost enum ConvErrorView {
    MissingType { owner: Seq<char>, parameter: Seq<char> },
    TypeMismatch { action: Seq<char>, parameter: Seq<char>, expected: Seq<char>, actual: Seq<char> },
    UnknownAtom { name: Seq<char>, arguments: Seq<Seq<char>> },
}

impl View for ConvError {
    type V = ConvErrorView;

    open spec fn view(&self) -> ConvErrorView {
        match self {
            ConvError::MissingType { owner, parameter } => ConvErrorView::MissingType {
                owner: owner@,
                parameter: parameter@,
            },
            ConvError::TypeMismatch { action, parameter, expected, actual } => ConvErrorView::TypeMismatch {
                action: action@,
                parameter: parameter@,
                expected: expected@,
                actual: actual@,
            },
            ConvError::UnknownAtom { name, arguments } => ConvErrorView::UnknownAtom {
                name: name@,
                arguments: name_seqs(arguments@),
            },
        }
    }
}

// ---------------------------------------------------------------------------
// The atom universe

/// The ordered universe of ground atoms: a name applied to concrete
/// problem-variable names.  An atom's position is its LTL atom id.
#[derive(Debug, PartialEq, Eq)]
pub struct OutputMapping(pub Vec<(String, Vec<String>)>);

/// Mathematical model of one ground atom.
pub open spec fn atom_view(a: (String, Vec<String>)) -> (Seq<char>, Seq<Seq<char>>) {
    (a.0@, name_seqs(a.1@))
}

/// The views of a list of ground atoms, element-wise.
pub open spec fn atoms_view(s: Seq<(String, Vec<String>)>) -> Seq<(Seq<char>, Seq<Seq<char>>)> {
    s.map_values(|a: (String, Vec<String>)| atom_view(a))
}

impl View for OutputMapping {
    type V = Seq<(Seq<char>, Seq<Seq<char>>)>;

    open spec fn view(&self) -> Seq<(Seq<char>, Seq<Seq<char>>)> {
        atoms_view(self.0@)
    }
}

// ---------------------------------------------------------------------------
// Cartesian product, in specification and in code

/// The block of product tuples contributed by the elements of `first`, in
/// order, each prepended to every tuple of `rest` in order: the tuples of
/// `rest` vary fastest.
pub open spec fn product_prefix<A>(first: Seq<A>, rest: Seq<Seq<A>>) -> Seq<Seq<A>>
    decreases first.len(),
{
    if first.len() == 0 {
        Seq::empty()
    } else {
        product_prefix(first.drop_last(), rest) + rest.map_values(|t: Seq<A>| seq![first.last()] + t)
    }
}

/// The multi-way cartesian product of `lists`, leftmost list outermost
/// (last list varying fastest); one empty tuple if `lists` is empty.
pub open spec fn product<A>(lists: Seq<Seq<A>>) -> Seq<Seq<A>>
    decreases lists.len(),
{
    if lists.len() == 0 {
        seq![Seq::<A>::empty()]
    } else {
        product_prefix(lists[0], product(lists.drop_first()))
    }
}

/// A prefix block holds `first.len() * rest.len()` tuples.
pub proof fn lemma_product_prefix_len<A>(first: Seq<A>, rest: Seq<Seq<A>>)
    ensures
        product_prefix(first, rest).len() == first.len() * rest.len(),
    decreases first.len(),
{
    if first.len() > 0 {
        lemma_product_prefix_len(first.drop_last(), rest);
        assert((first.len() - 1) * rest.len() + rest.len() == first.len() * rest.len())
            by (nonlinear_arith);
    }
}

/// The size of a product of factors.
pub open spec fn product_count<A>(lists: Seq<Seq<A>>) -> nat
    decreases lists.len(),
{
    if lists.len() == 0 {
        1
    } else {
        lists[0].len() * product_count(lists.drop_first())
    }
}

/// The product holds exactly one tuple per choice from each factor: its
/// length is the product of the factors' lengths.
pub proof fn lemma_product_len<A>(lists: Seq<Seq<A>>)
    ensures
        product(lists).len() == product_count(lists),
    decreases lists.len(),
{
    if lists.len() > 0 {
        lemma_product_len(lists.drop_first());
        lemma_product_prefix_len(lists[0], product(lists.drop_first()));
    }
}

/// Every tuple of a prefix block is one longer than the tuples of `rest`.
pub proof fn lemma_product_prefix_tuple_len<A>(first: Seq<A>, rest: Seq<Seq<A>>, n: int)
    requires
        forall|k: int| 0 <= k < rest.len() ==> (#[trigger] rest[k]).len() == n,
    ensures
        forall|k: int|
            0 <= k < product_prefix(first, rest).len()
                ==> (#[trigger] product_prefix(first, rest)[k]).len() == n + 1,
    decreases first.len(),
{
    if first.len() > 0 {
        lemma_product_prefix_tuple_len(first.drop_last(), rest, n);
        let pp = product_prefix(first, rest);
        let front = product_prefix(first.drop_last(), rest);
        let block = rest.map_values(|t: Seq<A>| seq![first.last()] + t);
        assert forall|k: int| 0 <= k < pp.len() implies (#[trigger] pp[k]).len() == n + 1 by {
            if k < front.len() {
                assert(pp[k] == front[k]);
            } else {
                assert(pp[k] == block[k - front.len()]);
                assert(block[k - front.len()] == seq![first.last()] + rest[k - front.len()]);
            }
        }
    }
}

/// Every tuple of the product has one component per factor.
pub proof fn lemma_product_tuple_len<A>(lists: Seq<Seq<A>>)
    ensures
        forall|k: int|
            0 <= k < product(lists).len() ==> (#[trigger] product(lists)[k]).len() == lists.len(),
    decreases lists.len(),
{
    if lists.len() > 0 {
        lemma_product_tuple_len(lists.drop_first());
        lemma_product_prefix_tuple_len(lists[0], product(lists.drop_first()), lists.len() - 1);
    }
}

/// The views of a list of variables, element-wise.
pub open spec fn var_views(vs: Seq<Variable>) -> Seq<VariableView> {
    vs.map_values(|v: Variable| v@)
}

/// The views of a list of variable lists, element-wise.
pub open spec fn var_list_views(ls: Seq<Vec<Variable>>) -> Seq<Seq<VariableView>> {
    ls.map_values(|l: Vec<Variable>| var_views(l@))
}

fn clone_variable(v: &Variable) -> (r: Variable)
    ensures
        r@ == v@,
{
    Variable { name: v.name.clone(), data_type: v.data_type.clone() }
}

fn prepend_variable(v: &Variable, t: &Vec<Variable>) -> (r: Vec<Variable>)
    ensures
        var_views(r@) == seq![v@] + var_views(t@),
{
    let mut r: Vec<Variable> = Vec::new();
    r.push(clone_variable(v));
    proof {
        assert(var_views(r@) =~~= seq![v@] + var_views(t@.take(0)));
    }
    let mut k: usize = 0;
    while k < t.len()
        invariant
            k <= t@.len(),
            var_views(r@) == seq![v@] + var_views(t@.take(k as int)),
        decreases t@.len() - k,
    {
        let ghost r0 = r@;
        let c = clone_variable(&t[k]);
        let ghost cv = c@;
        r.push(c);
        k = k + 1;
        proof {
            assert(var_views(r@) =~~= var_views(r0).push(cv));
            assert(var_views(t@.take(k as int)) =~~= var_views(t@.take(k - 1)).push(t@[k - 1]@));
            assert((seq![v@] + var_views(t@.take(k - 1))).push(t@[k - 1]@) =~= seq![v@]
                + var_views(t@.take(k - 1)).push(t@[k - 1]@));
        }
    }
    proof {
        assert(t@.take(t@.len() as int) =~= t@);
    }
    r
}

/// The cartesian product of `lists[i..]`, tuples of the later lists varying
/// fastest.
fn product_from(lists: &Vec<Vec<Variable>>, i: usize) -> (r: Vec<Vec<Variable>>)
    requires
        i <= lists@.len(),
    ensures
        var_list_views(r@) == product(var_list_views(lists@).skip(i as int)),
    decreases lists@.len() - i,
{
    let ghost all = var_list_views(lists@);
    if i == lists.len() {
        let mut r: Vec<Vec<Variable>> = Vec::new();
        r.push(Vec::new());
        proof {
            assert(all.skip(i as int) =~= Seq::<Seq<VariableView>>::empty());
            assert(var_list_views(r@) =~~= seq![Seq::<VariableView>::empty()]);
        }
        r
    } else {
        let rest = product_from(lists, i + 1);
        let ghost rp = product(all.skip(i as int + 1));
        let first = &lists[i];
        let ghost fv = var_views(first@);
        let mut r: Vec<Vec<Variable>> = Vec::new();
        proof {
            assert(var_list_views(r@) =~~= product_prefix(fv.take(0), rp));
        }
        let mut j: usize = 0;
        while j < first.len()
            invariant
                j <= first@.len(),
                i < lists@.len(),
                fv == var_views(lists@[i as int]@),
                first@ == lists@[i as int]@,
                rp == product(var_list_views(lists@).skip(i as int + 1)),
                var_list_views(rest@) == rp,
                var_list_views(r@) == product_prefix(fv.take(j as int), rp),
            decreases first@.len() - j,
        {
            let mut m: usize = 0;
            while m < rest.len()
                invariant
                    m <= rest@.len(),
                    j < first@.len(),
                    i < lists@.len(),
                    fv == var_views(lists@[i as int]@),
                    first@ == lists@[i as int]@,
                    rp == product(var_list_views(lists@).skip(i as int + 1)),
                    var_list_views(rest@) == rp,
                    var_list_views(r@) == product_prefix(fv.take(j as int), rp) + rp.take(
                        m as int,
                    ).map_values(|t: Seq<VariableView>| seq![fv[j as int]] + t),
                decreases rest@.len() - m,
            {
                let tuple = prepend_variable(&first[j], &rest[m]);
                let ghost r0 = r@;
                let ghost tpv = var_views(tuple@);
                r.push(tuple);
                m = m + 1;
                proof {
                    assert(rp[m - 1] == var_views(rest@[m - 1]@));
                    assert(tpv == seq![fv[j as int]] + rp[m - 1]);
                    assert(var_list_views(r@) =~~= var_list_views(r0).push(tpv));
                    assert(rp.take(m as int) =~= rp.take(m - 1).push(rp[m - 1]));
                    assert(rp.take(m as int).map_values(|t: Seq<VariableView>| seq![fv[j as int]] + t)
                        =~~= rp.take(m - 1).map_values(|t: Seq<VariableView>| seq![fv[j as int]] + t)
                        .push(seq![fv[j as int]] + rp[m - 1]));
                    assert((product_prefix(fv.take(j as int), rp) + rp.take(m - 1).map_values(
                        |t: Seq<VariableView>| seq![fv[j as int]] + t,
                    )).push(tpv) =~= product_prefix(fv.take(j as int), rp) + rp.take(
                        m - 1,
                    ).map_values(|t: Seq<VariableView>| seq![fv[j as int]] + t).push(tpv));
                }
            }
            j = j + 1;
            proof {
                assert(fv.take(j as int).drop_last() =~= fv.take(j - 1));
                assert(rp.take(rp.len() as int) =~= rp);
                assert(rp.map_values(|t: Seq<VariableView>| seq![fv.take(j as int).last()] + t)
                    =~~= rp.map_values(|t: Seq<VariableView>| seq![fv[j - 1]] + t));
                assert(var_list_views(r@) =~~= product_prefix(fv.take(j as int), rp));
            }
        }
        proof {
            assert(fv.take(first@.len() as int) =~= fv);
            assert(all.skip(i as int).drop_first() =~= all.skip(i as int + 1));
            assert(all.skip(i as int)[0] == fv);
            assert(var_list_views(r@) == product(all.skip(i as int)));
        }
        r
    }
}

// ---------------------------------------------------------------------------
// Signatures and the universe they generate

/// The candidate variable list of each parameter: the problem variables
/// whose type equals the parameter's declared type, in declaration order.
pub open spec fn var_lists_of(params: Seq<ParameterView>, vars: Seq<VariableView>) -> Seq<
    Seq<VariableView>,
> {
    params.map_values(|p: ParameterView| vars_of_type_spec(vars, p.data_type->0))
}

/// Whether every parameter of a signature declares a type.
pub open spec fn sig_all_typed(params: Seq<ParameterView>) -> bool {
    forall|i: int| 0 <= i < params.len() ==> (#[trigger] params[i]).data_type is Some
}

/// The first parameter of a signature that declares no type.
pub open spec fn first_untyped_param(params: Seq<ParameterView>) -> ParameterView
    decreases params.len(),
{
    if params.len() == 0 {
        arbitrary()
    } else if params[0].data_type is None {
        params[0]
    } else {
        first_untyped_param(params.drop_first())
    }
}

/// If the parameters before `k` are typed and parameter `k` is not, the
/// first untyped parameter is parameter `k`.
pub proof fn lemma_first_untyped(params: Seq<ParameterView>, k: int)
    requires
        0 <= k < params.len(),
        forall|i: int| 0 <= i < k ==> (#[trigger] params[i]).data_type is Some,
        params[k].data_type is None,
    ensures
        !sig_all_typed(params),
        first_untyped_param(params) == params[k],
    decreases k,
{
    if k > 0 {
        lemma_first_untyped(params.drop_first(), k - 1);
    }
}

/// The ground atoms one signature contributes: one atom per product tuple,
/// in product order, carrying the tuple's variable names.
/// The names of a tuple of variables, in order.
pub open spec fn tuple_names(t: Seq<VariableView>) -> Seq<Seq<char>> {
    t.map_values(|v: VariableView| v.name)
}

pub open spec fn sig_atoms(
    name: Seq<char>,
    params: Seq<ParameterView>,
    vars: Seq<VariableView>,
) -> Seq<(Seq<char>, Seq<Seq<char>>)> {
    product(var_lists_of(params, vars)).map_values(|t: Seq<VariableView>| (name, tuple_names(t)))
}

/// A name with its parameter list: what grounding reads of a predicate or
/// an action.
pub type SigView = (Seq<char>, Seq<ParameterView>);

/// The atoms of a list of signatures, concatenated in order.
pub open spec fn sigs_atoms(sigs: Seq<SigView>, vars: Seq<VariableView>) -> Seq<
    (Seq<char>, Seq<Seq<char>>),
>
    decreases sigs.len(),
{
    if sigs.len() == 0 {
        Seq::empty()
    } else {
        sigs_atoms(sigs.drop_last(), vars) + sig_atoms(sigs.last().0, sigs.last().1, vars)
    }
}

/// Whether every signature of the list is fully typed.
pub open spec fn sigs_all_typed(sigs: Seq<SigView>) -> bool {
    forall|i: int| 0 <= i < sigs.len() ==> sig_all_typed((#[trigger] sigs[i]).1)
}

/// The error reported for the first signature with an untyped parameter.
pub open spec fn first_missing(sigs: Seq<SigView>) -> ConvErrorView
    decreases sigs.len(),
{
    if sigs.len() == 0 {
        arbitrary()
    } else if !sig_all_typed(sigs[0].1) {
        ConvErrorView::MissingType {
            owner: sigs[0].0,
            parameter: first_untyped_param(sigs[0].1).name,
        }
    } else {
        first_missing(sigs.drop_first())
    }
}

/// If the signatures before `k` are fully typed and signature `k` is not,
/// the reported error belongs to signature `k`.
pub proof fn lemma_first_missing(sigs: Seq<SigView>, k: int)
    requires
        0 <= k < sigs.len(),
        forall|i: int| 0 <= i < k ==> sig_all_typed((#[trigger] sigs[i]).1),
        !sig_all_typed(sigs[k].1),
    ensures
        !sigs_all_typed(sigs),
        first_missing(sigs) == (ConvErrorView::MissingType {
            owner: sigs[k].0,
            parameter: first_untyped_param(sigs[k].1).name,
        }),
    decreases k,
{
    if k > 0 {
        lemma_first_missing(sigs.drop_first(), k - 1);
    }
}

/// The signatures grounding walks: every predicate in declaration order,
/// then every action in declaration order.
pub open spec fn domain_sigs(d: DomainView) -> Seq<SigView> {
    d.predicates.map_values(|p: PredicateView| (p.name, p.parameters)) + d.actions.map_values(
        |a: ActionView| (a.name, a.parameters),
    )
}

/// The full atom universe of a domain/problem pair.
pub open spec fn universe_of(d: DomainView, p: ProblemView) -> Seq<(Seq<char>, Seq<Seq<char>>)> {
    sigs_atoms(domain_sigs(d), p.variables)
}

/// Extending a fully typed signature prefix by one signature appends that
/// signature's atoms.
proof fn lemma_sigs_atoms_take_step(sigs: Seq<SigView>, vars: Seq<VariableView>, k: int)
    requires
        0 <= k < sigs.len(),
    ensures
        sigs_atoms(sigs.take(k + 1), vars) == sigs_atoms(sigs.take(k), vars) + sig_atoms(
            sigs[k].0,
            sigs[k].1,
            vars,
        ),
{
    assert(sigs.take(k + 1).drop_last() =~= sigs.take(k));
    assert(sigs.take(k + 1).last() == sigs[k]);
}

fn variable_names(t: &Vec<Variable>) -> (r: Vec<String>)
    ensures
        name_seqs(r@) == tuple_names(var_views(t@)),
{
    let mut r: Vec<String> = Vec::new();
    proof {
        assert(name_seqs(r@) =~~= tuple_names(var_views(t@.take(0))));
    }
    let mut k: usize = 0;
    while k < t.len()
        invariant
            k <= t@.len(),
            name_seqs(r@) == tuple_names(var_views(t@.take(k as int))),
        decreases t@.len() - k,
    {
        let ghost r0 = r@;
        r.push(t[k].name.clone());
        k = k + 1;
        proof {
            assert(name_seqs(r@) =~~= name_seqs(r0).push(t@[k - 1]@.name));
            assert(var_views(t@.take(k as int)) =~~= var_views(t@.take(k - 1)).push(t@[k - 1]@));
            assert(tuple_names(var_views(t@.take(k as int)))
                =~~= tuple_names(var_views(t@.take(k - 1))).push(t@[k - 1]@.name));
        }
    }
    proof {
        assert(t@.take(t@.len() as int) =~= t@);
    }
    r
}

/// Appends, for one fully typed signature, every ground atom of the
/// signature in product order; reports the first untyped parameter
/// otherwise, leaving `result` unchanged.
fn append_sig_atoms(
    result: &mut Vec<(String, Vec<String>)>,
    name: &String,
    parameters: &Vec<Parameter>,
    problem: &Problem,
) -> (r: Result<(), ConvError>)
    ensures
        match r {
            Ok(_) => sig_all_typed(parameters@.map_values(|p: Parameter| p@)) && atoms_view(
                final(result)@,
            ) == atoms_view(old(result)@) + sig_atoms(
                name@,
                parameters@.map_values(|p: Parameter| p@),
                problem@.variables,
            ),
            Err(e) => !sig_all_typed(parameters@.map_values(|p: Parameter| p@)) && final(result)@
                == old(result)@ && e@ == (ConvErrorView::MissingType {
                owner: name@,
                parameter: first_untyped_param(
                    parameters@.map_values(|p: Parameter| p@),
                ).name,
            }),
        },
{
    let ghost pv = parameters@.map_values(|p: Parameter| p@);
    let mut lists: Vec<Vec<Variable>> = Vec::new();
    proof {
        assert(var_list_views(lists@) =~~= var_lists_of(pv.take(0), problem@.variables));
    }
    let mut i: usize = 0;
    while i < parameters.len()
        invariant
            i <= parameters@.len(),
            pv == parameters@.map_values(|p: Parameter| p@),
            forall|k: int| 0 <= k < i ==> (#[trigger] pv[k]).data_type is Some,
            var_list_views(lists@) == var_lists_of(pv.take(i as int), problem@.variables),
        decreases parameters@.len() - i,
    {
        match &parameters[i].data_type {
            None => {
                proof {
                    lemma_first_untyped(pv, i as int);
                }
                return Err(
                    ConvError::MissingType {
                        owner: name.clone(),
                        parameter: parameters[i].name.clone(),
                    },
                );
            }
            Some(t) => {
                lists.push(problem.variables_of_type(t.as_str()));
            }
        }
        i = i + 1;
        proof {
            assert(var_lists_of(pv.take(i as int), problem@.variables) =~~= var_lists_of(
                pv.take(i - 1),
                problem@.variables,
            ).push(vars_of_type_spec(problem@.variables, pv[i - 1].data_type->0)));
            assert(var_list_views(lists@) =~~= var_lists_of(pv.take(i as int), problem@.variables));
        }
    }
    proof {
        assert(pv.take(pv.len() as int) =~= pv);
    }
    let tuples = product_from(&lists, 0);
    let ghost tv = var_list_views(tuples@);
    proof {
        assert(var_list_views(lists@).skip(0) =~~= var_list_views(lists@));
        assert(tv == product(var_lists_of(pv, problem@.variables)));
    }
    let ghost entry = atoms_view(result@);
    let ghost satoms = sig_atoms(name@, pv, problem@.variables);
    let mut m: usize = 0;
    proof {
        assert(atoms_view(result@) =~~= entry + satoms.take(0));
    }
    while m < tuples.len()
        invariant
            m <= tuples@.len(),
            tv == var_list_views(tuples@),
            tv == product(var_lists_of(pv, problem@.variables)),
            satoms == sig_atoms(name@, pv, problem@.variables),
            atoms_view(result@) == entry + satoms.take(m as int),
        decreases tuples@.len() - m,
    {
        let names = variable_names(&tuples[m]);
        let ghost r0 = result@;
        let pair = (name.clone(), names);
        let ghost pv2 = pair;
        result.push(pair);
        m = m + 1;
        proof {
            assert(satoms.take(m as int) =~= satoms.take(m - 1).push(satoms[m - 1]));
            assert(satoms[m - 1] == (name@, tuple_names(tv[m - 1])));
            assert(atom_view(pv2) == satoms[m - 1]);
            assert(atoms_view(result@) =~~= atoms_view(r0).push(atom_view(pv2)));
            assert((entry + satoms.take(m - 1)).push(satoms[m - 1]) =~= entry + satoms.take(
                m - 1,
            ).push(satoms[m - 1]));
        }
    }
    proof {
        assert(satoms.take(satoms.len() as int) =~= satoms);
        assert(atoms_view(result@) =~~= entry + satoms);
    }
    Ok(())
}

/// Enumerates the ordered atom universe of a domain/problem pair: for each
/// predicate in declaration order, then each action, every ground
/// instantiation in cartesian-product order, the last parameter varying
/// fastest.  Reports the first parameter without a declared type.
pub fn collect_output(domain: &Domain, problem: &Problem) -> (r: Result<OutputMapping, ConvError>)
    ensures
        match r {
            Ok(m) => sigs_all_typed(domain_sigs(domain@)) && m@ == universe_of(
                domain@,
                problem@,
            ),
            Err(e) => !sigs_all_typed(domain_sigs(domain@)) && e@ == first_missing(
                domain_sigs(domain@),
            ),
        },
{
    let ghost sigs = domain_sigs(domain@);
    let ghost np = domain.predicates@.len() as int;
    let mut result: Vec<(String, Vec<String>)> = Vec::new();
    proof {
        assert(atoms_view(result@) =~~= sigs_atoms(sigs.take(0), problem@.variables));
    }
    let mut i: usize = 0;
    while i < domain.predicates.len()
        invariant
            i <= domain.predicates@.len(),
            sigs == domain_sigs(domain@),
            np == domain.predicates@.len() as int,
            forall|k: int| 0 <= k < i ==> sig_all_typed((#[trigger] sigs[k]).1),
            atoms_view(result@) == sigs_atoms(sigs.take(i as int), problem@.variables),
        decreases domain.predicates@.len() - i,
    {
        let p = &domain.predicates[i];
        proof {
            assert(sigs[i as int] == (p@.name, p@.parameters));
        }
        match append_sig_atoms(&mut result, &p.name, &p.parameters, problem) {
            Err(e) => {
                proof {
                    lemma_first_missing(sigs, i as int);
                }
                return Err(e);
            }
            Ok(_) => {}
        }
        proof {
            lemma_sigs_atoms_take_step(sigs, problem@.variables, i as int);
        }
        i = i + 1;
    }
    let mut j: usize = 0;
    while j < domain.actions.len()
        invariant
            j <= domain.actions@.len(),
            sigs == domain_sigs(domain@),
            np == domain.predicates@.len() as int,
            forall|k: int| 0 <= k < np + j ==> sig_all_typed((#[trigger] sigs[k]).1),
            atoms_view(result@) == sigs_atoms(sigs.take(np + j), problem@.variables),
        decreases domain.actions@.len() - j,
    {
        let a = &domain.actions[j];
        proof {
            assert(sigs[np + j] == (a@.name, a@.parameters));
        }
        match append_sig_atoms(&mut result, &a.name, &a.parameters, problem) {
            Err(e) => {
                proof {
                    lemma_first_missing(sigs, np + j);
                }
                return Err(e);
            }
            Ok(_) => {}
        }
        proof {
            lemma_sigs_atoms_take_step(sigs, problem@.variables, np + j);
        }
        j = j + 1;
    }
    proof {
        assert(sigs.take(sigs.len() as int) =~= sigs);
    }
    Ok(OutputMapping(result))
}


// ---------------------------------------------------------------------------
// Substitutions

/// The views of a list of name pairs, element-wise.
pub open spec fn pair_views(s: Seq<(String, String)>) -> Seq<(Seq<char>, Seq<char>)> {
    s.map_values(|p: (String, String)| (p.0@, p.1@))
}

/// The mapping a pair list denotes: a later pair overrides an earlier one
/// with the same first component.
pub open spec fn subst_map(pairs: Seq<(Seq<char>, Seq<char>)>) -> Map<Seq<char>, Seq<char>>
    decreases pairs.len(),
{
    if pairs.len() == 0 {
        Map::empty()
    } else {
        subst_map(pairs.drop_last()).insert(pairs.last().0, pairs.last().1)
    }
}

/// Pairs whose key differs from `key` do not affect `key`'s binding.
proof fn lemma_subst_suffix(pairs: Seq<(Seq<char>, Seq<char>)>, i: int, key: Seq<char>)
    requires
        0 <= i <= pairs.len(),
        forall|j: int| i <= j < pairs.len() ==> (#[trigger] pairs[j]).0 != key,
    ensures
        subst_map(pairs).contains_key(key) == subst_map(pairs.take(i)).contains_key(key),
        subst_map(pairs).contains_key(key) ==> subst_map(pairs)[key] == subst_map(
            pairs.take(i),
        )[key],
    decreases pairs.len() - i,
{
    if i < pairs.len() {
        lemma_subst_suffix(pairs, i + 1, key);
        assert(pairs.take(i + 1).drop_last() =~= pairs.take(i));
        assert(pairs.take(i + 1).last() == pairs[i]);
    } else {
        assert(pairs.take(i) =~= pairs);
    }
}

/// A mapping from an action's symbolic parameter names to concrete
/// problem-variable names, built positionally; a later entry overrides an
/// earlier one with the same name.
#[derive(Debug, PartialEq, Eq)]
pub struct Substitution(pub Vec<(String, String)>);

impl View for Substitution {
    type V = Map<Seq<char>, Seq<char>>;

    open spec fn view(&self) -> Map<Seq<char>, Seq<char>> {
        subst_map(pair_views(self.0@))
    }
}

impl Substitution {
    /// The concrete name bound to `name`, if any; the last binding wins.
    pub fn get(&self, name: &String) -> (r: Option<String>)
        ensures
            match r {
                Some(v) => self@.contains_key(name@) && v@ == self@[name@],
                None => !self@.contains_key(name@),
            },
    {
        let ghost pv = pair_views(self.0@);
        let mut i: usize = self.0.len();
        while i > 0
            invariant
                i <= self.0@.len(),
                pv == pair_views(self.0@),
                pv.len() == self.0@.len(),
                forall|j: int| i <= j < pv.len() ==> (#[trigger] pv[j]).0 != name@,
            decreases i,
    {
            i = i - 1;
            if string_eq(&self.0[i].0, name) {
                let r = self.0[i].1.clone();
                proof {
                    assert(pv[i as int] == (self.0@[i as int].0@, self.0@[i as int].1@));
                    lemma_subst_suffix(pv, i as int + 1, name@);
                    assert(pv.take(i as int + 1).drop_last() =~= pv.take(i as int));
                    assert(pv.take(i as int + 1).last() == pv[i as int]);
                }
                return Some(r);
            }
            proof {
                assert(pv[i as int] == (self.0@[i as int].0@, self.0@[i as int].1@));
            }
        }
        proof {
            lemma_subst_suffix(pv, 0, name@);
            assert(pv.take(0) =~= Seq::<(Seq<char>, Seq<char>)>::empty());
        }
        None
    }
}

fn string_eq(a: &String, b: &String) -> (r: bool)
    ensures
        r == (a@ == b@),
{
    a.eq(b)
}

fn clone_strings(v: &Vec<String>) -> (r: Vec<String>)
    ensures
        r@ == v@,
{
    let mut r: Vec<String> = Vec::new();
    let mut k: usize = 0;
    while k < v.len()
        invariant
            k <= v@.len(),
            r@ == v@.take(k as int),
        decreases v@.len() - k,
    {
        r.push(v[k].clone());
        k = k + 1;
        proof {
            assert(r@ =~= v@.take(k as int));
        }
    }
    proof {
        assert(v@.take(v@.len() as int) =~= v@);
    }
    r
}

// ---------------------------------------------------------------------------
// Atom lookup

/// The position of the first atom of the universe that equals
/// `(name, args)` exactly: same name, same ordered argument list.
pub open spec fn index_of_atom(
    uni: Seq<(Seq<char>, Seq<Seq<char>>)>,
    name: Seq<char>,
    args: Seq<Seq<char>>,
) -> Option<int>
    decreases uni.len(),
{
    if uni.len() == 0 {
        None
    } else if uni[0] == (name, args) {
        Some(0int)
    } else {
        match index_of_atom(uni.drop_first(), name, args) {
            Some(i) => Some(i + 1),
            None => None,
        }
    }
}

/// `index_of_atom` finds the first exact match, and only an exact match.
pub proof fn lemma_index_of_atom(
    uni: Seq<(Seq<char>, Seq<Seq<char>>)>,
    name: Seq<char>,
    args: Seq<Seq<char>>,
)
    ensures
        match index_of_atom(uni, name, args) {
            Some(i) => 0 <= i < uni.len() && uni[i] == (name, args) && forall|j: int|
                0 <= j < i ==> uni[j] != (name, args),
            None => forall|j: int| 0 <= j < uni.len() ==> uni[j] != (name, args),
        },
    decreases uni.len(),
{
    if uni.len() > 0 && uni[0] != (name, args) {
        lemma_index_of_atom(uni.drop_first(), name, args);
        let tail = uni.drop_first();
        match index_of_atom(tail, name, args) {
            Some(i) => {
                assert(uni[i + 1] == tail[i]);
                assert forall|j: int| 0 <= j < i + 1 implies uni[j] != (name, args) by {
                    if j > 0 {
                        assert(uni[j] == tail[j - 1]);
                    }
                }
            },
            None => {
                assert forall|j: int| 0 <= j < uni.len() implies uni[j] != (name, args) by {
                    if j > 0 {
                        assert(uni[j] == tail[j - 1]);
                    }
                }
            },
        }
    }
}

fn names_eq(a: &Vec<String>, b: &Vec<String>) -> (r: bool)
    ensures
        r == (name_seqs(a@) == name_seqs(b@)),
{
    if a.len() != b.len() {
        proof {
            assert(name_seqs(a@).len() != name_seqs(b@).len());
        }
        return false;
    }
    let mut k: usize = 0;
    while k < a.len()
        invariant
            k <= a@.len(),
            a@.len() == b@.len(),
            forall|j: int| 0 <= j < k ==> name_seqs(a@)[j] == name_seqs(b@)[j],
        decreases a@.len() - k,
    {
        if !string_eq(&a[k], &b[k]) {
            proof {
                assert(name_seqs(a@)[k as int] != name_seqs(b@)[k as int]);
            }
            return false;
        }
        proof {
            assert(name_seqs(a@)[k as int] == name_seqs(b@)[k as int]);
        }
        k = k + 1;
    }
    proof {
        assert(name_seqs(a@) =~= name_seqs(b@));
    }
    true
}

/// The id of the ground atom `(name, args)`: the first position of the
/// universe holding exactly that name and argument list.
fn find_atom(output_mapping: &OutputMapping, name: &String, args: &Vec<String>) -> (r: Option<
    usize,
>)
    ensures
        match r {
            Some(i) => index_of_atom(output_mapping@, name@, name_seqs(args@)) == Some(i as int),
            None => index_of_atom(output_mapping@, name@, name_seqs(args@)) is None,
        },
{
    let ghost uni = output_mapping@;
    let ghost target = (name@, name_seqs(args@));
    let mut i: usize = 0;
    while i < output_mapping.0.len()
        invariant
            i <= output_mapping.0@.len(),
            uni == output_mapping@,
            uni.len() == output_mapping.0@.len(),
            target == (name@, name_seqs(args@)),
            forall|j: int| 0 <= j < i ==> uni[j] != target,
        decreases output_mapping.0@.len() - i,
    {
        let entry = &output_mapping.0[i];
        proof {
            assert(uni[i as int] == atom_view(output_mapping.0@[i as int]));
        }
        if string_eq(&entry.0, name) && names_eq(&entry.1, args) {
            proof {
                assert(uni[i as int] =~= target);
                lemma_index_of_atom(uni, name@, name_seqs(args@));
            }
            return Some(i);
        }
        i = i + 1;
    }
    proof {
        lemma_index_of_atom(uni, name@, name_seqs(args@));
    }
    None
}

// ---------------------------------------------------------------------------
// Formula conversion

/// Whether the substitution binds every argument of a call.
pub open spec fn args_resolvable(args: Seq<Seq<char>>, sub: Map<Seq<char>, Seq<char>>) -> bool {
    forall|i: int| 0 <= i < args.len() ==> sub.contains_key(#[trigger] args[i])
}

/// A call's arguments mapped through the substitution, element-wise.
pub open spec fn resolved_args(args: Seq<Seq<char>>, sub: Map<Seq<char>, Seq<char>>) -> Seq<
    Seq<char>,
> {
    args.map_values(|a: Seq<char>| sub[a])
}

/// What converting one call yields: the atom id of the exact ground atom,
/// or an `UnknownAtom` error naming the call and the argument list sought.
pub open spec fn convert_call_spec(
    name: Seq<char>,
    args: Seq<Seq<char>>,
    sub: Map<Seq<char>, Seq<char>>,
    uni: Seq<(Seq<char>, Seq<Seq<char>>)>,
) -> Result<LTLView, ConvErrorView> {
    if !args_resolvable(args, sub) {
        Err(ConvErrorView::UnknownAtom { name, arguments: args })
    } else {
        match index_of_atom(uni, name, resolved_args(args, sub)) {
            Some(i) => Ok(LTLView::Atom(i)),
            None => Err(
                ConvErrorView::UnknownAtom { name, arguments: resolved_args(args, sub) },
            ),
        }
    }
}

/// What converting one symbolic formula yields: the same tree shape over
/// LTL, with each call replaced by its atom id; the first failure wins.
pub open spec fn convert_value_spec(
    v: ValueView,
    sub: Map<Seq<char>, Seq<char>>,
    uni: Seq<(Seq<char>, Seq<Seq<char>>)>,
) -> Result<LTLView, ConvErrorView>
    decreases v, 1int,
{
    match v {
        ValueView::And(vs) => match convert_values_spec(vs, sub, uni) {
            Ok(ls) => Ok(LTLView::And(ls)),
            Err(e) => Err(e),
        },
        ValueView::Or(vs) => match convert_values_spec(vs, sub, uni) {
            Ok(ls) => Ok(LTLView::Or(ls)),
            Err(e) => Err(e),
        },
        ValueView::Not(b) => match convert_value_spec(*b, sub, uni) {
            Ok(l) => Ok(LTLView::Not(Box::new(l))),
            Err(e) => Err(e),
        },
        ValueView::Call(name, args) => convert_call_spec(name, args, sub, uni),
    }
}

/// What converting a list of symbolic formulas yields, in order, stopping
/// at the first failure.
pub open spec fn convert_values_spec(
    vs: Seq<ValueView>,
    sub: Map<Seq<char>, Seq<char>>,
    uni: Seq<(Seq<char>, Seq<Seq<char>>)>,
) -> Result<Seq<LTLView>, ConvErrorView>
    decreases vs, 0int,
{
    if vs.len() == 0 {
        Ok(Seq::empty())
    } else {
        match convert_value_spec(vs[0], sub, uni) {
            Err(e) => Err(e),
            Ok(l) => match convert_values_spec(vs.drop_first(), sub, uni) {
                Err(e) => Err(e),
                Ok(ls) => Ok(seq![l] + ls),
            },
        }
    }
}

/// Converting a list extended by one formula converts the list, then the
/// formula.
proof fn lemma_cvs_push(
    vs: Seq<ValueView>,
    x: ValueView,
    sub: Map<Seq<char>, Seq<char>>,
    uni: Seq<(Seq<char>, Seq<Seq<char>>)>,
)
    ensures
        convert_values_spec(vs.push(x), sub, uni) == (match convert_values_spec(vs, sub, uni) {
            Err(e) => Err(e),
            Ok(ls) => match convert_value_spec(x, sub, uni) {
                Err(e) => Err::<Seq<LTLView>, ConvErrorView>(e),
                Ok(l) => Ok(ls.push(l)),
            },
        }),
    decreases vs.len(),
{
    let pushed = vs.push(x);
    if vs.len() == 0 {
        assert(pushed[0] == x);
        assert(pushed.drop_first() =~= Seq::<ValueView>::empty());
        assert(convert_values_spec(pushed.drop_first(), sub, uni) == Ok::<
            Seq<LTLView>,
            ConvErrorView,
        >(Seq::empty()));
        assert(convert_values_spec(vs, sub, uni) == Ok::<Seq<LTLView>, ConvErrorView>(
            Seq::empty(),
        ));
        match convert_value_spec(x, sub, uni) {
            Ok(l) => {
                assert(convert_values_spec(pushed, sub, uni) == Ok::<Seq<LTLView>, ConvErrorView>(
                    seq![l] + Seq::<LTLView>::empty(),
                ));
                assert(seq![l] + Seq::<LTLView>::empty() =~= Seq::<LTLView>::empty().push(l));
            },
            Err(e) => {
                assert(convert_values_spec(pushed, sub, uni) == Err::<Seq<LTLView>, ConvErrorView>(
                    e,
                ));
            },
        }
    } else {
        lemma_cvs_push(vs.drop_first(), x, sub, uni);
        assert(pushed[0] == vs[0]);
        assert(pushed.drop_first() =~= vs.drop_first().push(x));
        assert(convert_values_spec(pushed.drop_first(), sub, uni) == convert_values_spec(
            vs.drop_first().push(x),
            sub,
            uni,
        ));
        match convert_value_spec(vs[0], sub, uni) {
            Err(e) => {
                assert(convert_values_spec(pushed, sub, uni) == Err::<Seq<LTLView>, ConvErrorView>(
                    e,
                ));
                assert(convert_values_spec(vs, sub, uni) == Err::<Seq<LTLView>, ConvErrorView>(e));
            },
            Ok(l) => {
                assert(convert_values_spec(vs.drop_first().push(x), sub, uni)
                    == convert_values_spec(pushed.drop_first(), sub, uni));
                match convert_values_spec(vs.drop_first(), sub, uni) {
                    Err(e) => {
                        assert(convert_values_spec(pushed, sub, uni) == Err::<
                            Seq<LTLView>,
                            ConvErrorView,
                        >(e));
                        assert(convert_values_spec(vs, sub, uni) == Err::<
                            Seq<LTLView>,
                            ConvErrorView,
                        >(e));
                    },
                    Ok(ls) => {
                        assert(convert_values_spec(vs, sub, uni) == Ok::<
                            Seq<LTLView>,
                            ConvErrorView,
                        >(seq![l] + ls));
                        match convert_value_spec(x, sub, uni) {
                            Err(e) => {
                                assert(convert_values_spec(pushed, sub, uni) == Err::<
                                    Seq<LTLView>,
                                    ConvErrorView,
                                >(e));
                            },
                            Ok(lx) => {
                                assert(convert_values_spec(pushed, sub, uni) == Ok::<
                                    Seq<LTLView>,
                                    ConvErrorView,
                                >(seq![l] + ls.push(lx)));
                                assert(seq![l] + ls.push(lx) =~= (seq![l] + ls).push(lx));
                            },
                        }
                    },
                }
            },
        }
    }
}

/// A failure in a prefix is the failure of the whole list.
proof fn lemma_cvs_err(
    vs: Seq<ValueView>,
    k: int,
    sub: Map<Seq<char>, Seq<char>>,
    uni: Seq<(Seq<char>, Seq<Seq<char>>)>,
)
    requires
        0 <= k <= vs.len(),
        convert_values_spec(vs.take(k), sub, uni) is Err,
    ensures
        convert_values_spec(vs, sub, uni) == convert_values_spec(vs.take(k), sub, uni),
    decreases vs.len(),
{
    if k == 0 {
        assert(vs.take(0) =~= Seq::<ValueView>::empty());
    } else {
        assert(vs.take(k)[0] == vs[0]);
        assert(vs.take(k).drop_first() =~= vs.drop_first().take(k - 1));
        match convert_value_spec(vs[0], sub, uni) {
            Err(_) => {},
            Ok(_) => {
                lemma_cvs_err(vs.drop_first(), k - 1, sub, uni);
            },
        }
    }
}

/// The view of a conversion result, element-wise.
pub open spec fn result_view(r: Result<LTL, ConvError>) -> Result<LTLView, ConvErrorView> {
    match r {
        Ok(l) => Ok(l@),
        Err(e) => Err(e@),
    }
}

/// Converts a list of symbolic formulas in order, stopping at the first
/// failure.
fn convert_values_exec(
    values: &Vec<Value>,
    substitution: &Substitution,
    output_mapping: &OutputMapping,
) -> (r: Result<Vec<LTL>, ConvError>)
    ensures
        match r {
            Ok(ls) => convert_values_spec(value_views(values@), substitution@, output_mapping@)
                == Ok::<Seq<LTLView>, ConvErrorView>(ltl_views(ls@)),
            Err(e) => convert_values_spec(value_views(values@), substitution@, output_mapping@)
                == Err::<Seq<LTLView>, ConvErrorView>(e@),
        },
    decreases values@, 0int,
{
    let ghost vv = value_views(values@);
    proof {
        lemma_value_views(values@);
    }
    let mut children: Vec<LTL> = Vec::new();
    let mut i: usize = 0;
    proof {
        assert(vv.take(0) =~= Seq::<ValueView>::empty());
        assert(ltl_views(children@) =~= Seq::<LTLView>::empty());
    }
    while i < values.len()
        invariant
            i <= values@.len(),
            vv == value_views(values@),
            vv.len() == values@.len(),
            forall|j: int| 0 <= j < vv.len() ==> vv[j] == value_view(values@[j]),
            convert_values_spec(vv.take(i as int), substitution@, output_mapping@)
                == Ok::<Seq<LTLView>, ConvErrorView>(ltl_views(children@)),
        decreases values@.len() - i,
    {
        let ghost c0 = children@;
        match convert_value(&values[i], substitution, output_mapping) {
            Err(e) => {
                proof {
                    lemma_cvs_push(vv.take(i as int), vv[i as int], substitution@, output_mapping@);
                    assert(vv.take(i as int).push(vv[i as int]) =~= vv.take(i as int + 1));
                    lemma_cvs_err(vv, i as int + 1, substitution@, output_mapping@);
                }
                return Err(e);
            },
            Ok(l) => {
                let ghost le = l;
                children.push(l);
                proof {
                    lemma_cvs_push(vv.take(i as int), vv[i as int], substitution@, output_mapping@);
                    assert(vv.take(i as int).push(vv[i as int]) =~= vv.take(i as int + 1));
                    lemma_ltl_views(c0);
                    lemma_ltl_views(c0.push(le));
                    assert(ltl_views(c0.push(le)) =~= ltl_views(c0).push(le@));
                }
            },
        }
        i = i + 1;
    }
    proof {
        assert(vv.take(vv.len() as int) =~= vv);
    }
    Ok(children)
}

/// Recursively rewrites a symbolic formula into an LTL tree over atom ids:
/// `And`/`Or`/`Not` map to the same node over converted children, and a
/// call maps to the id of the exact ground atom named by the call's
/// arguments mapped through the substitution.  Fails with `UnknownAtom`,
/// naming the offending call, when no such atom exists.
pub fn convert_value(
    value: &Value,
    substitution: &Substitution,
    output_mapping: &OutputMapping,
) -> (r: Result<LTL, ConvError>)
    ensures
        result_view(r) == convert_value_spec(value@, substitution@, output_mapping@),
    decreases *value, 1int,
{
    match value {
        Value::And(vs) => match convert_values_exec(vs, substitution, output_mapping) {
            Ok(children) => Ok(LTL::And(children)),
            Err(e) => Err(e),
        },
        Value::Or(vs) => match convert_values_exec(vs, substitution, output_mapping) {
            Ok(children) => Ok(LTL::Or(children)),
            Err(e) => Err(e),
        },
        Value::Not(b) => match convert_value(b, substitution, output_mapping) {
            Ok(l) => Ok(LTL::Not(Box::new(l))),
            Err(e) => Err(e),
        },
        Value::Call(name, args) => {
            let ghost argn = name_seqs(args@);
            let mut ground: Vec<String> = Vec::new();
            let mut k: usize = 0;
            proof {
                assert(name_seqs(ground@) =~= resolved_args(argn.take(0), substitution@));
            }
            while k < args.len()
                invariant
                    k <= args@.len(),
                    argn == name_seqs(args@),
                    argn.len() == args@.len(),
                    value@ == ValueView::Call(name@, argn),
                    forall|j: int| 0 <= j < k ==> substitution@.contains_key(#[trigger] argn[j]),
                    name_seqs(ground@) == resolved_args(argn.take(k as int), substitution@),
                decreases args@.len() - k,
            {
                proof {
                    assert(argn[k as int] == args@[k as int]@);
                }
                match substitution.get(&args[k]) {
                    Some(v) => {
                        let ghost g0 = ground@;
                        let ghost ve = v@;
                        ground.push(v);
                        k = k + 1;
                        proof {
                            assert(name_seqs(ground@) =~~= name_seqs(g0).push(ve));
                            assert(argn.take(k as int) =~= argn.take(k - 1).push(argn[k - 1]));
                            assert(resolved_args(argn.take(k as int), substitution@)
                                =~~= resolved_args(argn.take(k - 1), substitution@).push(
                                substitution@[argn[k - 1]],
                            ));
                        }
                    },
                    None => {
                        proof {
                            assert(!args_resolvable(argn, substitution@));
                            assert(convert_value_spec(value@, substitution@, output_mapping@)
                                == convert_call_spec(name@, argn, substitution@, output_mapping@));
                        }
                        return Err(
                            ConvError::UnknownAtom {
                                name: name.clone(),
                                arguments: clone_strings(args),
                            },
                        );
                    },
                }
            }
            proof {
                assert(argn.take(argn.len() as int) =~= argn);
                assert(args_resolvable(argn, substitution@));
            }
            match find_atom(output_mapping, name, &ground) {
                Some(i) => Ok(LTL::Atom(i)),
                None => Err(ConvError::UnknownAtom { name: name.clone(), arguments: ground }),
            }
        },
    }
}



// ---------------------------------------------------------------------------
// Action conversion

/// Whether a parameter/argument pair type-checks: the parameter declares a
/// type and it equals the argument's type.
pub open spec fn pair_ok(p: ParameterView, v: VariableView) -> bool {
    &&& p.data_type is Some
    &&& p.data_type->0 == v.data_type
}

/// The error of the first parameter/argument pair that fails the check:
/// a missing parameter type, or a type that differs from the argument's.
pub open spec fn first_pair_error(
    params: Seq<ParameterView>,
    args: Seq<VariableView>,
    aname: Seq<char>,
) -> Option<ConvErrorView>
    decreases params.len(),
{
    if params.len() == 0 || args.len() == 0 {
        None
    } else if params[0].data_type is None {
        Some(ConvErrorView::MissingType { owner: aname, parameter: params[0].name })
    } else if params[0].data_type->0 != args[0].data_type {
        Some(
            ConvErrorView::TypeMismatch {
                action: aname,
                parameter: params[0].name,
                expected: params[0].data_type->0,
                actual: args[0].data_type,
            },
        )
    } else {
        first_pair_error(params.drop_first(), args.drop_first(), aname)
    }
}

/// If the pairs before `k` check and pair `k` does not, the reported pair
/// error belongs to pair `k`.
proof fn lemma_first_pair_error(
    params: Seq<ParameterView>,
    args: Seq<VariableView>,
    aname: Seq<char>,
    k: int,
)
    requires
        params.len() == args.len(),
        0 <= k < params.len(),
        forall|i: int| 0 <= i < k ==> pair_ok(#[trigger] params[i], args[i]),
        !pair_ok(params[k], args[k]),
    ensures
        first_pair_error(params, args, aname) == (if params[k].data_type is None {
            Some(ConvErrorView::MissingType { owner: aname, parameter: params[k].name })
        } else {
            Some(
                ConvErrorView::TypeMismatch {
                    action: aname,
                    parameter: params[k].name,
                    expected: params[k].data_type->0,
                    actual: args[k].data_type,
                },
            )
        }),
    decreases k,
{
    if k > 0 {
        lemma_first_pair_error(params.drop_first(), args.drop_first(), aname, k - 1);
    }
}

/// If every pair checks, no pair error is reported.
proof fn lemma_no_pair_error(params: Seq<ParameterView>, args: Seq<VariableView>, aname: Seq<char>)
    requires
        params.len() == args.len(),
        forall|i: int| 0 <= i < params.len() ==> pair_ok(#[trigger] params[i], args[i]),
    ensures
        first_pair_error(params, args, aname) is None,
    decreases params.len(),
{
    if params.len() > 0 {
        lemma_no_pair_error(params.drop_first(), args.drop_first(), aname);
    }
}

/// The substitution pairs an action instance is built from: each parameter
/// name zipped with the concrete argument name at the same position.
pub open spec fn zip_subst(params: Seq<ParameterView>, args: Seq<VariableView>) -> Seq<
    (Seq<char>, Seq<char>),
> {
    Seq::new(params.len(), |i: int| (params[i].name, args[i].name))
}

/// What converting one ground action instance yields: after the pairwise
/// type check, the transition axiom
/// `Globally((call AND And(preconditions)) IMPLIES Next(And(effects)))`
/// over the instance's substitution, or the first failure on the way.
pub open spec fn convert_instance_spec(
    a: ActionView,
    args: Seq<VariableView>,
    uni: Seq<(Seq<char>, Seq<Seq<char>>)>,
) -> Result<LTLView, ConvErrorView> {
    match first_pair_error(a.parameters, args, a.name) {
        Some(e) => Err(e),
        None => {
            let sub = subst_map(zip_subst(a.parameters, args));
            match convert_values_spec(a.preconditions, sub, uni) {
                Err(e) => Err(e),
                Ok(pres) => match convert_values_spec(a.effects, sub, uni) {
                    Err(e) => Err(e),
                    Ok(effs) => match index_of_atom(uni, a.name, tuple_names(args)) {
                        None => Err(
                            ConvErrorView::UnknownAtom {
                                name: a.name,
                                arguments: tuple_names(args),
                            },
                        ),
                        Some(id) => Ok(
                            LTLView::Globally(
                                Box::new(
                                    implies_spec(
                                        and_spec(LTLView::Atom(id), LTLView::And(pres)),
                                        LTLView::Next(Box::new(LTLView::And(effs))),
                                    ),
                                ),
                            ),
                        ),
                    },
                },
            }
        },
    }
}

/// What converting every ground instance of an action yields: the
/// instance formulas folded with the conjunction constructor, seeded with
/// `Top`, or the first failure on the way.
pub open spec fn convert_instances_spec(
    a: ActionView,
    tuples: Seq<Seq<VariableView>>,
    uni: Seq<(Seq<char>, Seq<Seq<char>>)>,
) -> Result<LTLView, ConvErrorView>
    decreases tuples.len(),
{
    if tuples.len() == 0 {
        Ok(LTLView::Top)
    } else {
        match convert_instances_spec(a, tuples.drop_last(), uni) {
            Err(e) => Err(e),
            Ok(acc) => match convert_instance_spec(a, tuples.last(), uni) {
                Err(e) => Err(e),
                Ok(f) => Ok(and_spec(acc, f)),
            },
        }
    }
}

/// A failure on a prefix of the instances is the failure of the whole
/// fold.
proof fn lemma_instances_err(
    a: ActionView,
    tuples: Seq<Seq<VariableView>>,
    uni: Seq<(Seq<char>, Seq<Seq<char>>)>,
    k: int,
)
    requires
        0 <= k <= tuples.len(),
        convert_instances_spec(a, tuples.take(k), uni) is Err,
    ensures
        convert_instances_spec(a, tuples, uni) == convert_instances_spec(a, tuples.take(k), uni),
    decreases tuples.len() - k,
{
    if k < tuples.len() {
        assert(tuples.take(k + 1).drop_last() =~= tuples.take(k));
        assert(convert_instances_spec(a, tuples.take(k + 1), uni) == convert_instances_spec(
            a,
            tuples.take(k),
            uni,
        ));
        lemma_instances_err(a, tuples, uni, k + 1);
    } else {
        assert(tuples.take(k) =~= tuples);
    }
}

/// What `convert_action` yields: the fold of every ground instance of the
/// action, the instances enumerated exactly as the universe enumerates
/// them; or the first parameter without a declared type.
pub open spec fn convert_action_spec(
    a: ActionView,
    p: ProblemView,
    uni: Seq<(Seq<char>, Seq<Seq<char>>)>,
) -> Result<LTLView, ConvErrorView> {
    if !sig_all_typed(a.parameters) {
        Err(
            ConvErrorView::MissingType {
                owner: a.name,
                parameter: first_untyped_param(a.parameters).name,
            },
        )
    } else {
        convert_instances_spec(a, product(var_lists_of(a.parameters, p.variables)), uni)
    }
}

/// Converts one ground instance of an action: checks each parameter
/// against its argument, builds the substitution positionally, converts
/// preconditions and effects, looks up the instance's call atom, and
/// assembles the transition axiom.
pub fn convert_action_with_param_set(
    action: &Action,
    arguments: &Vec<Variable>,
    output_mapping: &OutputMapping,
) -> (r: Result<LTL, ConvError>)
    requires
        arguments@.len() == action.parameters@.len(),
    ensures
        result_view(r) == convert_instance_spec(action@, var_views(arguments@), output_mapping@),
{
    let ghost av = action@;
    let ghost argv = var_views(arguments@);
    proof {
        assert(av.parameters.len() == action.parameters@.len());
        assert(argv.len() == arguments@.len());
    }
    let mut pairs: Vec<(String, String)> = Vec::new();
    proof {
        assert(pair_views(pairs@) =~= zip_subst(av.parameters, argv).take(0));
    }
    let mut i: usize = 0;
    while i < action.parameters.len()
        invariant
            i <= action.parameters@.len(),
            arguments@.len() == action.parameters@.len(),
            av == action@,
            argv == var_views(arguments@),
            av.parameters.len() == action.parameters@.len(),
            argv.len() == arguments@.len(),
            forall|k: int| 0 <= k < i ==> pair_ok(#[trigger] av.parameters[k], argv[k]),
            pair_views(pairs@) == zip_subst(av.parameters, argv).take(i as int),
        decreases action.parameters@.len() - i,
    {
        let p = &action.parameters[i];
        proof {
            assert(av.parameters[i as int] == action.parameters@[i as int]@);
            assert(argv[i as int] == arguments@[i as int]@);
        }
        match &p.data_type {
            None => {
                proof {
                    lemma_first_pair_error(av.parameters, argv, av.name, i as int);
                }
                return Err(
                    ConvError::MissingType {
                        owner: action.name.clone(),
                        parameter: p.name.clone(),
                    },
                );
            },
            Some(t) => {
                if !string_eq(t, &arguments[i].data_type) {
                    proof {
                        lemma_first_pair_error(av.parameters, argv, av.name, i as int);
                    }
                    return Err(
                        ConvError::TypeMismatch {
                            action: action.name.clone(),
                            parameter: p.name.clone(),
                            expected: t.clone(),
                            actual: arguments[i].data_type.clone(),
                        },
                    );
                }
                let ghost p0 = pairs@;
                let pr = (p.name.clone(), arguments[i].name.clone());
                let ghost prv = pr;
                pairs.push(pr);
                i = i + 1;
                proof {
                    assert(pair_views(pairs@) =~~= pair_views(p0).push((prv.0@, prv.1@)));
                    assert(zip_subst(av.parameters, argv).take(i as int) =~= zip_subst(
                        av.parameters,
                        argv,
                    ).take(i - 1).push(zip_subst(av.parameters, argv)[i - 1]));
                    assert(zip_subst(av.parameters, argv)[i - 1] == (
                        av.parameters[i - 1].name,
                        argv[i - 1].name,
                    ));
                }
            },
        }
    }
    proof {
        lemma_no_pair_error(av.parameters, argv, av.name);
        assert(zip_subst(av.parameters, argv).take(av.parameters.len() as int) =~= zip_subst(
            av.parameters,
            argv,
        ));
    }
    let substitution = Substitution(pairs);
    let ghost sub = subst_map(zip_subst(av.parameters, argv));
    proof {
        assert(substitution@ == sub);
    }
    match convert_values_exec(&action.preconditions, &substitution, output_mapping) {
        Err(e) => {
            proof {
                assert(value_views(action.preconditions@) == av.preconditions);
            }
            Err(e)
        },
        Ok(pres) => {
            proof {
                assert(value_views(action.preconditions@) == av.preconditions);
            }
            match convert_values_exec(&action.effects, &substitution, output_mapping) {
                Err(e) => {
                    proof {
                        assert(value_views(action.effects@) == av.effects);
                    }
                    Err(e)
                },
                Ok(effs) => {
                    proof {
                        assert(value_views(action.effects@) == av.effects);
                    }
                    let names = variable_names(arguments);
                    match find_atom(output_mapping, &action.name, &names) {
                        None => Err(
                            ConvError::UnknownAtom {
                                name: action.name.clone(),
                                arguments: names,
                            },
                        ),
                        Some(id) => {
                            let call = LTL::Atom(id);
                            let pre = LTL::And(pres);
                            let eff = LTL::And(effs);
                            let body = call.and(pre).implies(eff.next());
                            let r = LTL::Globally(Box::new(body));
                            Ok(r)
                        },
                    }
                },
            }
        },
    }
}

/// Converts one action against the whole problem: re-derives the action's
/// ground argument tuples in the same cartesian order the universe uses,
/// converts each instance, and folds the transition axioms with the
/// conjunction constructor, seeded with `Top`.
pub fn convert_action(
    action: &Action,
    problem: &Problem,
    output_mapping: &OutputMapping,
) -> (r: Result<LTL, ConvError>)
    ensures
        result_view(r) == convert_action_spec(action@, problem@, output_mapping@),
{
    let ghost av = action@;
    let mut lists: Vec<Vec<Variable>> = Vec::new();
    proof {
        assert(var_list_views(lists@) =~~= var_lists_of(av.parameters.take(0), problem@.variables));
    }
    let mut i: usize = 0;
    while i < action.parameters.len()
        invariant
            i <= action.parameters@.len(),
            av == action@,
            av.parameters.len() == action.parameters@.len(),
            forall|k: int| 0 <= k < i ==> (#[trigger] av.parameters[k]).data_type is Some,
            var_list_views(lists@) == var_lists_of(av.parameters.take(i as int), problem@.variables),
        decreases action.parameters@.len() - i,
    {
        let p = &action.parameters[i];
        proof {
            assert(av.parameters[i as int] == action.parameters@[i as int]@);
        }
        match &p.data_type {
            None => {
                proof {
                    lemma_first_untyped(av.parameters, i as int);
                }
                return Err(
                    ConvError::MissingType {
                        owner: action.name.clone(),
                        parameter: p.name.clone(),
                    },
                );
            },
            Some(t) => {
                lists.push(problem.variables_of_type(t.as_str()));
            },
        }
        i = i + 1;
        proof {
            assert(var_lists_of(av.parameters.take(i as int), problem@.variables)
                =~~= var_lists_of(av.parameters.take(i - 1), problem@.variables).push(
                vars_of_type_spec(problem@.variables, av.parameters[i - 1].data_type->0),
            ));
            assert(var_list_views(lists@) =~~= var_lists_of(
                av.parameters.take(i as int),
                problem@.variables,
            ));
        }
    }
    proof {
        assert(av.parameters.take(av.parameters.len() as int) =~= av.parameters);
    }
    let tuples = product_from(&lists, 0);
    let ghost tv = var_list_views(tuples@);
    proof {
        assert(var_list_views(lists@).skip(0) =~~= var_list_views(lists@));
        assert(tv == product(var_lists_of(av.parameters, problem@.variables)));
        lemma_product_tuple_len(var_lists_of(av.parameters, problem@.variables));
        assert(var_lists_of(av.parameters, problem@.variables).len() == av.parameters.len());
    }
    let mut acc = LTL::Top;
    let mut m: usize = 0;
    proof {
        assert(convert_instances_spec(av, tv.take(0), output_mapping@) == Ok::<
            LTLView,
            ConvErrorView,
        >(LTLView::Top));
    }
    while m < tuples.len()
        invariant
            m <= tuples@.len(),
            av == action@,
            av.parameters.len() == action.parameters@.len(),
            tv == var_list_views(tuples@),
            tv.len() == tuples@.len(),
            tv == product(var_lists_of(av.parameters, problem@.variables)),
            sig_all_typed(av.parameters),
            forall|k: int| 0 <= k < tv.len() ==> (#[trigger] tv[k]).len() == av.parameters.len(),
            convert_instances_spec(av, tv.take(m as int), output_mapping@) == Ok::<
                LTLView,
                ConvErrorView,
            >(acc@),
        decreases tuples@.len() - m,
    {
        let ghost acc0 = acc@;
        proof {
            assert(tv[m as int] == var_views(tuples@[m as int]@));
            assert(tuples@[m as int]@.len() == tv[m as int].len());
        }
        match convert_action_with_param_set(action, &tuples[m], output_mapping) {
            Err(e) => {
                proof {
                    assert(tv.take(m as int + 1).drop_last() =~= tv.take(m as int));
                    assert(tv.take(m as int + 1).last() == tv[m as int]);
                    assert(convert_instances_spec(av, tv.take(m as int + 1), output_mapping@)
                        == Err::<LTLView, ConvErrorView>(e@));
                    lemma_instances_err(av, tv, output_mapping@, m as int + 1);
                    assert(tv.take(tv.len() as int) =~= tv);
                }
                return Err(e);
            },
            Ok(f) => {
                let ghost fv = f@;
                acc = acc.and(f);
                proof {
                    assert(tv.take(m as int + 1).drop_last() =~= tv.take(m as int));
                    assert(tv.take(m as int + 1).last() == tv[m as int]);
                    assert(convert_instances_spec(av, tv.take(m as int + 1), output_mapping@)
                        == Ok::<LTLView, ConvErrorView>(and_spec(acc0, fv)));
                }
            },
        }
        m = m + 1;
    }
    proof {
        assert(tv.take(tv.len() as int) =~= tv);
    }
    Ok(acc)
}

// ---------------------------------------------------------------------------
// Laws

/// Enumeration determinism: the atom universe is a function of the domain
/// and problem values alone, so two enumerations of the same pair agree
/// atom for atom, id for id.
pub proof fn lemma_enumeration_deterministic(
    d: DomainView,
    p: ProblemView,
    u1: Seq<(Seq<char>, Seq<Seq<char>>)>,
    u2: Seq<(Seq<char>, Seq<Seq<char>>)>,
)
    requires
        u1 == universe_of(d, p),
        u2 == universe_of(d, p),
    ensures
        u1 == u2,
{
}

/// Cartesian completeness: a signature contributes one ground atom per
/// element of the cartesian product of its parameters' candidate lists,
/// so their number is the product of the candidate counts.
pub proof fn lemma_cartesian_completeness(
    name: Seq<char>,
    params: Seq<ParameterView>,
    vars: Seq<VariableView>,
)
    ensures
        sig_atoms(name, params, vars).len() == product_count(var_lists_of(params, vars)),
{
    lemma_product_len(var_lists_of(params, vars));
}

/// A factor with no candidates empties the whole product.
pub proof fn lemma_empty_factor<A>(lists: Seq<Seq<A>>, k: int)
    requires
        0 <= k < lists.len(),
        lists[k].len() == 0,
    ensures
        product_count(lists) == 0,
    decreases k,
{
    if k > 0 {
        lemma_empty_factor(lists.drop_first(), k - 1);
        assert(lists[0].len() * product_count(lists.drop_first()) == 0) by (nonlinear_arith)
            requires
                product_count(lists.drop_first()) == 0,
        ;
    } else {
        assert(lists[0].len() * product_count(lists.drop_first()) == 0) by (nonlinear_arith)
            requires
                lists[0].len() == 0,
        ;
    }
}

/// Lookup exactness: the id found for a name/argument query belongs to an
/// atom equal to the query, so two queries that differ — in name or in
/// argument order — resolve to different ids.
pub proof fn lemma_lookup_exactness(
    uni: Seq<(Seq<char>, Seq<Seq<char>>)>,
    name: Seq<char>,
    args1: Seq<Seq<char>>,
    args2: Seq<Seq<char>>,
    i1: int,
    i2: int,
)
    requires
        index_of_atom(uni, name, args1) == Some(i1),
        index_of_atom(uni, name, args2) == Some(i2),
        args1 != args2,
    ensures
        i1 != i2,
{
    lemma_index_of_atom(uni, name, args1);
    lemma_index_of_atom(uni, name, args2);
}

/// A vacuous action: when some parameter has no matching problem
/// variable, the action has no ground instance and converts to `Top`.
pub proof fn lemma_vacuous_action(
    a: ActionView,
    p: ProblemView,
    uni: Seq<(Seq<char>, Seq<Seq<char>>)>,
    k: int,
)
    requires
        sig_all_typed(a.parameters),
        0 <= k < a.parameters.len(),
        vars_of_type_spec(p.variables, a.parameters[k].data_type->0).len() == 0,
    ensures
        convert_action_spec(a, p, uni) == Ok::<LTLView, ConvErrorView>(LTLView::Top),
{
    let lists = var_lists_of(a.parameters, p.variables);
    assert(lists[k] == vars_of_type_spec(p.variables, a.parameters[k].data_type->0));
    lemma_empty_factor(lists, k);
    lemma_product_len(lists);
    assert(product(lists).len() == 0);
    assert(convert_instances_spec(a, product(lists), uni) == Ok::<LTLView, ConvErrorView>(
        LTLView::Top,
    ));
}

/// An empty precondition list converts to `And` of no conjuncts, which
/// flattens away under the conjunction constructor rather than being
/// special-cased: conjoined after a call atom it leaves `And` of just
/// that atom.
pub proof fn lemma_empty_preconditions(
    id: int,
    sub: Map<Seq<char>, Seq<char>>,
    uni: Seq<(Seq<char>, Seq<Seq<char>>)>,
)
    ensures
        convert_values_spec(Seq::empty(), sub, uni) == Ok::<Seq<LTLView>, ConvErrorView>(
            Seq::empty(),
        ),
        and_spec(LTLView::Atom(id), LTLView::And(Seq::empty())) == LTLView::And(
            seq![LTLView::Atom(id)],
        ),
{
    assert(and_children(LTLView::Atom(id)) + and_children(LTLView::And(Seq::empty()))
        =~= seq![LTLView::Atom(id)]);
}


} // verus!
