//! The planning data model: typed predicates and parameterized actions of a
//! domain, and the typed variable pool of a problem.
//!
//! `Value` is the symbolic formula tree that preconditions and effects are
//! written in: boolean connectives over named calls whose arguments are an
//! action's own parameter names, resolved to concrete problem variables only
//! during conversion.

use vstd::prelude::*;

verus! {

/// A formal parameter of a predicate or action signature.  A parameter
/// without a declared type is invalid input for grounding.
#[derive(Debug, PartialEq, Eq)]
pub struct Parameter {
    pub name: String,
    pub data_type: Option<String>,
}

/// Mathematical model of a `Parameter`.
#[verifier::ext_equal]
pub ghost struct ParameterView {
    pub name: Seq<char>,
    pub data_type: Option<Seq<char>>,
}

impl View for Parameter {
    type V = ParameterView;

    open spec fn view(&self) -> ParameterView {
        ParameterView {
            name: self.name@,
            data_type: match self.data_type {
                Some(ref t) => Some(t@),
                None => None,
            },
        }
    }
}

/// A relation schema declared by the domain: a name and an ordered
/// parameter list, with no body.
#[derive(Debug, PartialEq, Eq)]
pub struct Predicate {
    pub name: String,
    pub parameters: Vec<Parameter>,
}

/// Mathematical model of a `Predicate`.
#[verifier::ext_equal]
pub ghost struct PredicateView {
    pub name: Seq<char>,
    pub parameters: Seq<ParameterView>,
}

impl View for Predicate {
    type V = PredicateView;

    open spec fn view(&self) -> PredicateView {
        PredicateView {
            name: self.name@,
            parameters: self.parameters@.map_values(|p: Parameter| p@),
        }
    }
}

/// A symbolic formula over parameter names: conjunction, disjunction,
/// negation, and a named call applied to parameter names.
#[derive(Debug, PartialEq, Eq)]
pub enum Value {
    And(Vec<Value>),
    Or(Vec<Value>),
    Not(Box<Value>),
    Call(String, Vec<String>),
}

/// Mathematical model of a `Value` tree.
#[verifier::ext_equal]
pub ghost enum ValueView {
    And(Seq<ValueView>),
    Or(Seq<ValueView>),
    Not(Box<ValueView>),
    Call(Seq<char>, Seq<Seq<char>>),
}

/// The views of a list of names, element-wise.
pub open spec fn name_seqs(s: Seq<String>) -> Seq<Seq<char>> {
    s.map_values(|x: String| x@)
}

/// The mathematical value of a symbolic formula tree.
pub open spec fn value_view(v: Value) -> ValueView
    decreases v, 1int,
{
    match v {
        Value::And(vs) => ValueView::And(value_views(vs@)),
        Value::Or(vs) => ValueView::Or(value_views(vs@)),
        Value::Not(b) => ValueView::Not(Box::new(value_view(*b))),
        Value::Call(name, args) => ValueView::Call(name@, name_seqs(args@)),
    }
}

/// The mathematical values of a list of symbolic formulas, element-wise.
pub open spec fn value_views(vs: Seq<Value>) -> Seq<ValueView>
    decreases vs, 0int,
{
    if vs.len() == 0 {
        Seq::empty()
    } else {
        seq![value_view(vs[0])] + value_views(vs.drop_first())
    }
}

/// `value_views` maps `value_view` over its argument, position by position.
pub proof fn lemma_value_views(vs: Seq<Value>)
    ensures
        value_views(vs).len() == vs.len(),
        forall|i: int| 0 <= i < vs.len() ==> value_views(vs)[i] == value_view(vs[i]),
    decreases vs.len(),
{
    if vs.len() > 0 {
        lemma_value_views(vs.drop_first());
    }
}

impl View for Value {
    type V = ValueView;

    open spec fn view(&self) -> ValueView {
        value_view(*self)
    }
}

/// A domain-level action: scoped symbolic parameters, and preconditions
/// and effects written over those parameter names.
#[derive(Debug, PartialEq, Eq)]
pub struct Action {
    pub name: String,
    pub parameters: Vec<Parameter>,
    pub preconditions: Vec<Value>,
    pub effects: Vec<Value>,
}

/// Mathematical model of an `Action`.
#[verifier::ext_equal]
pub ghost struct ActionView {
    pub name: Seq<char>,
    pub parameters: Seq<ParameterView>,
    pub preconditions: Seq<ValueView>,
    pub effects: Seq<ValueView>,
}

impl View for Action {
    type V = ActionView;

    open spec fn view(&self) -> ActionView {
        ActionView {
            name: self.name@,
            parameters: self.parameters@.map_values(|p: Parameter| p@),
            preconditions: value_views(self.preconditions@),
            effects: value_views(self.effects@),
        }
    }
}

/// A planning domain: named sorts, relation schemas, and actions.
#[derive(Debug, PartialEq, Eq)]
pub struct Domain {
    pub name: String,
    pub types: Vec<(String, Option<String>)>,
    pub predicates: Vec<Predicate>,
    pub actions: Vec<Action>,
}

/// Mathematical model of a `Domain`.
#[verifier::ext_equal]
pub ghost struct DomainView {
    pub name: Seq<char>,
    pub types: Seq<(Seq<char>, Option<Seq<char>>)>,
    pub predicates: Seq<PredicateView>,
    pub actions: Seq<ActionView>,
}

impl View for Domain {
    type V = DomainView;

    open spec fn view(&self) -> DomainView {
        DomainView {
            name: self.name@,
            types: self.types@.map_values(
                |t: (String, Option<String>)|
                    (
                        t.0@,
                        match t.1 {
                            Some(ref s) => Some(s@),
                            None => None,
                        },
                    ),
            ),
            predicates: self.predicates@.map_values(|p: Predicate| p@),
            actions: self.actions@.map_values(|a: Action| a@),
        }
    }
}

/// A concrete object of the problem: a name and its declared type, which is
/// always present.
#[derive(Debug, PartialEq, Eq)]
pub struct Variable {
    pub name: String,
    pub data_type: String,
}

/// Mathematical model of a `Variable`.
#[verifier::ext_equal]
pub ghost struct VariableView {
    pub name: Seq<char>,
    pub data_type: Seq<char>,
}

impl View for Variable {
    type V = VariableView;

    open spec fn view(&self) -> VariableView {
        VariableView { name: self.name@, data_type: self.data_type@ }
    }
}

/// A planning problem: the typed variable pool and the initial and goal
/// formulas of a named domain.
#[derive(Debug, PartialEq, Eq)]
pub struct Problem {
    pub name: String,
    pub domain: String,
    pub variables: Vec<Variable>,
    pub init: Vec<Value>,
    pub goal: Vec<Value>,
}

/// Mathematical model of a `Problem`.
#[verifier::ext_equal]
pub ghost struct ProblemView {
    pub name: Seq<char>,
    pub domain: Seq<char>,
    pub variables: Seq<VariableView>,
    pub init: Seq<ValueView>,
    pub goal: Seq<ValueView>,
}

impl View for Problem {
    type V = ProblemView;

    open spec fn view(&self) -> ProblemView {
        ProblemView {
            name: self.name@,
            domain: self.domain@,
            variables: self.variables@.map_values(|v: Variable| v@),
            init: value_views(self.init@),
            goal: value_views(self.goal@),
        }
    }
}

/// The problem variables whose declared type equals `t`, in declaration
/// order, duplicates preserved.
pub open spec fn vars_of_type_spec(vars: Seq<VariableView>, t: Seq<char>) -> Seq<VariableView> {
    vars.filter(|v: VariableView| v.data_type == t)
}

impl Problem {
    /// All problem variables whose declared type equals `data_type`,
    /// preserving declaration order and duplicates.
    pub fn variables_of_type(&self, data_type: &str) -> (r: Vec<Variable>)
        ensures
            r@.map_values(|v: Variable| v@) == vars_of_type_spec(self@.variables, data_type@),
    {
        let key: String = data_type.to_owned();
        let mut r: Vec<Variable> = Vec::new();
        let mut i: usize = 0;
        proof {
            reveal(Seq::filter);
            assert(r@.map_values(|v: Variable| v@) =~= vars_of_type_spec(
                self@.variables.take(0),
                data_type@,
            ));
        }
        while i < self.variables.len()
            invariant
                i <= self.variables.len(),
                key@ == data_type@,
                r@.map_values(|v: Variable| v@) == vars_of_type_spec(
                    self@.variables.take(i as int),
                    data_type@,
                ),
            decreases self.variables.len() - i,
        {
            let ghost prefix = self@.variables.take(i as int);
            let v = &self.variables[i];
            if v.data_type == key {
                r.push(Variable { name: v.name.clone(), data_type: v.data_type.clone() });
            }
            i = i + 1;
            proof {
                reveal(Seq::filter);
                assert(self@.variables.take(i as int).drop_last() =~= prefix);
                assert(self@.variables.take(i as int).last() == self.variables@[i - 1]@);
                assert(r@.map_values(|v: Variable| v@) =~= vars_of_type_spec(
                    self@.variables.take(i as int),
                    data_type@,
                ));
            }
        }
        proof {
            assert(self@.variables.take(self.variables@.len() as int) =~= self@.variables);
        }
        r
    }
}

} // verus!
