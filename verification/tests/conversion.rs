use pdc_ltl::convert::{
    collect_output, convert_action, convert_action_with_param_set, convert_value, ConvError,
    OutputMapping, Substitution,
};
use pdc_ltl::ltl::LTL;
use pdc_ltl::pdc::{Action, Domain, Parameter, Predicate, Problem, Value, Variable};

fn param(name: &str, data_type: Option<&str>) -> Parameter {
    Parameter { name: name.to_string(), data_type: data_type.map(|t| t.to_string()) }
}

fn variable(name: &str, data_type: &str) -> Variable {
    Variable { name: name.to_string(), data_type: data_type.to_string() }
}

fn call(name: &str, args: &[&str]) -> Value {
    Value::Call(name.to_string(), args.iter().map(|a| a.to_string()).collect())
}

fn sample_domain() -> Domain {
    Domain {
        name: "Domain".to_string(),
        types: vec![("Type".to_string(), None)],
        predicates: vec![
            Predicate {
                name: "p0".to_string(),
                parameters: vec![param("a", Some("Type")), param("b", Some("Type"))],
            },
            Predicate { name: "p1".to_string(), parameters: vec![param("c", Some("Type"))] },
        ],
        actions: vec![Action {
            name: "a0".to_string(),
            parameters: vec![param("q0", Some("Type")), param("q1", Some("Type"))],
            preconditions: vec![call("p0", &["q0", "q1"])],
            effects: vec![Value::And(vec![
                call("p1", &["q0"]),
                Value::Not(Box::new(call("p1", &["q1"]))),
            ])],
        }],
    }
}

fn sample_problem(domain: &Domain) -> Problem {
    Problem {
        name: "Problem".to_string(),
        domain: domain.name.clone(),
        variables: vec![variable("v1", "Type"), variable("v2", "Type")],
        init: Vec::new(),
        goal: Vec::new(),
    }
}

fn subst(pairs: &[(&str, &str)]) -> Substitution {
    Substitution(pairs.iter().map(|(a, b)| (a.to_string(), b.to_string())).collect())
}

fn transition(call_id: usize, pre_id: usize, eff_first: usize, eff_second: usize) -> LTL {
    LTL::Globally(Box::new(LTL::Or(vec![
        LTL::Not(Box::new(LTL::And(vec![LTL::Atom(call_id), LTL::Atom(pre_id)]))),
        LTL::Next(Box::new(LTL::And(vec![LTL::And(vec![
            LTL::Atom(eff_first),
            LTL::Not(Box::new(LTL::Atom(eff_second))),
        ])]))),
    ])))
}

#[test]
fn round_trip_scenario() {
    let domain = sample_domain();
    let problem = sample_problem(&domain);
    let universe = collect_output(&domain, &problem).unwrap();
    let formula = convert_action(&domain.actions[0], &problem, &universe).unwrap();
    // One Globally(...) per ground pair (v1,v1), (v1,v2), (v2,v1), (v2,v2),
    // with atom ids 0..=9 assigned in universe order.
    let expected = LTL::And(vec![
        transition(6, 0, 4, 4),
        transition(7, 1, 4, 5),
        transition(8, 2, 5, 4),
        transition(9, 3, 5, 5),
    ]);
    assert_eq!(formula, expected);
}

#[test]
fn convert_value_maps_structure() {
    let domain = sample_domain();
    let problem = sample_problem(&domain);
    let universe = collect_output(&domain, &problem).unwrap();
    let s = subst(&[("x", "v1"), ("y", "v2")]);
    let v = Value::Or(vec![
        call("p0", &["x", "y"]),
        Value::Not(Box::new(call("p1", &["x"]))),
    ]);
    let f = convert_value(&v, &s, &universe).unwrap();
    assert_eq!(
        f,
        LTL::Or(vec![LTL::Atom(1), LTL::Not(Box::new(LTL::Atom(4)))])
    );
}

#[test]
fn lookup_is_exact_on_argument_order() {
    let domain = sample_domain();
    let problem = sample_problem(&domain);
    let universe = collect_output(&domain, &problem).unwrap();
    let s = subst(&[("x", "v1"), ("y", "v2")]);
    let ab = convert_value(&call("p0", &["x", "y"]), &s, &universe).unwrap();
    let ba = convert_value(&call("p0", &["y", "x"]), &s, &universe).unwrap();
    assert_eq!(ab, LTL::Atom(1));
    assert_eq!(ba, LTL::Atom(2));
    assert_ne!(ab, ba);
}

#[test]
fn unknown_atom_is_reported() {
    let domain = sample_domain();
    let problem = sample_problem(&domain);
    let universe = collect_output(&domain, &problem).unwrap();
    let s = subst(&[("x", "v1")]);
    let err = convert_value(&call("missing", &["x"]), &s, &universe).unwrap_err();
    assert_eq!(
        err,
        ConvError::UnknownAtom { name: "missing".to_string(), arguments: vec!["v1".to_string()] }
    );
    // An argument the substitution does not bind also fails the lookup,
    // reported with the unresolved argument list.
    let err = convert_value(&call("p1", &["zz"]), &s, &universe).unwrap_err();
    assert_eq!(
        err,
        ConvError::UnknownAtom { name: "p1".to_string(), arguments: vec!["zz".to_string()] }
    );
}

#[test]
fn type_mismatch_is_reported() {
    let domain = sample_domain();
    let problem = sample_problem(&domain);
    let universe = collect_output(&domain, &problem).unwrap();
    let wrong = vec![variable("v1", "Other"), variable("v2", "Type")];
    let err = convert_action_with_param_set(&domain.actions[0], &wrong, &universe).unwrap_err();
    assert_eq!(
        err,
        ConvError::TypeMismatch {
            action: "a0".to_string(),
            parameter: "q0".to_string(),
            expected: "Type".to_string(),
            actual: "Other".to_string(),
        }
    );
}

#[test]
fn vacuous_action_converts_to_top() {
    let mut domain = sample_domain();
    domain.actions[0].parameters = vec![param("q0", Some("Unpopulated"))];
    domain.actions[0].preconditions = Vec::new();
    domain.actions[0].effects = Vec::new();
    let problem = sample_problem(&domain);
    let universe = collect_output(&domain, &problem).unwrap();
    let formula = convert_action(&domain.actions[0], &problem, &universe).unwrap();
    assert_eq!(formula, LTL::Top);
}

#[test]
fn empty_preconditions_flatten_into_and() {
    let domain = Domain {
        name: "D".to_string(),
        types: vec![("T".to_string(), None)],
        predicates: vec![Predicate {
            name: "p".to_string(),
            parameters: vec![param("x", Some("T"))],
        }],
        actions: vec![Action {
            name: "go".to_string(),
            parameters: vec![param("q", Some("T"))],
            preconditions: Vec::new(),
            effects: vec![call("p", &["q"])],
        }],
    };
    let problem = Problem {
        name: "P".to_string(),
        domain: "D".to_string(),
        variables: vec![variable("v", "T")],
        init: Vec::new(),
        goal: Vec::new(),
    };
    let universe = collect_output(&domain, &problem).unwrap();
    // Universe: p(v) = 0, go(v) = 1.
    let formula = convert_action(&domain.actions[0], &problem, &universe).unwrap();
    // The empty precondition conjunction And([]) flattens under `and`:
    // the guard is And([call]) rather than a special-cased Top.
    let expected = LTL::Globally(Box::new(LTL::Or(vec![
        LTL::Not(Box::new(LTL::And(vec![LTL::Atom(1)]))),
        LTL::Next(Box::new(LTL::And(vec![LTL::Atom(0)]))),
    ])));
    assert_eq!(formula, expected);
}

#[test]
fn substitution_last_binding_wins() {
    let s = subst(&[("x", "v1"), ("x", "v2")]);
    assert_eq!(s.get(&"x".to_string()), Some("v2".to_string()));
    assert_eq!(s.get(&"y".to_string()), None);
}

#[test]
fn convert_action_reports_missing_parameter_type() {
    let mut domain = sample_domain();
    domain.actions[0].parameters[1].data_type = None;
    let problem = sample_problem(&domain);
    let universe = OutputMapping(Vec::new());
    let err = convert_action(&domain.actions[0], &problem, &universe).unwrap_err();
    assert_eq!(
        err,
        ConvError::MissingType { owner: "a0".to_string(), parameter: "q1".to_string() }
    );
}
