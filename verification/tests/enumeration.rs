use pdc_ltl::convert::{collect_output, convert_action, ConvError};
use pdc_ltl::pdc::{Action, Domain, Parameter, Predicate, Problem, Value, Variable};

fn param(name: &str, data_type: Option<&str>) -> Parameter {
    Parameter { name: name.to_string(), data_type: data_type.map(|t| t.to_string()) }
}

fn variable(name: &str, data_type: &str) -> Variable {
    Variable { name: name.to_string(), data_type: data_type.to_string() }
}

fn sample_domain() -> Domain {
    Domain {
        name: "Domain".to_string(),
        types: vec![("Type".to_string(), None)],
        predicates: vec![
            Predicate {
                name: "p0".to_string(),
                parameters: vec![param("a", Some("Type")), param("b", Some("Type"))],
            },
            Predicate { name: "p1".to_string(), parameters: vec![param("c", Some("Type"))] },
        ],
        actions: vec![Action {
            name: "a0".to_string(),
            parameters: vec![param("q0", Some("Type")), param("q1", Some("Type"))],
            preconditions: vec![Value::Call(
                "p0".to_string(),
                vec!["q0".to_string(), "q1".to_string()],
            )],
            effects: vec![Value::And(vec![
                Value::Call("p1".to_string(), vec!["q0".to_string()]),
                Value::Not(Box::new(Value::Call("p1".to_string(), vec!["q1".to_string()]))),
            ])],
        }],
    }
}

fn sample_problem(domain: &Domain) -> Problem {
    Problem {
        name: "Problem".to_string(),
        domain: domain.name.clone(),
        variables: vec![variable("v1", "Type"), variable("v2", "Type")],
        init: Vec::new(),
        goal: Vec::new(),
    }
}

#[test]
fn test_collect_output() {
    let domain = sample_domain();
    let problem = sample_problem(&domain);
    let output_mapping = collect_output(&domain, &problem).unwrap();
    let action = convert_action(&domain.actions[0], &problem, &output_mapping).unwrap();
    println!("{:?}", output_mapping);
    println!("{:?}", action);
}

fn atom(name: &str, args: &[&str]) -> (String, Vec<String>) {
    (name.to_string(), args.iter().map(|a| a.to_string()).collect())
}

#[test]
fn universe_order_fixes_atom_ids() {
    let domain = sample_domain();
    let problem = sample_problem(&domain);
    let universe = collect_output(&domain, &problem).unwrap();
    let expected = vec![
        atom("p0", &["v1", "v1"]),
        atom("p0", &["v1", "v2"]),
        atom("p0", &["v2", "v1"]),
        atom("p0", &["v2", "v2"]),
        atom("p1", &["v1"]),
        atom("p1", &["v2"]),
        atom("a0", &["v1", "v1"]),
        atom("a0", &["v1", "v2"]),
        atom("a0", &["v2", "v1"]),
        atom("a0", &["v2", "v2"]),
    ];
    assert_eq!(universe.0, expected);
}

#[test]
fn enumeration_is_deterministic() {
    let domain = sample_domain();
    let problem = sample_problem(&domain);
    let first = collect_output(&domain, &problem).unwrap();
    let second = collect_output(&domain, &problem).unwrap();
    assert_eq!(first, second);
}

#[test]
fn cartesian_counts_multiply() {
    let domain = sample_domain();
    let problem = sample_problem(&domain);
    let universe = collect_output(&domain, &problem).unwrap();
    // p0 has two parameters over two variables, p1 one parameter, and a0
    // two parameters: 4 + 2 + 4 atoms.
    assert_eq!(universe.0.len(), 10);
    assert_eq!(universe.0.iter().filter(|a| a.0 == "p0").count(), 4);
    assert_eq!(universe.0.iter().filter(|a| a.0 == "p1").count(), 2);
    assert_eq!(universe.0.iter().filter(|a| a.0 == "a0").count(), 4);
}

#[test]
fn cartesian_count_zero_factor() {
    let mut domain = sample_domain();
    domain.predicates.push(Predicate {
        name: "p2".to_string(),
        parameters: vec![param("d", Some("Other"))],
    });
    let problem = sample_problem(&domain);
    let universe = collect_output(&domain, &problem).unwrap();
    // No variable has type Other, so p2 contributes no atoms at all.
    assert_eq!(universe.0.len(), 10);
    assert!(universe.0.iter().all(|a| a.0 != "p2"));
}

#[test]
fn duplicate_variables_are_kept() {
    let domain = Domain {
        name: "D".to_string(),
        types: vec![("T".to_string(), None)],
        predicates: vec![Predicate {
            name: "p".to_string(),
            parameters: vec![param("x", Some("T"))],
        }],
        actions: Vec::new(),
    };
    let problem = Problem {
        name: "P".to_string(),
        domain: "D".to_string(),
        variables: vec![variable("v", "T"), variable("v", "T")],
        init: Vec::new(),
        goal: Vec::new(),
    };
    let universe = collect_output(&domain, &problem).unwrap();
    assert_eq!(universe.0, vec![atom("p", &["v"]), atom("p", &["v"])]);
}

#[test]
fn missing_type_is_reported() {
    let mut domain = sample_domain();
    domain.predicates[1].parameters[0].data_type = None;
    let problem = sample_problem(&domain);
    let err = collect_output(&domain, &problem).unwrap_err();
    assert_eq!(
        err,
        ConvError::MissingType { owner: "p1".to_string(), parameter: "c".to_string() }
    );
}

#[test]
fn variables_of_type_preserves_order() {
    let problem = Problem {
        name: "P".to_string(),
        domain: "D".to_string(),
        variables: vec![
            variable("a", "T"),
            variable("b", "U"),
            variable("c", "T"),
        ],
        init: Vec::new(),
        goal: Vec::new(),
    };
    let ts = problem.variables_of_type("T");
    let names: Vec<&str> = ts.iter().map(|v| v.name.as_str()).collect();
    assert_eq!(names, vec!["a", "c"]);
    assert!(problem.variables_of_type("V").is_empty());
}
