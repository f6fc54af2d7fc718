use reasoning::{bc, get_prove_path, pred, val, var, Atom, ReasoningError, Rule, Symbol, KB};

fn crime_kb() -> KB {
    KB {
        rules: vec![
            Rule {
                condition: vec![
                    pred("american", vec![var("x")]),
                    pred("weapon", vec![var("y")]),
                    pred("sells", vec![var("x"), var("y"), var("z")]),
                    pred("hostile", vec![var("z")]),
                ],
                conclusion: pred("criminal", vec![var("x")]),
            },
            Rule {
                condition: vec![
                    pred("missile", vec![var("x")]),
                    pred("owns", vec![val("nono"), var("x")]),
                ],
                conclusion: pred("sells", vec![val("west"), var("x"), val("nono")]),
            },
            Rule {
                condition: vec![pred("missile", vec![var("x")])],
                conclusion: pred("weapon", vec![var("x")]),
            },
            Rule {
                condition: vec![pred("enemy", vec![var("x"), val("america")])],
                conclusion: pred("hostile", vec![var("x")]),
            },
            Rule {
                condition: vec![],
                conclusion: pred("owns", vec![val("nono"), val("m1")]),
            },
            Rule {
                condition: vec![],
                conclusion: pred("missile", vec![val("m1")]),
            },
            Rule {
                condition: vec![],
                conclusion: pred("american", vec![val("west")]),
            },
            Rule {
                condition: vec![],
                conclusion: pred("enemy", vec![val("nono"), val("america")]),
            },
        ],
    }
}

#[test]
fn test_bc_example1() {
    let mut kb = crime_kb();
    kb.standardize_var();
    let theorem_true = pred("criminal", vec![val("west")]);
    bc(&kb, &theorem_true, 5).unwrap();
}

#[test]
fn criminal_west_is_proved_at_depth_four() {
    let mut kb = crime_kb();
    kb.standardize_var();
    assert!(bc(&kb, &pred("criminal", vec![val("west")]), 4).is_ok());
}

#[test]
fn criminal_east_is_not_proved() {
    let mut kb = crime_kb();
    kb.standardize_var();
    let r = bc(&kb, &pred("criminal", vec![val("east")]), 5);
    assert!(matches!(r, Err(ReasoningError::ProofNotFound)));
}

#[test]
fn query_with_variable_finds_witness() {
    let mut kb = crime_kb();
    kb.standardize_var();
    let query = pred("criminal", vec![var("who")]);
    let thetas = bc(&kb, &query, 5).unwrap();
    let witness = reasoning::exhaust_subst(&query, &thetas);
    assert_eq!(witness, pred("criminal", vec![val("west")]));
}

#[test]
fn depth_bound_decides_provability() {
    let mut kb = crime_kb();
    kb.standardize_var();
    let goal = pred("criminal", vec![val("west")]);
    assert!(bc(&kb, &goal, 0).is_err());
    assert!(bc(&kb, &goal, 1).is_err());
    assert!(bc(&kb, &goal, 2).is_ok());
    assert!(bc(&kb, &goal, 3).is_ok());
}

#[test]
fn self_dependent_rule_fails_and_terminates() {
    let kb = KB {
        rules: vec![Rule {
            condition: vec![pred("p", vec![var("x")])],
            conclusion: pred("p", vec![var("x")]),
        }],
    };
    for goal in [pred("p", vec![val("a")]), pred("p", vec![var("y")])] {
        let r = bc(&kb, &goal, 10);
        assert!(matches!(
            r,
            Err(ReasoningError::ProofNotFound)
                | Err(ReasoningError::CycleProof)
                | Err(ReasoningError::DepthLimitExceed)
        ));
    }
}

#[test]
fn recursive_rule_is_reused_without_capture() {
    // nat(zero). nat(s(x)) :- nat(x).
    let kb = KB {
        rules: vec![
            Rule { condition: vec![], conclusion: pred("nat", vec![val("zero")]) },
            Rule {
                condition: vec![pred("nat", vec![var("x")])],
                conclusion: pred("nat", vec![Symbol::func("s", vec![var("x")])]),
            },
        ],
    };
    let three = Symbol::func(
        "s",
        vec![Symbol::func("s", vec![Symbol::func("s", vec![val("zero")])])],
    );
    assert!(bc(&kb, &pred("nat", vec![three.clone()]), 3).is_ok());
    assert!(bc(&kb, &pred("nat", vec![three]), 2).is_err());
    assert!(bc(&kb, &pred("nat", vec![val("one")]), 5).is_err());
}

#[test]
fn standardizing_twice_shares_no_variable() {
    let r = Rule {
        condition: vec![pred("q", vec![var("x"), Symbol::func("f", vec![var("x1")])])],
        conclusion: pred("p", vec![var("x"), val("c")]),
    };
    let a = KB::rule_standardize(&r, 1);
    let b = KB::rule_standardize(&r, 11);
    assert_eq!(a.conclusion, pred("p", vec![var("x#1"), val("c")]));
    assert_eq!(b.conclusion, pred("p", vec![var("x#11"), val("c")]));
    assert_eq!(
        a.condition[0],
        pred("q", vec![var("x#1"), Symbol::func("f", vec![var("x1#1")])])
    );
    assert_eq!(
        b.condition[0],
        pred("q", vec![var("x#11"), Symbol::func("f", vec![var("x1#11")])])
    );
}

#[test]
fn index_var_appends_decimal_tag() {
    assert_eq!(KB::index_var(&var("x"), 0), var("x#0"));
    assert_eq!(KB::index_var(&var("x"), 1234), var("x#1234"));
    assert_eq!(KB::index_var(&val("x"), 7), val("x"));
    assert_eq!(
        KB::index_atom(&pred("p", vec![var("a"), val("b")]), 42),
        pred("p", vec![var("a#42"), val("b")])
    );
}

#[test]
fn standardize_var_tags_rules_by_position() {
    let mut kb = crime_kb();
    kb.standardize_var();
    assert_eq!(kb.rules[0].conclusion, pred("criminal", vec![var("x#0")]));
    assert_eq!(kb.rules[3].conclusion, pred("hostile", vec![var("x#3")]));
    assert_eq!(kb.rules[4].conclusion, pred("owns", vec![val("nono"), val("m1")]));
}

#[test]
fn facts_are_ground_unconditional_rules() {
    let kb = crime_kb();
    assert!(!kb.rules[0].is_fact());
    assert!(kb.rules[4].is_fact());
    let r = Rule { condition: vec![], conclusion: pred("p", vec![var("x")]) };
    assert!(!r.is_fact());
}

#[test]
fn prove_paths_keep_rule_order() {
    let kb = crime_kb();
    let goal: Atom = pred("missile", vec![var("w")]);
    let paths = get_prove_path(&kb.rules, &goal, &[]).unwrap();
    assert_eq!(paths.len(), 1);
    assert_eq!(paths[0].theorems.len(), 0);
    assert_eq!(paths[0].thetas.len(), 1);
    let none = get_prove_path(&kb.rules, &pred("unknown", vec![]), &[]);
    assert!(matches!(none, Err(ReasoningError::ProofNotFound)));
}

#[test]
fn json_error_becomes_parse_error() {
    let e = serde_json::from_str::<u32>("not json").unwrap_err();
    assert!(matches!(ReasoningError::from(e), ReasoningError::ParseError));
}

#[test]
fn ordering_facts_prove_sum_bound() {
    let kb = KB {
        rules: vec![
            Rule { condition: vec![], conclusion: pred("leq", vec![val("zero"), val("three")]) },
            Rule { condition: vec![], conclusion: pred("leq", vec![val("seven"), val("nine")]) },
            Rule {
                condition: vec![],
                conclusion: pred(
                    "leq",
                    vec![var("x"), Symbol::func("add", vec![var("x"), val("zero")])],
                ),
            },
            Rule {
                condition: vec![],
                conclusion: pred(
                    "leq",
                    vec![Symbol::func("add", vec![var("x"), val("zero")]), var("x")],
                ),
            },
            Rule {
                condition: vec![
                    pred("leq", vec![var("x"), var("y")]),
                    pred("leq", vec![var("y"), var("z")]),
                ],
                conclusion: pred("leq", vec![var("x"), var("z")]),
            },
            Rule {
                condition: vec![
                    pred("leq", vec![var("w"), var("y")]),
                    pred("leq", vec![var("x"), var("z")]),
                ],
                conclusion: pred(
                    "leq",
                    vec![
                        Symbol::func("add", vec![var("w"), var("x")]),
                        Symbol::func("add", vec![var("y"), var("z")]),
                    ],
                ),
            },
            Rule { condition: vec![], conclusion: pred("leq", vec![var("x"), var("x")]) },
            Rule {
                condition: vec![],
                conclusion: pred(
                    "leq",
                    vec![
                        Symbol::func("add", vec![var("x"), var("y")]),
                        Symbol::func("add", vec![var("y"), var("x")]),
                    ],
                ),
            },
        ],
    };
    let theorem_true = pred(
        "leq",
        vec![val("seven"), Symbol::func("add", vec![val("three"), val("nine")])],
    );
    assert!(bc(&kb, &theorem_true, 5).is_ok());
}

#[test]
fn missing_occurs_check_admits_cyclic_binding() {
    // p(x) :- q(x, f(x)).  q(y, y).
    // Without an occurs check q(x, f(x)) unifies with q(y, y) by binding
    // y to f(x) after x to y, so p(w) is reported as proved.
    let kb = KB {
        rules: vec![
            Rule {
                condition: vec![pred("q", vec![var("x"), Symbol::func("f", vec![var("x")])])],
                conclusion: pred("p", vec![var("x")]),
            },
            Rule { condition: vec![], conclusion: pred("q", vec![var("y"), var("y")]) },
        ],
    };
    assert!(bc(&kb, &pred("p", vec![var("w")]), 5).is_ok());
}
