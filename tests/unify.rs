use reasoning::{
    exhaust_subst, exhaust_subst_symbol, func, pred, subst_known, unify, unify_symbol, unify_var,
    val, var, ReasoningError, Symbol, Theta,
};

#[test]
fn test_unify_sym() {
    let a = func("add", vec![val("zero"), var("x")]);
    let b = func(
        "add",
        vec![var("y"), func("add", vec![var("zero"), var("zero")])],
    );
    let mut thetas = Vec::<Theta>::new();
    unify_symbol(&a, &b, &mut thetas).unwrap();
    assert_eq!(
        exhaust_subst_symbol(&a, &thetas),
        exhaust_subst_symbol(&b, &thetas)
    );
}

#[test]
fn unify_is_symmetric_in_outcome_on_examples() {
    let pairs = vec![
        (func("f", vec![var("x"), val("a")]), func("f", vec![val("b"), var("y")])),
        (func("f", vec![var("x"), var("x")]), func("f", vec![val("a"), val("b")])),
        (func("g", vec![var("x")]), func("h", vec![var("x")])),
        (var("x"), func("f", vec![var("y")])),
        (val("a"), val("a")),
    ];
    for (a, b) in pairs.iter() {
        let mut t1 = Vec::<Theta>::new();
        let mut t2 = Vec::<Theta>::new();
        let r1 = unify_symbol(a, b, &mut t1);
        let r2 = unify_symbol(b, a, &mut t2);
        assert_eq!(r1.is_ok(), r2.is_ok());
        if r1.is_ok() {
            assert_eq!(exhaust_subst_symbol(a, &t1), exhaust_subst_symbol(b, &t1));
            assert_eq!(exhaust_subst_symbol(a, &t2), exhaust_subst_symbol(b, &t2));
        }
    }
}

#[test]
fn unify_with_itself_adds_no_binding() {
    let t = func("f", vec![var("x"), func("g", vec![var("y"), val("c")])]);
    let mut thetas = Vec::<Theta>::new();
    unify_symbol(&var("y"), &val("d"), &mut thetas).unwrap();
    assert_eq!(thetas.len(), 1);
    unify_symbol(&t, &t, &mut thetas).unwrap();
    assert_eq!(thetas.len(), 1);
    let a = pred("p", vec![var("x"), val("c")]);
    unify(&a, &a, &mut thetas).unwrap();
    assert_eq!(thetas.len(), 1);
}

#[test]
fn resolve_is_idempotent_on_example() {
    let mut thetas = Vec::<Theta>::new();
    unify_symbol(&var("x"), &func("f", vec![var("y")]), &mut thetas).unwrap();
    unify_symbol(&var("y"), &var("z"), &mut thetas).unwrap();
    unify_symbol(&var("z"), &val("c"), &mut thetas).unwrap();
    let t = func("g", vec![var("x"), var("w")]);
    let once = exhaust_subst_symbol(&t, &thetas);
    let twice = exhaust_subst_symbol(&once, &thetas);
    assert_eq!(once, twice);
    assert_eq!(once, func("g", vec![func("f", vec![val("c")]), var("w")]));
}

#[test]
fn predicate_or_arity_mismatch_fails() {
    let mut thetas = Vec::<Theta>::new();
    let r = unify(&pred("p", vec![val("a")]), &pred("q", vec![val("a")]), &mut thetas);
    assert!(matches!(r, Err(ReasoningError::UnifyError)));
    let mut thetas = Vec::<Theta>::new();
    let r = unify(
        &pred("p", vec![val("a")]),
        &pred("p", vec![val("a"), val("b")]),
        &mut thetas,
    );
    assert!(matches!(r, Err(ReasoningError::UnifyError)));
}

#[test]
fn function_name_or_constant_clash_fails() {
    let mut thetas = Vec::<Theta>::new();
    let r = unify_symbol(&func("f", vec![var("x")]), &func("g", vec![var("x")]), &mut thetas);
    assert!(matches!(r, Err(ReasoningError::UnifyError)));
    let mut thetas = Vec::<Theta>::new();
    let r = unify_symbol(&val("a"), &val("b"), &mut thetas);
    assert!(matches!(r, Err(ReasoningError::UnifyError)));
}

#[test]
fn unify_binds_variable_and_follows_bindings() {
    let mut thetas = Vec::<Theta>::new();
    unify_symbol(&var("x"), &val("a"), &mut thetas).unwrap();
    assert_eq!(thetas.len(), 1);
    assert_eq!(*thetas[0].origin(), var("x"));
    assert_eq!(*thetas[0].result(), val("a"));
    // x is bound to a, so x against b fails and x against a succeeds
    assert!(unify_var(&var("x"), &val("b"), &mut thetas).is_err());
    let mut thetas2 = Vec::<Theta>::new();
    unify_symbol(&var("x"), &val("a"), &mut thetas2).unwrap();
    unify_var(&var("x"), &val("a"), &mut thetas2).unwrap();
    assert_eq!(thetas2.len(), 1);
}

#[test]
fn subst_known_finds_first_binding() {
    let mut thetas = Vec::<Theta>::new();
    thetas.push(Theta::new(var("x"), val("a")).unwrap());
    thetas.push(Theta::new(var("x"), val("b")).unwrap());
    assert_eq!(subst_known(&var("x"), &thetas), Some(val("a")));
    assert_eq!(subst_known(&var("y"), &thetas), None);
    assert_eq!(subst_known(&val("x"), &thetas), None);
}

#[test]
fn theta_of_non_variable_is_refused() {
    assert!(matches!(Theta::new(val("a"), val("b")), Err(ReasoningError::ThetaError)));
    assert!(matches!(
        Theta::new(func("f", vec![]), val("b")),
        Err(ReasoningError::ThetaError)
    ));
    assert!(Theta::new(var("x"), val("b")).is_ok());
}

#[test]
fn exhaust_subst_resolves_atom_arguments() {
    let mut thetas = Vec::<Theta>::new();
    thetas.push(Theta::new(var("x"), var("y")).unwrap());
    thetas.push(Theta::new(var("y"), val("m1")).unwrap());
    let a = pred("missile", vec![var("x"), func("f", vec![var("y"), var("z")])]);
    let r = exhaust_subst(&a, &thetas);
    assert_eq!(
        r,
        pred("missile", vec![val("m1"), func("f", vec![val("m1"), var("z")])])
    );
}

#[test]
fn cyclic_binding_resolution_terminates() {
    let mut thetas = Vec::<Theta>::new();
    thetas.push(Theta::new(var("x"), func("f", vec![var("x")])).unwrap());
    let r = exhaust_subst_symbol(&var("x"), &thetas);
    assert_eq!(r, func("f", vec![var("x")]));
}

#[test]
fn symbol_helpers() {
    assert!(var("x").contains_var());
    assert!(!val("x").contains_var());
    assert!(func("f", vec![val("a"), func("g", vec![var("y")])]).contains_var());
    assert!(!func("f", vec![val("a"), func("g", vec![val("b")])]).contains_var());
    assert_eq!(Symbol::var("x"), var("x"));
    assert_eq!(Symbol::val("x"), val("x"));
    assert_eq!(Symbol::func("f", vec![]), func("f", vec![]));
    assert_ne!(var("x"), val("x"));
    assert_eq!(func("f", vec![var("x")]).clone(), func("f", vec![var("x")]));
}

#[test]
fn self_referential_bindings_fail_to_unify() {
    let mut thetas = Vec::<Theta>::new();
    thetas.push(Theta::new(var("x"), func("f", vec![var("x")])).unwrap());
    thetas.push(Theta::new(var("y"), func("f", vec![var("y")])).unwrap());
    let r = unify_symbol(&var("x"), &var("y"), &mut thetas);
    assert!(matches!(r, Err(ReasoningError::UnifyError)));
}

#[test]
fn long_binding_chain_unifies() {
    let n = 600;
    let mut thetas = Vec::<Theta>::new();
    for i in 0..n - 1 {
        let from = format!("v{}", i);
        let to = format!("v{}", i + 1);
        thetas.push(Theta::new(var(&from), var(&to)).unwrap());
    }
    let first = var("v0");
    let last = var(&format!("v{}", n - 1));
    assert_eq!(exhaust_subst_symbol(&first, &thetas), exhaust_subst_symbol(&last, &thetas));
    let before = thetas.len();
    unify_symbol(&first, &last, &mut thetas).unwrap();
    assert_eq!(thetas.len(), before);
    unify_symbol(&last, &first, &mut thetas).unwrap();
    assert_eq!(thetas.len(), before);
}

#[test]
fn deeply_nested_terms_unify() {
    let mut a = var("x");
    let mut b = val("c");
    for _ in 0..1500 {
        a = func("f", vec![a]);
        b = func("f", vec![b]);
    }
    let mut thetas = Vec::<Theta>::new();
    unify_symbol(&a, &b, &mut thetas).unwrap();
    assert_eq!(thetas.len(), 1);
    assert_eq!(*thetas[0].origin(), var("x"));
    assert_eq!(*thetas[0].result(), val("c"));
}

#[test]
fn unify_var_follows_binding_like_unify_symbol() {
    let mut t1 = Vec::<Theta>::new();
    t1.push(Theta::new(var("x"), func("f", vec![var("y")])).unwrap());
    let mut t2 = Vec::<Theta>::new();
    t2.push(Theta::new(var("x"), func("f", vec![var("y")])).unwrap());
    let r1 = unify_var(&var("x"), &func("f", vec![val("a")]), &mut t1);
    let r2 = unify_symbol(&func("f", vec![var("y")]), &func("f", vec![val("a")]), &mut t2);
    assert!(r1.is_ok() && r2.is_ok());
    assert_eq!(t1.len(), t2.len());
    assert_eq!(*t1[1].origin(), *t2[1].origin());
    assert_eq!(*t1[1].result(), *t2[1].result());
}
