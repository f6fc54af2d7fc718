//! Substitution environments, resolution of terms through them, and unification.
use vstd::prelude::*;

use crate::term::{symbol_eq, terms_of, Atom, AtomView, Symbol, Term};
use crate::ReasoningError;

verus! {

broadcast use {vstd::std_specs::vec::axiom_vec_index_decreases, vstd::seq::axiom_seq_index_decreases};

/// A natural number, saturated at the largest `usize`.
pub open spec fn capped(n: nat) -> nat {
    if n < usize::MAX {
        n
    } else {
        usize::MAX as nat
    }
}

/// The number of symbols in a term.
pub open spec fn term_size(t: Term) -> nat
    decreases t, 1nat,
{
    match t {
        Term::Var(_) => 1,
        Term::Val(_) => 1,
        Term::Func(_, args) => 1 + sizes(args),
    }
}

/// The number of symbols in a list of terms.
pub open spec fn sizes(ts: Seq<Term>) -> nat
    decreases ts, 0nat,
{
    if ts.len() == 0 {
        0
    } else {
        sizes(ts.drop_last()) + term_size(ts.last())
    }
}

/// The number of symbols in the bound results of an environment, plus one for
/// each binding.
pub open spec fn env_size(env: Seq<(Term, Term)>) -> nat
    decreases env.len(),
{
    if env.len() == 0 {
        0
    } else {
        env_size(env.drop_last()) + term_size(env.last().1) + 1
    }
}

/// How deep one unification may recurse, from the size of the problem.
///
/// Where the terms have a unifier, no binding is ever made that leads back
/// into itself. Along one path of the recursion each step then either goes
/// into an argument (at most as often as the height of the fully resolved
/// terms, itself at most the size of the problem) or follows a binding (each
/// variable at most twice, and no more variables get bound than occur in the
/// problem), and each step costs at most two levels. Where bindings come to
/// lead back into themselves (there is no occurs check) the terms have no
/// unifier, and the budget makes the attempt fail instead of recursing for
/// ever.
pub open spec fn budget_of(size: nat) -> nat {
    capped(6 * size + 6)
}

/// The budget for unifying two terms.
pub open spec fn unify_budget(x: Term, y: Term, env: Seq<(Term, Term)>) -> nat {
    budget_of(term_size(x) + term_size(y) + env_size(env))
}

/// The budget for unifying two argument lists.
pub open spec fn args_budget(xs: Seq<Term>, ys: Seq<Term>, env: Seq<(Term, Term)>) -> nat {
    budget_of(sizes(xs) + sizes(ys) + env_size(env))
}

fn sat_add(a: usize, b: usize) -> (r: usize)
    ensures
        r == capped((a + b) as nat),
{
    if a > usize::MAX - b {
        usize::MAX
    } else {
        a + b
    }
}

/// The size of a term, saturated.
pub fn symbol_size(x: &Symbol) -> (r: usize)
    ensures
        r == capped(term_size(x@)),
    decreases x,
{
    match x {
        Symbol::Func(_, args) => {
            proof {
                lemma_func_args(x);
            }
            let s = symbol_sizes(args);
            sat_add(s, 1)
        },
        _ => 1,
    }
}

/// The size of a list of terms, saturated.
fn symbol_sizes(args: &Vec<Symbol>) -> (r: usize)
    ensures
        r == capped(sizes(terms_of(args@))),
    decreases args,
{
    let mut acc: usize = 0;
    let mut i: usize = 0;
    assert(terms_of(args@).subrange(0, 0) =~= Seq::<Term>::empty());
    while i < args.len()
        invariant
            i <= args.len(),
            acc == capped(sizes(terms_of(args@).subrange(0, i as int))),
        decreases args.len() - i,
    {
        let ghost pre = terms_of(args@).subrange(0, i as int + 1);
        assert(pre.drop_last() =~= terms_of(args@).subrange(0, i as int));
        assert(pre.last() == args@[i as int]@);
        let s = symbol_size(&args[i]);
        acc = sat_add(acc, s);
        i = i + 1;
    }
    assert(terms_of(args@).subrange(0, args.len() as int) =~= terms_of(args@));
    acc
}

/// The size of an environment, saturated.
fn theta_size(theta_list: &[Theta]) -> (r: usize)
    ensures
        r == capped(env_size(bindings(theta_list@))),
{
    let ghost env = bindings(theta_list@);
    let mut acc: usize = 0;
    let mut i: usize = 0;
    assert(env.subrange(0, 0) =~= Seq::<(Term, Term)>::empty());
    while i < theta_list.len()
        invariant
            i <= theta_list.len(),
            env == bindings(theta_list@),
            acc == capped(env_size(env.subrange(0, i as int))),
        decreases theta_list.len() - i,
    {
        let ghost pre = env.subrange(0, i as int + 1);
        assert(pre.drop_last() =~= env.subrange(0, i as int));
        assert(pre.last() == theta_list@[i as int]@);
        let s = symbol_size(&theta_list[i].result);
        acc = sat_add(sat_add(acc, s), 1);
        i = i + 1;
    }
    assert(env.subrange(0, theta_list.len() as int) =~= env);
    acc
}

fn budget_from(s: usize) -> (r: usize)
    ensures
        r == budget_of(s as nat),
{
    if s > (usize::MAX - 6) / 6 {
        usize::MAX
    } else {
        6 * s + 6
    }
}

/// One binding of an environment: `origin`, a variable, stands for `result`.
#[derive(Debug, Clone)]
pub struct Theta {
    origin: Symbol,
    result: Symbol,
}

impl View for Theta {
    type V = (Term, Term);

    closed spec fn view(&self) -> (Term, Term) {
        (self.origin@, self.result@)
    }
}

impl Theta {
    /// A binding of `origin` to `result`; only a variable can be bound.
    pub fn new(origin: Symbol, result: Symbol) -> (r: Result<Theta, ReasoningError>)
        ensures
            origin@ is Var ==> (r matches Ok(t) && t@ == (origin@, result@)),
            !(origin@ is Var) ==> r matches Err(ReasoningError::ThetaError),
    {
        match origin {
            Symbol::Var(_) => Ok(Theta { origin, result }),
            _ => Err(ReasoningError::ThetaError),
        }
    }

    /// A copy whose value is the same binding.
    pub fn duplicate(&self) -> (r: Theta)
        ensures
            r@ == self@,
    {
        Theta { origin: self.origin.duplicate(), result: self.result.duplicate() }
    }

    pub fn origin(&self) -> (r: &Symbol)
        ensures
            r@ == self@.0,
    {
        &self.origin
    }

    pub fn result(&self) -> (r: &Symbol)
        ensures
            r@ == self@.1,
    {
        &self.result
    }
}

/// The value of an environment: its bindings in order.
pub open spec fn bindings(env: Seq<Theta>) -> Seq<(Term, Term)> {
    env.map_values(|t: Theta| t@)
}

/// The first binding of the variable `name`, if any.
pub open spec fn lookup(env: Seq<(Term, Term)>, name: Seq<char>) -> Option<Term>
    decreases env.len(),
{
    if env.len() == 0 {
        None
    } else if env[0].0 == Term::Var(name) {
        Some(env[0].1)
    } else {
        lookup(env.drop_first(), name)
    }
}

/// What a term stands for in one step: a bound variable's binding, else nothing.
pub open spec fn shallow(t: Term, env: Seq<(Term, Term)>) -> Option<Term> {
    match t {
        Term::Var(n) => lookup(env, n),
        _ => None,
    }
}

/// Resolution that may follow at most `fuel` bindings along any path.
pub open spec fn resolve_within(t: Term, env: Seq<(Term, Term)>, fuel: nat) -> Term
    decreases fuel, t,
{
    match t {
        Term::Var(n) => match lookup(env, n) {
            Some(u) => if fuel == 0 {
                t
            } else {
                resolve_within(u, env, (fuel - 1) as nat)
            },
            None => t,
        },
        Term::Val(_) => t,
        Term::Func(f, args) => Term::Func(
            f,
            Seq::new(
                args.len(),
                |i: int|
                    if 0 <= i < args.len() {
                        resolve_within(args[i], env, fuel)
                    } else {
                        Term::Val(Seq::empty())
                    },
            ),
        ),
    }
}

/// A term with every bound variable replaced, again and again, by its binding.
/// No path visits a bound variable twice unless bindings form a cycle, so as
/// many steps as there are bindings suffice.
pub open spec fn resolve(t: Term, env: Seq<(Term, Term)>) -> Term {
    resolve_within(t, env, env.len())
}

/// An atom with each argument resolved.
pub open spec fn resolve_atom(a: AtomView, env: Seq<(Term, Term)>) -> AtomView {
    AtomView { predicate: a.predicate, args: a.args.map_values(|t: Term| resolve(t, env)) }
}

/// The binding of `x` in the environment, when `x` is a bound variable.
pub fn subst_known(x: &Symbol, theta_list: &[Theta]) -> (r: Option<Symbol>)
    ensures
        r is Some == shallow(x@, bindings(theta_list@)) is Some,
        r is Some ==> r->0@ == shallow(x@, bindings(theta_list@))->0,
{
    let ghost env = bindings(theta_list@);
    match x {
        Symbol::Var(name) => {
            assert(env.subrange(0, env.len() as int) =~= env);
            let mut i: usize = 0;
            while i < theta_list.len()
                invariant
                    i <= theta_list.len(),
                    env == bindings(theta_list@),
                    x@ == Term::Var(name@),
                    lookup(env, name@) == lookup(env.subrange(i as int, env.len() as int), name@),
                decreases theta_list.len() - i,
            {
                let ghost rest = env.subrange(i as int, env.len() as int);
                assert(rest[0] == theta_list@[i as int]@);
                assert(rest.drop_first() =~= env.subrange(i + 1, env.len() as int));
                match &theta_list[i].origin {
                    Symbol::Var(existed_name) => {
                        if *existed_name == *name {
                            return Some(theta_list[i].result.duplicate());
                        }
                    },
                    _ => {},
                }
                i = i + 1;
            }
            None
        },
        _ => None,
    }
}

/// Resolution following at most `fuel` bindings along any path.
fn resolve_symbol_within(x: &Symbol, theta_list: &[Theta], fuel: usize) -> (r: Symbol)
    ensures
        r@ == resolve_within(x@, bindings(theta_list@), fuel as nat),
    decreases fuel, x,
{
    match x {
        Symbol::Var(_) => {
            if let Some(new_x) = subst_known(x, theta_list) {
                if fuel == 0 {
                    x.duplicate()
                } else {
                    resolve_symbol_within(&new_x, theta_list, fuel - 1)
                }
            } else {
                x.duplicate()
            }
        },
        Symbol::Val(_) => x.duplicate(),
        Symbol::Func(name, args) => {
            let ghost env = bindings(theta_list@);
            let mut new_args = Vec::<Symbol>::new();
            let mut i: usize = 0;
            #[verifier::loop_isolation(false)]
            while i < args.len()
                invariant
                    i <= args.len(),
                    new_args@.len() == i,
                    forall|j: int|
                        0 <= j < i ==> #[trigger] new_args@[j]@ == resolve_within(
                            args@[j]@,
                            env,
                            fuel as nat,
                        ),
                decreases args.len() - i,
            {
                new_args.push(resolve_symbol_within(&args[i], theta_list, fuel));
                i = i + 1;
            }
            let r = Symbol::Func(name.clone(), new_args);
            let ghost expected = resolve_within(x@, env, fuel as nat);
            assert forall|j: int| 0 <= j < args.len() implies r@->Func_1[j] == expected->Func_1[j] by {
                assert(new_args@[j]@ == resolve_within(args@[j]@, env, fuel as nat));
                assert(x@->Func_1[j] == args@[j]@);
            }
            assert(r@->Func_1 =~= expected->Func_1);
            r
        },
    }
}

/// `x` with every bound variable replaced, again and again, by its binding.
pub fn exhaust_subst_symbol(x: &Symbol, theta_list: &[Theta]) -> (r: Symbol)
    ensures
        r@ == resolve(x@, bindings(theta_list@)),
{
    resolve_symbol_within(x, theta_list, theta_list.len())
}

/// `x` with each argument resolved.
pub fn exhaust_subst(x: &Atom, theta_list: &[Theta]) -> (r: Atom)
    ensures
        r@ == resolve_atom(x@, bindings(theta_list@)),
{
    let ghost env = bindings(theta_list@);
    let mut args = Vec::<Symbol>::new();
    let mut i: usize = 0;
    while i < x.args.len()
        invariant
            i <= x.args.len(),
            env == bindings(theta_list@),
            args@.len() == i,
            forall|j: int| 0 <= j < i ==> #[trigger] args@[j]@ == resolve(x.args@[j]@, env),
        decreases x.args.len() - i,
    {
        args.push(exhaust_subst_symbol(&x.args[i], theta_list));
        i = i + 1;
    }
    let r = Atom { predicate: x.predicate.clone(), args };
    assert(r@.args =~= resolve_atom(x@, env).args);
    r
}

/// Unification of two terms with at most `fuel` nested steps: the extended
/// environment, or `None` where the terms have no unifier.
pub open spec fn unify_terms(x: Term, y: Term, env: Seq<(Term, Term)>, fuel: nat) -> Option<
    Seq<(Term, Term)>,
>
    decreases fuel, 0nat,
{
    if fuel == 0 {
        None
    } else if x == y {
        Some(env)
    } else if x is Var {
        unify_var_terms(x, y, env, (fuel - 1) as nat)
    } else if y is Var {
        unify_var_terms(y, x, env, (fuel - 1) as nat)
    } else {
        match (x, y) {
            (Term::Func(f, xs), Term::Func(g, ys)) => if f == g && xs.len() == ys.len() {
                unify_args(xs, ys, env, (fuel - 1) as nat)
            } else {
                None
            },
            _ => None,
        }
    }
}

/// Unification of the variable `v` with `t`: through `v`'s binding, else
/// through `t`'s, else by binding `v` to `t`.
pub open spec fn unify_var_terms(v: Term, t: Term, env: Seq<(Term, Term)>, fuel: nat) -> Option<
    Seq<(Term, Term)>,
>
    decreases fuel, 0nat,
{
    if fuel == 0 {
        None
    } else {
        match shallow(v, env) {
            Some(u) => unify_terms(u, t, env, (fuel - 1) as nat),
            None => match shallow(t, env) {
                Some(u) => unify_terms(v, u, env, (fuel - 1) as nat),
                None => Some(env.push((v, t))),
            },
        }
    }
}

/// Pairwise unification of two argument lists, left to right, threading the
/// environment through.
pub open spec fn unify_args(xs: Seq<Term>, ys: Seq<Term>, env: Seq<(Term, Term)>, fuel: nat) -> Option<
    Seq<(Term, Term)>,
>
    decreases fuel, xs.len(),
{
    if xs.len() == 0 || ys.len() == 0 {
        Some(env)
    } else {
        match unify_terms(xs[0], ys[0], env, fuel) {
            Some(e) => unify_args(xs.drop_first(), ys.drop_first(), e, fuel),
            None => None,
        }
    }
}

/// Unification of two atoms: same predicate, same arity, unifiable arguments.
pub open spec fn unify_atoms(a: AtomView, b: AtomView, env: Seq<(Term, Term)>) -> Option<
    Seq<(Term, Term)>,
> {
    if a.predicate == b.predicate && a.args.len() == b.args.len() {
        unify_args(a.args, b.args, env, args_budget(a.args, b.args, env))
    } else {
        None
    }
}

/// How an executed unification relates to `unify_terms`: success with the
/// environment it gives, or `UnifyError` where it gives none.
pub open spec fn unify_outcome(
    spec_result: Option<Seq<(Term, Term)>>,
    r: Result<(), ReasoningError>,
    env_after: Seq<Theta>,
) -> bool {
    match spec_result {
        Some(e) => r is Ok && bindings(env_after) == e,
        None => r matches Err(ReasoningError::UnifyError),
    }
}

proof fn lemma_bindings_push(env: Seq<Theta>, t: Theta)
    ensures
        bindings(env.push(t)) == bindings(env).push(t@),
{
    assert(bindings(env.push(t)) =~= bindings(env).push(t@));
}

proof fn lemma_func_args(x: &Symbol)
    requires
        x is Func,
    ensures
        x@->Func_1 == terms_of(x->Func_1@),
{
    assert(x@->Func_1 =~= terms_of(x->Func_1@));
}

fn unify_symbol_within(x: &Symbol, y: &Symbol, theta_list: &mut Vec<Theta>, fuel: usize) -> (r:
    Result<(), ReasoningError>)
    ensures
        unify_outcome(unify_terms(x@, y@, bindings(old(theta_list)@), fuel as nat), r, final(theta_list)@),
    decreases fuel, 0nat,
{
    if fuel == 0 {
        return Err(ReasoningError::UnifyError);
    }
    if symbol_eq(x, y) {
        return Ok(());
    }
    if let Symbol::Var(_) = x {
        return unify_var_within(x, y, theta_list, fuel - 1);
    }
    if let Symbol::Var(_) = y {
        return unify_var_within(y, x, theta_list, fuel - 1);
    }
    if let Symbol::Func(x_name, x_args) = x {
        if let Symbol::Func(y_name, y_args) = y {
            proof {
                lemma_func_args(x);
                lemma_func_args(y);
            }
            if !(*x_name == *y_name) || x_args.len() != y_args.len() {
                return Err(ReasoningError::UnifyError);
            }
            return unify_args_within(x_args, y_args, theta_list, fuel - 1);
        }
    }
    Err(ReasoningError::UnifyError)
}

fn unify_var_within(var: &Symbol, x: &Symbol, theta_list: &mut Vec<Theta>, fuel: usize) -> (r:
    Result<(), ReasoningError>)
    requires
        var@ is Var,
    ensures
        unify_outcome(unify_var_terms(var@, x@, bindings(old(theta_list)@), fuel as nat), r, final(theta_list)@),
    decreases fuel, 0nat,
{
    if fuel == 0 {
        return Err(ReasoningError::UnifyError);
    }
    if let Some(val) = subst_known(var, theta_list) {
        unify_symbol_within(&val, x, theta_list, fuel - 1)
    } else if let Some(val) = subst_known(x, theta_list) {
        unify_symbol_within(var, &val, theta_list, fuel - 1)
    } else {
        match Theta::new(var.duplicate(), x.duplicate()) {
            Ok(theta) => {
                proof {
                    lemma_bindings_push(theta_list@, theta);
                }
                theta_list.push(theta);
                Ok(())
            },
            Err(e) => Err(e),
        }
    }
}

fn unify_args_within(
    xs: &Vec<Symbol>,
    ys: &Vec<Symbol>,
    theta_list: &mut Vec<Theta>,
    fuel: usize,
) -> (r: Result<(), ReasoningError>)
    ensures
        unify_outcome(
            unify_args(terms_of(xs@), terms_of(ys@), bindings(old(theta_list)@), fuel as nat),
            r,
            final(theta_list)@,
        ),
    decreases fuel, 1nat,
{
    let ghost whole = unify_args(terms_of(xs@), terms_of(ys@), bindings(theta_list@), fuel as nat);
    assert(terms_of(xs@).subrange(0, xs.len() as int) =~= terms_of(xs@));
    assert(terms_of(ys@).subrange(0, ys.len() as int) =~= terms_of(ys@));
    let mut i: usize = 0;
    while i < xs.len() && i < ys.len()
        invariant
            i <= xs.len(),
            i <= ys.len(),
            whole == unify_args(terms_of(xs@), terms_of(ys@), bindings(old(theta_list)@), fuel as nat),
            whole == unify_args(
                terms_of(xs@).subrange(i as int, xs.len() as int),
                terms_of(ys@).subrange(i as int, ys.len() as int),
                bindings(theta_list@),
                fuel as nat,
            ),
        decreases xs.len() - i,
    {
        let ghost xr = terms_of(xs@).subrange(i as int, xs.len() as int);
        let ghost yr = terms_of(ys@).subrange(i as int, ys.len() as int);
        assert(xr.drop_first() =~= terms_of(xs@).subrange(i + 1, xs.len() as int));
        assert(yr.drop_first() =~= terms_of(ys@).subrange(i + 1, ys.len() as int));
        assert(xr[0] == xs@[i as int]@ && yr[0] == ys@[i as int]@);
        let ghost before = bindings(theta_list@);
        let step = unify_symbol_within(&xs[i], &ys[i], theta_list, fuel);
        if step.is_err() {
            assert(unify_terms(xr[0], yr[0], before, fuel as nat) is None);
            return step;
        }
        i = i + 1;
    }
    Ok(())
}

/// Unifies two terms, extending `theta_list` by the bindings that make them
/// equal; the recursion is bounded by the size of the problem.
pub fn unify_symbol(x: &Symbol, y: &Symbol, theta_list: &mut Vec<Theta>) -> (r: Result<
    (),
    ReasoningError,
>)
    ensures
        unify_outcome(
            unify_terms(x@, y@, bindings(old(theta_list)@), unify_budget(x@, y@, bindings(old(theta_list)@))),
            r,
            final(theta_list)@,
        ),
        r is Ok ==> extends(bindings(final(theta_list)@), bindings(old(theta_list)@)),
{
    let ghost env = bindings(theta_list@);
    let sx = symbol_size(x);
    let sy = symbol_size(y);
    let se = theta_size(theta_list);
    let size = sat_add(sat_add(sx, sy), se);
    let fuel = budget_from(size);
    assert(fuel == unify_budget(x@, y@, env));
    proof {
        lemma_unify_terms_extends(x@, y@, env, fuel as nat);
    }
    unify_symbol_within(x, y, theta_list, fuel)
}

/// Unifies the variable `var` with `x`: through `var`'s binding, else through
/// `x`'s, else by binding `var` to `x`.
pub fn unify_var(var: &Symbol, x: &Symbol, theta_list: &mut Vec<Theta>) -> (r: Result<
    (),
    ReasoningError,
>)
    requires
        var@ is Var,
    ensures
        ({
            let env = bindings(old(theta_list)@);
            match shallow(var@, env) {
                Some(v) => unify_outcome(
                    unify_terms(v, x@, env, unify_budget(v, x@, env)),
                    r,
                    final(theta_list)@,
                ),
                None => match shallow(x@, env) {
                    Some(w) => unify_outcome(
                        unify_terms(var@, w, env, unify_budget(var@, w, env)),
                        r,
                        final(theta_list)@,
                    ),
                    None => r is Ok && bindings(final(theta_list)@) == env.push((var@, x@)),
                },
            }
        }),
{
    if let Some(val) = subst_known(var, theta_list) {
        unify_symbol(&val, x, theta_list)
    } else if let Some(val) = subst_known(x, theta_list) {
        unify_symbol(var, &val, theta_list)
    } else {
        match Theta::new(var.duplicate(), x.duplicate()) {
            Ok(theta) => {
                proof {
                    lemma_bindings_push(theta_list@, theta);
                }
                theta_list.push(theta);
                Ok(())
            },
            Err(e) => Err(e),
        }
    }
}

/// Unifies two atoms, extending `theta_list` by the bindings that make them equal.
pub fn unify(x: &Atom, y: &Atom, theta_list: &mut Vec<Theta>) -> (r: Result<(), ReasoningError>)
    ensures
        unify_outcome(unify_atoms(x@, y@, bindings(old(theta_list)@)), r, final(theta_list)@),
        r is Ok ==> extends(bindings(final(theta_list)@), bindings(old(theta_list)@)),
        x@.predicate != y@.predicate || x@.args.len() != y@.args.len() ==> r is Err,
{
    let ghost env = bindings(theta_list@);
    if !(x.predicate == y.predicate) || x.args.len() != y.args.len() {
        return Err(ReasoningError::UnifyError);
    }
    let sx = symbol_sizes(&x.args);
    let sy = symbol_sizes(&y.args);
    let se = theta_size(theta_list);
    let size = sat_add(sat_add(sx, sy), se);
    let fuel = budget_from(size);
    assert(fuel == args_budget(x@.args, y@.args, env));
    proof {
        lemma_unify_args_extends(x@.args, y@.args, env, fuel as nat);
    }
    unify_args_within(&x.args, &y.args, theta_list, fuel)
}

/// `e` keeps every binding of `env`, in place, and may add more after them.
pub open spec fn extends(e: Seq<(Term, Term)>, env: Seq<(Term, Term)>) -> bool {
    env.len() <= e.len() && forall|i: int| 0 <= i < env.len() ==> #[trigger] e[i] == env[i]
}

/// Unification only appends bindings.
pub proof fn lemma_unify_terms_extends(x: Term, y: Term, env: Seq<(Term, Term)>, fuel: nat)
    ensures
        unify_terms(x, y, env, fuel) matches Some(e) ==> extends(e, env),
    decreases fuel, 0nat,
{
    if fuel > 0 && x != y {
        if x is Var {
            lemma_unify_var_extends(x, y, env, (fuel - 1) as nat);
        } else if y is Var {
            lemma_unify_var_extends(y, x, env, (fuel - 1) as nat);
        } else if let (Term::Func(f, xs), Term::Func(g, ys)) = (x, y) {
            lemma_unify_args_extends(xs, ys, env, (fuel - 1) as nat);
        }
    }
}

pub proof fn lemma_unify_var_extends(v: Term, t: Term, env: Seq<(Term, Term)>, fuel: nat)
    ensures
        unify_var_terms(v, t, env, fuel) matches Some(e) ==> extends(e, env),
    decreases fuel, 0nat,
{
    if fuel > 0 {
        match shallow(v, env) {
            Some(u) => lemma_unify_terms_extends(u, t, env, (fuel - 1) as nat),
            None => match shallow(t, env) {
                Some(u) => lemma_unify_terms_extends(v, u, env, (fuel - 1) as nat),
                None => {},
            },
        }
    }
}

pub proof fn lemma_unify_args_extends(
    xs: Seq<Term>,
    ys: Seq<Term>,
    env: Seq<(Term, Term)>,
    fuel: nat,
)
    ensures
        unify_args(xs, ys, env, fuel) matches Some(e) ==> extends(e, env),
    decreases fuel, xs.len(),
{
    if xs.len() > 0 && ys.len() > 0 {
        lemma_unify_terms_extends(xs[0], ys[0], env, fuel);
        if let Some(e) = unify_terms(xs[0], ys[0], env, fuel) {
            lemma_unify_args_extends(xs.drop_first(), ys.drop_first(), e, fuel);
        }
    }
}

/// Unifying an atom with itself succeeds, under any environment, and adds no binding.
pub proof fn lemma_unify_self(a: AtomView, env: Seq<(Term, Term)>)
    ensures
        unify_atoms(a, a, env) == Some(env),
{
    lemma_unify_args_self(a.args, env, args_budget(a.args, a.args, env));
}

/// Unifying a term with itself succeeds, under any environment, and adds no binding.
pub proof fn lemma_unify_term_self(t: Term, env: Seq<(Term, Term)>)
    ensures
        unify_terms(t, t, env, unify_budget(t, t, env)) == Some(env),
{
}

proof fn lemma_unify_args_self(xs: Seq<Term>, env: Seq<(Term, Term)>, fuel: nat)
    requires
        fuel > 0,
    ensures
        unify_args(xs, xs, env, fuel) == Some(env),
    decreases xs.len(),
{
    if xs.len() > 0 {
        assert(unify_terms(xs[0], xs[0], env, fuel) == Some(env));
        lemma_unify_args_self(xs.drop_first(), env, fuel);
    }
}

/// Atoms with different predicates, or with different numbers of arguments, never unify.
pub proof fn lemma_mismatch_fails(a: AtomView, b: AtomView, env: Seq<(Term, Term)>)
    requires
        a.predicate != b.predicate || a.args.len() != b.args.len(),
    ensures
        unify_atoms(a, b, env) is None,
{
}

/// No variable of `t` has a binding in `env`.
pub open spec fn settled(t: Term, env: Seq<(Term, Term)>) -> bool
    decreases t, 1nat,
{
    match t {
        Term::Var(n) => lookup(env, n) is None,
        Term::Val(_) => true,
        Term::Func(_, args) => all_settled(args, env),
    }
}

pub open spec fn all_settled(ts: Seq<Term>, env: Seq<(Term, Term)>) -> bool
    decreases ts, 0nat,
{
    if ts.len() == 0 {
        true
    } else {
        settled(ts.last(), env) && all_settled(ts.drop_last(), env)
    }
}

proof fn lemma_all_settled(ts: Seq<Term>, env: Seq<(Term, Term)>)
    ensures
        all_settled(ts, env) <==> forall|i: int| 0 <= i < ts.len() ==> #[trigger] settled(ts[i], env),
    decreases ts.len(),
{
    if ts.len() > 0 {
        lemma_all_settled(ts.drop_last(), env);
        assert forall|i: int| 0 <= i < ts.len() - 1 implies ts.drop_last()[i] == ts[i] by {}
        if forall|i: int| 0 <= i < ts.len() ==> #[trigger] settled(ts[i], env) {
            assert(settled(ts[ts.len() - 1], env));
            assert forall|i: int| 0 <= i < ts.drop_last().len() implies #[trigger] settled(
                ts.drop_last()[i],
                env,
            ) by {
                assert(settled(ts[i], env));
            }
        }
    }
}

/// Resolution leaves a settled term as it is.
pub proof fn lemma_resolve_settled(t: Term, env: Seq<(Term, Term)>, fuel: nat)
    requires
        settled(t, env),
    ensures
        resolve_within(t, env, fuel) == t,
    decreases t,
{
    if let Term::Func(f, args) = t {
        lemma_all_settled(args, env);
        let r = resolve_within(t, env, fuel);
        assert forall|i: int| 0 <= i < args.len() implies r->Func_1[i] == args[i] by {
            lemma_resolve_settled(args[i], env, fuel);
        }
        assert(r->Func_1 =~= args);
    }
}

/// Resolution is idempotent wherever its result is settled, that is wherever
/// no binding leads back to itself along the way.
pub proof fn lemma_resolve_idempotent(t: Term, env: Seq<(Term, Term)>)
    requires
        settled(resolve(t, env), env),
    ensures
        resolve(resolve(t, env), env) == resolve(t, env),
{
    lemma_resolve_settled(resolve(t, env), env, env.len());
}

/// A binding found in an environment is found, the same, in every extension of it.
proof fn lemma_lookup_extends(e: Seq<(Term, Term)>, e2: Seq<(Term, Term)>, n: Seq<char>)
    requires
        extends(e2, e),
        lookup(e, n) is Some,
    ensures
        lookup(e2, n) == lookup(e, n),
    decreases e.len(),
{
    assert(e2[0] == e[0]);
    if e[0].0 != Term::Var(n) {
        assert(extends(e2.drop_first(), e.drop_first()));
        lemma_lookup_extends(e.drop_first(), e2.drop_first(), n);
    }
}

/// A binding appended for an unbound variable is the one found for it.
proof fn lemma_lookup_push(e: Seq<(Term, Term)>, n: Seq<char>, b: Term)
    requires
        lookup(e, n) is None,
    ensures
        lookup(e.push((Term::Var(n), b)), n) == Some(b),
    decreases e.len(),
{
    let e2 = e.push((Term::Var(n), b));
    if e.len() > 0 {
        assert(e2[0] == e[0]);
        assert(e2.drop_first() =~= e.drop_first().push((Term::Var(n), b)));
        lemma_lookup_push(e.drop_first(), n, b);
    } else {
        assert(e2[0] == (Term::Var(n), b));
    }
}

/// Once a resolution is settled, more steps change nothing.
proof fn lemma_fuel_settled(t: Term, e: Seq<(Term, Term)>, f: nat, f2: nat)
    requires
        settled(resolve_within(t, e, f), e),
        f <= f2,
    ensures
        resolve_within(t, e, f2) == resolve_within(t, e, f),
    decreases f, t,
{
    match t {
        Term::Var(n) => {
            if let Some(u) = lookup(e, n) {
                if f > 0 {
                    lemma_fuel_settled(u, e, (f - 1) as nat, (f2 - 1) as nat);
                }
            }
        },
        Term::Val(_) => {},
        Term::Func(g, args) => {
            let r = resolve_within(t, e, f);
            let r2 = resolve_within(t, e, f2);
            lemma_all_settled(r->Func_1, e);
            assert forall|i: int| 0 <= i < args.len() implies r2->Func_1[i] == r->Func_1[i] by {
                assert(settled(r->Func_1[i], e));
                lemma_fuel_settled(args[i], e, f, f2);
            }
            assert(r2->Func_1 =~= r->Func_1);
        },
    }
}

/// Where a variable is bound, a settled resolution of it is the settled
/// resolution of its binding.
proof fn lemma_resolve_bound(v: Term, u: Term, e: Seq<(Term, Term)>, f: nat)
    requires
        v is Var,
        lookup(e, v->Var_0) == Some(u),
        settled(resolve_within(v, e, f), e),
    ensures
        settled(resolve_within(u, e, f), e),
        resolve_within(v, e, f) == resolve_within(u, e, f),
{
    assert(f > 0);
    lemma_fuel_settled(u, e, (f - 1) as nat, f);
}

proof fn lemma_unify_terms_sound(
    a: Term,
    b: Term,
    e: Seq<(Term, Term)>,
    fuel: nat,
    theta: Seq<(Term, Term)>,
    ext: Seq<(Term, Term)>,
    f: nat,
)
    requires
        unify_terms(a, b, e, fuel) == Some(theta),
        extends(ext, theta),
        settled(resolve_within(a, ext, f), ext),
        settled(resolve_within(b, ext, f), ext),
    ensures
        resolve_within(a, ext, f) == resolve_within(b, ext, f),
    decreases fuel, 0nat,
{
    if a != b {
        if a is Var {
            lemma_unify_var_sound(a, b, e, (fuel - 1) as nat, theta, ext, f);
        } else if b is Var {
            lemma_unify_var_sound(b, a, e, (fuel - 1) as nat, theta, ext, f);
        } else if let (Term::Func(g, xs), Term::Func(h, ys)) = (a, b) {
            let ra = resolve_within(a, ext, f);
            let rb = resolve_within(b, ext, f);
            lemma_all_settled(ra->Func_1, ext);
            lemma_all_settled(rb->Func_1, ext);
            assert forall|i: int| 0 <= i < xs.len() implies settled(
                resolve_within(#[trigger] xs[i], ext, f),
                ext,
            ) && settled(resolve_within(ys[i], ext, f), ext) by {
                assert(settled(ra->Func_1[i], ext));
                assert(settled(rb->Func_1[i], ext));
            }
            lemma_unify_args_sound(xs, ys, e, (fuel - 1) as nat, theta, ext, f);
            assert forall|i: int| 0 <= i < xs.len() implies ra->Func_1[i] == rb->Func_1[i] by {
                assert(resolve_within(xs[i], ext, f) == resolve_within(ys[i], ext, f));
            }
            assert(ra->Func_1 =~= rb->Func_1);
        }
    }
}

proof fn lemma_unify_var_sound(
    v: Term,
    t: Term,
    e: Seq<(Term, Term)>,
    fuel: nat,
    theta: Seq<(Term, Term)>,
    ext: Seq<(Term, Term)>,
    f: nat,
)
    requires
        v is Var,
        unify_var_terms(v, t, e, fuel) == Some(theta),
        extends(ext, theta),
        settled(resolve_within(v, ext, f), ext),
        settled(resolve_within(t, ext, f), ext),
    ensures
        resolve_within(v, ext, f) == resolve_within(t, ext, f),
    decreases fuel, 0nat,
{
    lemma_unify_var_extends(v, t, e, fuel);
    match shallow(v, e) {
        Some(u) => {
            lemma_unify_terms_extends(u, t, e, (fuel - 1) as nat);
            lemma_lookup_extends(e, ext, v->Var_0);
            lemma_resolve_bound(v, u, ext, f);
            lemma_unify_terms_sound(u, t, e, (fuel - 1) as nat, theta, ext, f);
        },
        None => match shallow(t, e) {
            Some(u) => {
                lemma_lookup_extends(e, ext, t->Var_0);
                lemma_resolve_bound(t, u, ext, f);
                lemma_unify_terms_sound(v, u, e, (fuel - 1) as nat, theta, ext, f);
            },
            None => {
                lemma_lookup_push(e, v->Var_0, t);
                assert(theta == e.push((v, t)));
                lemma_lookup_extends(theta, ext, v->Var_0);
                lemma_resolve_bound(v, t, ext, f);
            },
        },
    }
}

proof fn lemma_unify_args_sound(
    xs: Seq<Term>,
    ys: Seq<Term>,
    e: Seq<(Term, Term)>,
    fuel: nat,
    theta: Seq<(Term, Term)>,
    ext: Seq<(Term, Term)>,
    f: nat,
)
    requires
        unify_args(xs, ys, e, fuel) == Some(theta),
        extends(ext, theta),
        xs.len() == ys.len(),
        forall|i: int|
            0 <= i < xs.len() ==> settled(resolve_within(#[trigger] xs[i], ext, f), ext) && settled(
                resolve_within(ys[i], ext, f),
                ext,
            ),
    ensures
        forall|i: int|
            0 <= i < xs.len() ==> resolve_within(#[trigger] xs[i], ext, f) == resolve_within(
                ys[i],
                ext,
                f,
            ),
    decreases fuel, xs.len(),
{
    if xs.len() > 0 {
        let e1 = unify_terms(xs[0], ys[0], e, fuel)->0;
        lemma_unify_args_extends(xs.drop_first(), ys.drop_first(), e1, fuel);
        assert(settled(resolve_within(xs[0], ext, f), ext));
        lemma_unify_terms_sound(xs[0], ys[0], e, fuel, e1, ext, f);
        assert forall|i: int| 0 <= i < xs.len() - 1 implies settled(
            resolve_within(#[trigger] xs.drop_first()[i], ext, f),
            ext,
        ) && settled(resolve_within(ys.drop_first()[i], ext, f), ext) by {
            assert(xs.drop_first()[i] == xs[i + 1]);
            assert(ys.drop_first()[i] == ys[i + 1]);
        }
        lemma_unify_args_sound(xs.drop_first(), ys.drop_first(), e1, fuel, theta, ext, f);
        assert forall|i: int| 0 <= i < xs.len() implies resolve_within(#[trigger] xs[i], ext, f)
            == resolve_within(ys[i], ext, f) by {
            if i > 0 {
                assert(xs.drop_first()[i - 1] == xs[i]);
                assert(ys.drop_first()[i - 1] == ys[i]);
            }
        }
    }
}

/// Unification is sound: after it succeeds, both terms resolve to the same
/// term, wherever their resolution is complete (no binding leads back into
/// itself).
pub proof fn lemma_unify_sound(a: Term, b: Term, env: Seq<(Term, Term)>)
    requires
        unify_terms(a, b, env, unify_budget(a, b, env)) is Some,
        settled(resolve(a, unify_terms(a, b, env, unify_budget(a, b, env))->0), unify_terms(a, b, env, unify_budget(a, b, env))->0),
        settled(resolve(b, unify_terms(a, b, env, unify_budget(a, b, env))->0), unify_terms(a, b, env, unify_budget(a, b, env))->0),
    ensures
        resolve(a, unify_terms(a, b, env, unify_budget(a, b, env))->0) == resolve(
            b,
            unify_terms(a, b, env, unify_budget(a, b, env))->0,
        ),
{
    let theta = unify_terms(a, b, env, unify_budget(a, b, env))->0;
    lemma_unify_terms_sound(a, b, env, unify_budget(a, b, env), theta, theta, theta.len());
}

/// Every bound variable of `t` has a rank below `r`.
pub open spec fn ranked_below(t: Term, e: Seq<(Term, Term)>, rank: Map<Seq<char>, nat>, r: nat) -> bool
    decreases t, 1nat,
{
    match t {
        Term::Var(n) => lookup(e, n) is None || (rank.dom().contains(n) && rank[n] < r),
        Term::Val(_) => true,
        Term::Func(_, args) => all_ranked_below(args, e, rank, r),
    }
}

pub open spec fn all_ranked_below(
    ts: Seq<Term>,
    e: Seq<(Term, Term)>,
    rank: Map<Seq<char>, nat>,
    r: nat,
) -> bool
    decreases ts, 0nat,
{
    if ts.len() == 0 {
        true
    } else {
        ranked_below(ts.last(), e, rank, r) && all_ranked_below(ts.drop_last(), e, rank, r)
    }
}

/// `rank` orders the bound variables of `e` so that each binding mentions only
/// bound variables of lower rank, all ranks below the number of bindings.
pub open spec fn ranks(e: Seq<(Term, Term)>, rank: Map<Seq<char>, nat>) -> bool {
    forall|n: Seq<char>|
        #[trigger] lookup(e, n) is Some ==> rank.dom().contains(n) && rank[n] < e.len()
            && ranked_below(lookup(e, n)->0, e, rank, rank[n])
}

/// No binding of the environment leads, through other bindings, back to itself.
pub open spec fn acyclic(e: Seq<(Term, Term)>) -> bool {
    exists|rank: Map<Seq<char>, nat>| ranks(e, rank)
}

proof fn lemma_all_ranked_below(ts: Seq<Term>, e: Seq<(Term, Term)>, rank: Map<Seq<char>, nat>, r: nat)
    ensures
        all_ranked_below(ts, e, rank, r) <==> forall|i: int|
            0 <= i < ts.len() ==> #[trigger] ranked_below(ts[i], e, rank, r),
    decreases ts.len(),
{
    if ts.len() > 0 {
        lemma_all_ranked_below(ts.drop_last(), e, rank, r);
        assert forall|i: int| 0 <= i < ts.len() - 1 implies ts.drop_last()[i] == ts[i] by {}
        if forall|i: int| 0 <= i < ts.len() ==> #[trigger] ranked_below(ts[i], e, rank, r) {
            assert(ranked_below(ts[ts.len() - 1], e, rank, r));
            assert forall|i: int| 0 <= i < ts.drop_last().len() implies #[trigger] ranked_below(
                ts.drop_last()[i],
                e,
                rank,
                r,
            ) by {
                assert(ranked_below(ts[i], e, rank, r));
            }
        }
    }
}

/// Under a ranking, every term is ranked below the number of bindings.
proof fn lemma_ranked_below_len(t: Term, e: Seq<(Term, Term)>, rank: Map<Seq<char>, nat>)
    requires
        ranks(e, rank),
    ensures
        ranked_below(t, e, rank, e.len()),
    decreases t,
{
    match t {
        Term::Var(n) => {
            assert(lookup(e, n) is Some ==> rank[n] < e.len());
        },
        Term::Val(_) => {},
        Term::Func(_, args) => {
            assert forall|i: int| 0 <= i < args.len() implies #[trigger] ranked_below(
                args[i],
                e,
                rank,
                e.len(),
            ) by {
                lemma_ranked_below_len(args[i], e, rank);
            }
            lemma_all_ranked_below(args, e, rank, e.len());
        },
    }
}

/// Enough steps, as counted by the ranking, resolve a term completely.
proof fn lemma_ranked_settles(t: Term, e: Seq<(Term, Term)>, rank: Map<Seq<char>, nat>, r: nat, f: nat)
    requires
        ranks(e, rank),
        ranked_below(t, e, rank, r),
        r <= f,
    ensures
        settled(resolve_within(t, e, f), e),
    decreases f, t,
{
    match t {
        Term::Var(n) => {
            if let Some(u) = lookup(e, n) {
                lemma_ranked_settles(u, e, rank, rank[n], (f - 1) as nat);
            }
        },
        Term::Val(_) => {},
        Term::Func(_, args) => {
            let res = resolve_within(t, e, f);
            lemma_all_ranked_below(args, e, rank, r);
            assert forall|i: int| 0 <= i < args.len() implies #[trigger] settled(res->Func_1[i], e) by {
                assert(ranked_below(args[i], e, rank, r));
                lemma_ranked_settles(args[i], e, rank, r, f);
            }
            lemma_all_settled(res->Func_1, e);
        },
    }
}

/// In an acyclic environment resolution is complete: no bound variable is left.
pub proof fn lemma_acyclic_settles(t: Term, e: Seq<(Term, Term)>)
    requires
        acyclic(e),
    ensures
        settled(resolve(t, e), e),
{
    let rank = choose|rank: Map<Seq<char>, nat>| ranks(e, rank);
    lemma_ranked_below_len(t, e, rank);
    lemma_ranked_settles(t, e, rank, e.len(), e.len());
}

/// Resolution in an acyclic environment is idempotent.
pub proof fn lemma_resolve_idempotent_acyclic(t: Term, env: Seq<(Term, Term)>)
    requires
        acyclic(env),
    ensures
        resolve(resolve(t, env), env) == resolve(t, env),
{
    lemma_acyclic_settles(t, env);
    lemma_resolve_idempotent(t, env);
}

/// Unification is sound wherever it leaves an acyclic environment: both terms
/// then resolve to the same term.
pub proof fn lemma_unify_sound_acyclic(a: Term, b: Term, env: Seq<(Term, Term)>)
    requires
        unify_terms(a, b, env, unify_budget(a, b, env)) is Some,
        acyclic(unify_terms(a, b, env, unify_budget(a, b, env))->0),
    ensures
        resolve(a, unify_terms(a, b, env, unify_budget(a, b, env))->0) == resolve(
            b,
            unify_terms(a, b, env, unify_budget(a, b, env))->0,
        ),
{
    let theta = unify_terms(a, b, env, unify_budget(a, b, env))->0;
    lemma_acyclic_settles(a, theta);
    lemma_acyclic_settles(b, theta);
    lemma_unify_sound(a, b, env);
}

} // verus!
