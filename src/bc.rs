//! The backward-chaining search: depth-first over goal lists, with a cycle
//! guard, a depth bound and a memo of proved ground facts.
use vstd::prelude::*;

use crate::kb::{rename_rule, KB};
use crate::term::{atoms_of, duplicate_atoms, Atom, AtomView, Rule, RuleView, Term};
use crate::unify::{bindings, extends, unify, unify_atoms, Theta};
use crate::ReasoningError;

verus! {

/// A way to go on with a goal: the conditions of a rule whose conclusion
/// unifies with it, and the environment that unification produced.
pub struct Ckpt {
    pub theorems: Vec<Atom>,
    pub thetas: Vec<Theta>,
}

impl View for Ckpt {
    type V = (Seq<AtomView>, Seq<(Term, Term)>);

    open spec fn view(&self) -> (Seq<AtomView>, Seq<(Term, Term)>) {
        (atoms_of(self.theorems@), bindings(self.thetas@))
    }
}

/// What one rule offers for `goal`: its conditions and the unifying
/// environment, or nothing where its conclusion does not unify.
pub open spec fn candidate_of(r: RuleView, goal: AtomView, env: Seq<(Term, Term)>) -> Seq<
    (Seq<AtomView>, Seq<(Term, Term)>),
> {
    match unify_atoms(goal, r.conclusion, env) {
        Some(e) => seq![(r.condition, e)],
        None => Seq::empty(),
    }
}

/// What each rule offers for `goal`, in the order of the rules.
pub open spec fn candidates(rules: Seq<RuleView>, goal: AtomView, env: Seq<(Term, Term)>) -> Seq<
    (Seq<AtomView>, Seq<(Term, Term)>),
>
    decreases rules.len(),
{
    if rules.len() == 0 {
        Seq::empty()
    } else {
        candidates(rules.drop_last(), goal, env) + candidate_of(rules.last(), goal, env)
    }
}

pub open spec fn rules_of(v: Seq<Rule>) -> Seq<RuleView> {
    v.map_values(|r: Rule| r@)
}

/// Each candidate comes from a rule whose conclusion has the goal's
/// predicate, and only adds bindings.
pub proof fn lemma_candidates_origin(rules: Seq<RuleView>, goal: AtomView, env: Seq<(Term, Term)>)
    ensures
        forall|i: int|
            0 <= i < candidates(rules, goal, env).len() ==> {
                let c = #[trigger] candidates(rules, goal, env)[i];
                &&& extends(c.1, env)
                &&& exists|k: int|
                    0 <= k < rules.len() && c.0 == rules[k].condition
                        && rules[k].conclusion.predicate == goal.predicate
            },
    decreases rules.len(),
{
    if rules.len() > 0 {
        let init = rules.drop_last();
        lemma_candidates_origin(init, goal, env);
        let r = rules.last();
        crate::unify::lemma_unify_args_extends(
            goal.args,
            r.conclusion.args,
            env,
            crate::unify::args_budget(goal.args, r.conclusion.args, env),
        );
        let cs = candidates(rules, goal, env);
        assert forall|i: int| 0 <= i < cs.len() implies {
            let c = #[trigger] cs[i];
            &&& extends(c.1, env)
            &&& exists|k: int|
                0 <= k < rules.len() && c.0 == rules[k].condition
                    && rules[k].conclusion.predicate == goal.predicate
        } by {
            let c = cs[i];
            if i < candidates(init, goal, env).len() {
                assert(c == candidates(init, goal, env)[i]);
                let k = choose|k: int|
                    0 <= k < init.len() && c.0 == init[k].condition
                        && init[k].conclusion.predicate == goal.predicate;
                assert(init[k] == rules[k]);
            } else {
                assert(c == candidate_of(r, goal, env)[0]);
                assert(rules[rules.len() - 1] == r);
            }
        }
    }
}

/// Copies of the bindings of an environment.
fn copy_env(thetas: &[Theta]) -> (r: Vec<Theta>)
    ensures
        bindings(r@) == bindings(thetas@),
{
    let mut out = Vec::<Theta>::new();
    let mut i: usize = 0;
    while i < thetas.len()
        invariant
            i <= thetas.len(),
            out@.len() == i,
            forall|j: int| 0 <= j < i ==> #[trigger] out@[j]@ == thetas@[j]@,
        decreases thetas.len() - i,
    {
        out.push(thetas[i].duplicate());
        i = i + 1;
    }
    assert(bindings(out@) =~= bindings(thetas@));
    out
}

/// Every rule whose conclusion unifies with `theorem`, in order, each with the
/// environment that unification produced from `thetas`.
pub fn get_prove_path(rules: &[Rule], theorem: &Atom, thetas: &[Theta]) -> (r: Result<
    Vec<Ckpt>,
    ReasoningError,
>)
    ensures
        r is Ok <==> candidates(rules_of(rules@), theorem@, bindings(thetas@)).len() > 0,
        r matches Ok(v) ==> v@.map_values(|c: Ckpt| c@) == candidates(
            rules_of(rules@),
            theorem@,
            bindings(thetas@),
        ),
        r matches Err(e) ==> e is ProofNotFound,
{
    let ghost env = bindings(thetas@);
    let mut to_prove_list = Vec::<Ckpt>::new();
    let mut i: usize = 0;
    while i < rules.len()
        invariant
            i <= rules.len(),
            env == bindings(thetas@),
            to_prove_list@.map_values(|c: Ckpt| c@) == candidates(
                rules_of(rules@).subrange(0, i as int),
                theorem@,
                env,
            ),
        decreases rules.len() - i,
    {
        let ghost prefix = rules_of(rules@).subrange(0, i as int + 1);
        assert(prefix.drop_last() =~= rules_of(rules@).subrange(0, i as int));
        assert(prefix.last() == rules@[i as int]@);
        let mut tmp_thetas = copy_env(thetas);
        let ghost before = to_prove_list@;
        if unify(theorem, &rules[i].conclusion, &mut tmp_thetas).is_ok() {
            to_prove_list.push(
                Ckpt { theorems: duplicate_atoms(&rules[i].condition), thetas: tmp_thetas },
            );
            assert(to_prove_list@.map_values(|c: Ckpt| c@) =~= before.map_values(|c: Ckpt| c@)
                + candidate_of(rules@[i as int]@, theorem@, env));
        } else {
            assert(candidate_of(rules@[i as int]@, theorem@, env) =~= Seq::empty());
            assert(candidates(prefix, theorem@, env) =~= candidates(
                rules_of(rules@).subrange(0, i as int),
                theorem@,
                env,
            ));
        }
        i = i + 1;
    }
    assert(rules_of(rules@).subrange(0, rules.len() as int) =~= rules_of(rules@));
    if to_prove_list.len() == 0 {
        Err(ReasoningError::ProofNotFound)
    } else {
        Ok(to_prove_list)
    }
}

/// The errors with which a search fails.
pub open spec fn is_search_failure(e: ReasoningError) -> bool {
    e is CycleProof || e is DepthLimitExceed || e is ProofNotFound
}

/// Some atom of the list has the predicate `p`.
pub open spec fn has_pred(atoms: Seq<AtomView>, p: Seq<char>) -> bool {
    exists|i: int| 0 <= i < atoms.len() && (#[trigger] atoms[i]).predicate == p
}

/// Every rule that concludes `p` needs `p` among its conditions: nothing
/// can ever establish `p` from the rules alone.
pub open spec fn unfounded(kb: Seq<RuleView>, p: Seq<char>) -> bool {
    forall|k: int|
        0 <= k < kb.len() && (#[trigger] kb[k]).conclusion.predicate == p ==> has_pred(
            kb[k].condition,
            p,
        )
}

/// Every atom of the list is ground.
pub open spec fn all_ground_atoms(atoms: Seq<AtomView>) -> bool {
    forall|i: int| 0 <= i < atoms.len() ==> crate::term::is_ground_atom(#[trigger] atoms[i])
}

/// `t` keeps every element of `s`, in place, and may add more after them.
pub open spec fn grows<A>(t: Seq<A>, s: Seq<A>) -> bool {
    s.len() <= t.len() && forall|i: int| 0 <= i < s.len() ==> #[trigger] t[i] == s[i]
}

/// Copies of every rule of the knowledge base, renamed under `tag`.
fn standardize_all(kb: &KB, tag: usize) -> (r: Vec<Rule>)
    ensures
        r@.len() == kb@.len(),
        forall|k: int| 0 <= k < kb@.len() ==> #[trigger] r@[k]@ == rename_rule(kb@[k], tag as nat),
{
    let mut rules = Vec::<Rule>::new();
    let mut k: usize = 0;
    while k < kb.rules.len()
        invariant
            k <= kb.rules.len(),
            rules@.len() == k,
            forall|j: int|
                0 <= j < k ==> #[trigger] rules@[j]@ == rename_rule(kb.rules@[j]@, tag as nat),
        decreases kb.rules.len() - k,
    {
        rules.push(KB::rule_standardize(&kb.rules[k], tag));
        k = k + 1;
    }
    rules
}

/// The state a search leaves behind: its result, the environment (changed
/// only on success), the step counter and the memo of proved ground facts.
pub struct Outcome {
    pub result: Result<(), ReasoningError>,
    pub env: Seq<(Term, Term)>,
    pub tag: nat,
    pub memo: Seq<AtomView>,
}

/// The rules of the knowledge base, renamed under `tag`.
pub open spec fn standardized(kb: Seq<RuleView>, tag: nat) -> Seq<RuleView> {
    kb.map_values(|r: RuleView| rename_rule(r, tag))
}

/// Depth-first proof of the conjunction `goals`, left to right.
///
/// The first goal, resolved, is skipped if memoized, fails as a cycle if it
/// is on the stack and fails past the depth bound (or once the step counter
/// can grow no further); else the step counter grows, every rule is renamed
/// under it, and the rules whose conclusion unifies with the goal are tried
/// in order.
pub open spec fn search(
    kb: Seq<RuleView>,
    goals: Seq<AtomView>,
    env: Seq<(Term, Term)>,
    tag: nat,
    memo: Seq<AtomView>,
    stack: Seq<AtomView>,
    depth: nat,
    max_depth: nat,
) -> Outcome
    decreases max_depth + 1 - depth, goals.len(), 1nat, 0nat,
{
    if goals.len() == 0 {
        Outcome { result: Ok(()), env, tag, memo }
    } else {
        let g = crate::unify::resolve_atom(goals[0], env);
        if memo.contains(g) {
            search(kb, goals.drop_first(), env, tag, memo, stack, depth, max_depth)
        } else if stack.contains(g) {
            Outcome { result: Err(ReasoningError::CycleProof), env, tag, memo }
        } else if depth > max_depth || tag >= usize::MAX {
            Outcome { result: Err(ReasoningError::DepthLimitExceed), env, tag, memo }
        } else {
            let cands = candidates(standardized(kb, tag + 1), g, env);
            try_candidates(kb, goals, g, cands, 0, env, tag + 1, memo, stack, depth, max_depth)
        }
    }
}

/// The candidates `cands[k..]` for the goal `g` (the first of `goals`, resolved),
/// tried in order: a candidate's conditions one level deeper with `g` on the
/// stack, then the remaining goals at the same depth.
pub open spec fn try_candidates(
    kb: Seq<RuleView>,
    goals: Seq<AtomView>,
    g: AtomView,
    cands: Seq<(Seq<AtomView>, Seq<(Term, Term)>)>,
    k: nat,
    env: Seq<(Term, Term)>,
    tag: nat,
    memo: Seq<AtomView>,
    stack: Seq<AtomView>,
    depth: nat,
    max_depth: nat,
) -> Outcome
    decreases max_depth + 1 - depth, goals.len(), 0nat, cands.len() - k,
{
    if k >= cands.len() || depth > max_depth || goals.len() == 0 {
        Outcome { result: Err(ReasoningError::ProofNotFound), env, tag, memo }
    } else {
        let c = cands[k as int];
        let sub = search(kb, c.0, c.1, tag, memo, stack.push(g), depth + 1, max_depth);
        if sub.result is Ok {
            let rest = search(
                kb,
                goals.drop_first(),
                sub.env,
                sub.tag,
                sub.memo,
                stack,
                depth,
                max_depth,
            );
            if rest.result is Ok {
                Outcome {
                    result: Ok(()),
                    env: rest.env,
                    tag: rest.tag,
                    memo: if crate::term::is_ground_atom(g) {
                        rest.memo.push(g)
                    } else {
                        rest.memo
                    },
                }
            } else {
                try_candidates(
                    kb,
                    goals,
                    g,
                    cands,
                    k + 1,
                    env,
                    rest.tag,
                    rest.memo,
                    stack,
                    depth,
                    max_depth,
                )
            }
        } else {
            try_candidates(kb, goals, g, cands, k + 1, env, sub.tag, sub.memo, stack, depth, max_depth)
        }
    }
}

/// A goal whose resolved form is already memoized succeeds at once: no step
/// is counted, no rule is tried, and nothing else changes.
pub proof fn lemma_memoized_goal(
    kb: Seq<RuleView>,
    f: AtomView,
    env: Seq<(Term, Term)>,
    tag: nat,
    memo: Seq<AtomView>,
    stack: Seq<AtomView>,
    depth: nat,
    max_depth: nat,
)
    requires
        memo.contains(crate::unify::resolve_atom(f, env)),
    ensures
        search(kb, seq![f], env, tag, memo, stack, depth, max_depth) == (Outcome {
            result: Ok(()),
            env,
            tag,
            memo,
        }),
{
    assert(seq![f].drop_first() =~= Seq::<AtomView>::empty());
    assert(seq![f][0] == f);
    assert(search(kb, Seq::empty(), env, tag, memo, stack, depth, max_depth) == (Outcome {
        result: Ok(()),
        env,
        tag,
        memo,
    }));
}

/// Proves the goals `goals[start..]` in order, left to right.
fn bc_core(
    kb: &KB,
    goals: &Vec<Atom>,
    start: usize,
    thetas: &mut Vec<Theta>,
    call_time: &mut usize,
    call_stack: &mut Vec<Atom>,
    depth: usize,
    max_depth: usize,
    facts: &mut Vec<Atom>,
    Ghost(p): Ghost<Seq<char>>,
) -> (r: Result<(), ReasoningError>)
    requires
        start <= goals.len(),
        max_depth < usize::MAX,
        all_ground_atoms(atoms_of(old(facts)@)),
    ensures
        ({
            let o = search(
                kb@,
                atoms_of(goals@).subrange(start as int, goals.len() as int),
                bindings(old(thetas)@),
                *old(call_time) as nat,
                atoms_of(old(facts)@),
                atoms_of(old(call_stack)@),
                depth as nat,
                max_depth as nat,
            );
            &&& r == o.result
            &&& bindings(final(thetas)@) == o.env
            &&& *final(call_time) == o.tag
            &&& atoms_of(final(facts)@) == o.memo
        }),
        final(call_stack)@ == old(call_stack)@,
        *old(call_time) <= *final(call_time),
        grows(final(facts)@, old(facts)@),
        all_ground_atoms(atoms_of(final(facts)@)),
        r is Err ==> final(thetas)@ == old(thetas)@,
        r is Ok ==> extends(bindings(final(thetas)@), bindings(old(thetas)@)),
        r matches Err(e) ==> is_search_failure(e),
        start == goals.len() ==> {
            &&& r is Ok
            &&& final(thetas)@ == old(thetas)@
            &&& *final(call_time) == *old(call_time)
            &&& final(facts)@ == old(facts)@
        },
        // a memoized last goal is settled without a search step
        start + 1 == goals.len() && atoms_of(old(facts)@).contains(
            crate::unify::resolve_atom(goals@[start as int]@, bindings(old(thetas)@)),
        ) ==> r is Ok && *final(call_time) == *old(call_time),
        // a predicate that no rule can found is never proved
        unfounded(kb@, p) && !has_pred(atoms_of(old(facts)@), p) ==> {
            &&& !has_pred(atoms_of(final(facts)@), p)
            &&& r is Ok ==> forall|i: int|
                start <= i < goals.len() ==> (#[trigger] goals@[i]@).predicate != p
        },
    decreases max_depth + 1 - depth, goals.len() - start,
{
    if start >= goals.len() {
        return Ok(());
    }
    let head = &goals[start];
    let subst_theorem = crate::unify::exhaust_subst(head, thetas);
    let ghost gs = atoms_of(goals@).subrange(start as int, goals.len() as int);
    assert(gs[0] == goals@[start as int]@);
    assert(gs.drop_first() =~= atoms_of(goals@).subrange(start as int + 1, goals.len() as int));
    if crate::term::contains_atom(facts, &subst_theorem) {
        proof {
            if unfounded(kb@, p) && !has_pred(atoms_of(old(facts)@), p) {
                let j = choose|j: int|
                    0 <= j < atoms_of(facts@).len() && atoms_of(facts@)[j] == subst_theorem@;
                assert(atoms_of(old(facts)@)[j].predicate == subst_theorem@.predicate);
                assert(goals@[start as int]@.predicate == subst_theorem@.predicate);
            }
        }
        return bc_core(
            kb,
            goals,
            start + 1,
            thetas,
            call_time,
            call_stack,
            depth,
            max_depth,
            facts,
            Ghost(p),
        );
    }
    if crate::term::contains_atom(call_stack, &subst_theorem) {
        return Err(ReasoningError::CycleProof);
    }
    if depth > max_depth {
        return Err(ReasoningError::DepthLimitExceed);
    }
    if *call_time == usize::MAX {
        return Err(ReasoningError::DepthLimitExceed);
    }
    *call_time = *call_time + 1;
    let rules = standardize_all(kb, *call_time);
    assert(rules_of(rules@) =~= standardized(kb@, *call_time as nat));
    let paths = match get_prove_path(&rules, &subst_theorem, thetas) {
        Ok(paths) => paths,
        Err(_) => {
            proof {
                let cs = candidates(rules_of(rules@), subst_theorem@, bindings(thetas@));
                assert(cs.len() == 0);
                assert(search(
                    kb@,
                    gs,
                    bindings(old(thetas)@),
                    *old(call_time) as nat,
                    atoms_of(old(facts)@),
                    atoms_of(old(call_stack)@),
                    depth as nat,
                    max_depth as nat,
                ) == try_candidates(
                    kb@,
                    gs,
                    subst_theorem@,
                    cs,
                    0,
                    bindings(thetas@),
                    *call_time as nat,
                    atoms_of(facts@),
                    atoms_of(call_stack@),
                    depth as nat,
                    max_depth as nat,
                ));
            }
            return Err(ReasoningError::ProofNotFound);
        },
    };
    let ghost env0 = bindings(thetas@);
    let ghost tag = *call_time;
    let ghost whole = search(
        kb@,
        gs,
        bindings(old(thetas)@),
        *old(call_time) as nat,
        atoms_of(old(facts)@),
        atoms_of(old(call_stack)@),
        depth as nat,
        max_depth as nat,
    );
    assert(whole == try_candidates(
        kb@,
        gs,
        subst_theorem@,
        candidates(rules_of(rules@), subst_theorem@, env0),
        0,
        env0,
        tag as nat,
        atoms_of(facts@),
        atoms_of(call_stack@),
        depth as nat,
        max_depth as nat,
    ));
    let ghost cands = candidates(rules_of(rules@), subst_theorem@, env0);
    proof {
        lemma_candidates_origin(rules_of(rules@), subst_theorem@, env0);
    }
    let mut k: usize = 0;
    while k < paths.len()
        invariant
            k <= paths.len(),
            start < goals.len(),
            depth <= max_depth,
            max_depth < usize::MAX,
            paths@.map_values(|c: Ckpt| c@) == cands,
            gs == atoms_of(goals@).subrange(start as int, goals.len() as int),
            gs.drop_first() == atoms_of(goals@).subrange(start as int + 1, goals.len() as int),
            gs.len() > 0,
            whole == search(
                kb@,
                gs,
                bindings(old(thetas)@),
                *old(call_time) as nat,
                atoms_of(old(facts)@),
                atoms_of(old(call_stack)@),
                depth as nat,
                max_depth as nat,
            ),
            whole == try_candidates(
                kb@,
                gs,
                subst_theorem@,
                cands,
                k as nat,
                env0,
                *call_time as nat,
                atoms_of(facts@),
                atoms_of(old(call_stack)@),
                depth as nat,
                max_depth as nat,
            ),
            cands == candidates(rules_of(rules@), subst_theorem@, env0),
            forall|i: int|
                0 <= i < cands.len() ==> {
                    let c = #[trigger] cands[i];
                    &&& extends(c.1, env0)
                    &&& exists|j: int|
                        0 <= j < rules_of(rules@).len() && c.0 == rules_of(rules@)[j].condition
                            && rules_of(rules@)[j].conclusion.predicate == subst_theorem@.predicate
                },
            rules@.len() == kb@.len(),
            forall|j: int|
                0 <= j < kb@.len() ==> #[trigger] rules@[j]@ == rename_rule(kb@[j], tag as nat),
            subst_theorem@ == crate::unify::resolve_atom(goals@[start as int]@, env0),
            thetas@ == old(thetas)@,
            env0 == bindings(old(thetas)@),
            !atoms_of(old(facts)@).contains(subst_theorem@),
            call_stack@ == old(call_stack)@,
            *old(call_time) < *call_time,
            grows(facts@, old(facts)@),
            all_ground_atoms(atoms_of(facts@)),
            unfounded(kb@, p) && !has_pred(atoms_of(old(facts)@), p) ==> !has_pred(
                atoms_of(facts@),
                p,
            ),
        decreases paths.len() - k,
    {
        let ghost ck = cands[k as int];
        assert(paths@[k as int]@ == ck);
        let mut tmp_thetas = copy_env(&paths[k].thetas);
        let ghost stack_before = call_stack@;
        call_stack.push(subst_theorem.duplicate());
        assert(atoms_of(call_stack@) =~= atoms_of(stack_before).push(subst_theorem@));
        assert(atoms_of(paths@[k as int].theorems@).subrange(0, paths@[k as int].theorems@.len() as int)
            =~= ck.0);
        let ghost tag_k = *call_time as nat;
        let ghost memo_k = atoms_of(facts@);
        let ghost sub_o = search(
            kb@,
            ck.0,
            ck.1,
            tag_k,
            memo_k,
            atoms_of(old(call_stack)@).push(subst_theorem@),
            depth as nat + 1,
            max_depth as nat,
        );
        let sub = bc_core(
            kb,
            &paths[k].theorems,
            0,
            &mut tmp_thetas,
            call_time,
            call_stack,
            depth + 1,
            max_depth,
            facts,
            Ghost(p),
        );
        call_stack.pop();
        proof {
            assert(call_stack@ =~= old(call_stack)@);
        }
        assert(sub == sub_o.result && bindings(tmp_thetas@) == sub_o.env);
        assert(*call_time == sub_o.tag && atoms_of(facts@) == sub_o.memo);
        let ghost rest_o = search(
            kb@,
            gs.drop_first(),
            sub_o.env,
            sub_o.tag,
            sub_o.memo,
            atoms_of(old(call_stack)@),
            depth as nat,
            max_depth as nat,
        );
        if sub.is_ok() {
            let rest = bc_core(
                kb,
                goals,
                start + 1,
                &mut tmp_thetas,
                call_time,
                call_stack,
                depth,
                max_depth,
                facts,
                Ghost(p),
            );
            assert(rest == rest_o.result && bindings(tmp_thetas@) == rest_o.env);
            assert(*call_time == rest_o.tag && atoms_of(facts@) == rest_o.memo);
            if rest.is_ok() {
                let ghost facts_before = facts@;
                if !subst_theorem.contains_var() {
                    facts.push(subst_theorem.duplicate());
                    assert(atoms_of(facts@) =~= atoms_of(facts_before).push(subst_theorem@));
                }
                proof {
                    if unfounded(kb@, p) && !has_pred(atoms_of(old(facts)@), p) {
                        let j = choose|j: int|
                            0 <= j < rules_of(rules@).len() && ck.0 == rules_of(rules@)[j].condition
                                && rules_of(rules@)[j].conclusion.predicate == subst_theorem@.predicate;
                        assert(rules_of(rules@)[j] == rename_rule(kb@[j], tag as nat));
                        if subst_theorem@.predicate == p {
                            assert(kb@[j].conclusion.predicate == p);
                            let q = choose|q: int|
                                0 <= q < kb@[j].condition.len() && (#[trigger] kb@[j].condition[q]).predicate == p;
                            assert(ck.0[q].predicate == p);
                            assert(paths@[k as int].theorems@[q]@ == ck.0[q]);
                            assert(false);
                        }
                        assert forall|i: int|
                            start <= i < goals.len() implies (#[trigger] goals@[i]@).predicate != p by {
                            if i == start {
                                assert(goals@[start as int]@.predicate == subst_theorem@.predicate);
                            }
                        }
                        assert forall|i: int| 0 <= i < facts@.len() implies (#[trigger] atoms_of(facts@)[i]).predicate != p by {
                            if i >= facts_before.len() {
                                assert(atoms_of(facts@)[i] == subst_theorem@);
                            } else {
                                assert(atoms_of(facts@)[i] == atoms_of(facts_before)[i]);
                            }
                        }
                    }
                    assert forall|i: int| 0 <= i < facts@.len() implies crate::term::is_ground_atom(#[trigger] atoms_of(facts@)[i]) by {
                        if i >= facts_before.len() {
                            assert(atoms_of(facts@)[i] == subst_theorem@);
                        } else {
                            assert(atoms_of(facts@)[i] == atoms_of(facts_before)[i]);
                        }
                    }
                }
                *thetas = tmp_thetas;
                return Ok(());
            }
        }
        k = k + 1;
    }
    Err(ReasoningError::ProofNotFound)
}

/// Backward chaining: proves `theorem` from the rules of `kb`, searching no
/// deeper than `max_depth`; on success, the environment under which it holds.
pub fn bc(kb: &KB, theorem: &Atom, max_depth: usize) -> (r: Result<Vec<Theta>, ReasoningError>)
    requires
        max_depth < usize::MAX,
    ensures
        ({
            let o = search(
                kb@,
                seq![theorem@],
                Seq::empty(),
                0,
                Seq::empty(),
                Seq::empty(),
                0,
                max_depth as nat,
            );
            &&& r is Ok <==> o.result is Ok
            &&& r matches Ok(t) ==> bindings(t@) == o.env
            &&& r matches Err(e) ==> o.result == Err::<(), ReasoningError>(e)
        }),
        r matches Err(e) ==> is_search_failure(e),
        unfounded(kb@, theorem@.predicate) ==> r is Err,
{
    let mut thetas = Vec::<Theta>::new();
    let mut call_time: usize = 0;
    let wrapped_theorem = vec![theorem.duplicate()];
    let mut call_stack = Vec::<Atom>::new();
    let mut known_facts = Vec::<Atom>::new();
    assert(atoms_of(known_facts@) =~= Seq::<AtomView>::empty());
    assert(atoms_of(call_stack@) =~= Seq::<AtomView>::empty());
    assert(bindings(thetas@) =~= Seq::<(Term, Term)>::empty());
    assert(atoms_of(wrapped_theorem@).subrange(0, 1) =~= seq![theorem@]);
    let outcome = bc_core(
        kb,
        &wrapped_theorem,
        0,
        &mut thetas,
        &mut call_time,
        &mut call_stack,
        0,
        max_depth,
        &mut known_facts,
        Ghost(theorem@.predicate),
    );
    match outcome {
        Ok(()) => {
            assert(wrapped_theorem@[0]@ == theorem@);
            Ok(thetas)
        },
        Err(e) => Err(e),
    }
}

} // verus!
