//! Knowledge bases and the renaming of rule variables apart.
use vstd::prelude::*;

use vstd::string::StringExecFns;

use crate::term::{Atom, AtomView, Rule, RuleView, Symbol, Term};

verus! {

broadcast use {vstd::std_specs::vec::axiom_vec_index_decreases, vstd::seq::axiom_seq_index_decreases};

/// A knowledge base: rules, tried in the order listed.
#[derive(Debug, Clone)]
pub struct KB {
    pub rules: Vec<Rule>,
}

impl View for KB {
    type V = Seq<RuleView>;

    open spec fn view(&self) -> Seq<RuleView> {
        self.rules@.map_values(|r: Rule| r@)
    }
}

/// The character of a decimal digit.
pub open spec fn digit_char(d: nat) -> char {
    if d == 0 {
        '0'
    } else if d == 1 {
        '1'
    } else if d == 2 {
        '2'
    } else if d == 3 {
        '3'
    } else if d == 4 {
        '4'
    } else if d == 5 {
        '5'
    } else if d == 6 {
        '6'
    } else if d == 7 {
        '7'
    } else if d == 8 {
        '8'
    } else {
        '9'
    }
}

/// The decimal numeral of `n`, without leading zeros.
pub open spec fn decimal(n: nat) -> Seq<char>
    decreases n,
{
    if n < 10 {
        seq![digit_char(n)]
    } else {
        decimal(n / 10).push(digit_char(n % 10))
    }
}

/// What renaming under `tag` appends to a variable's name.
pub open spec fn tag_suffix(tag: nat) -> Seq<char> {
    seq!['#'] + decimal(tag)
}

/// A term with the suffix of `tag` appended to each variable's name.
pub open spec fn rename_term(t: Term, tag: nat) -> Term
    decreases t,
{
    match t {
        Term::Var(n) => Term::Var(n + tag_suffix(tag)),
        Term::Val(_) => t,
        Term::Func(f, args) => Term::Func(
            f,
            Seq::new(
                args.len(),
                |i: int|
                    if 0 <= i < args.len() {
                        rename_term(args[i], tag)
                    } else {
                        Term::Val(Seq::empty())
                    },
            ),
        ),
    }
}

pub open spec fn rename_atom(a: AtomView, tag: nat) -> AtomView {
    AtomView { predicate: a.predicate, args: a.args.map_values(|t: Term| rename_term(t, tag)) }
}

/// A rule with every variable renamed under `tag`; constants stay as they are.
pub open spec fn rename_rule(r: RuleView, tag: nat) -> RuleView {
    RuleView {
        condition: r.condition.map_values(|a: AtomView| rename_atom(a, tag)),
        conclusion: rename_atom(r.conclusion, tag),
    }
}

fn digit_str(d: usize) -> (r: &'static str)
    requires
        d < 10,
    ensures
        r@ == seq![digit_char(d as nat)],
{
    proof {
        reveal_strlit("0");
        reveal_strlit("1");
        reveal_strlit("2");
        reveal_strlit("3");
        reveal_strlit("4");
        reveal_strlit("5");
        reveal_strlit("6");
        reveal_strlit("7");
        reveal_strlit("8");
        reveal_strlit("9");
    }
    if d == 0 {
        "0"
    } else if d == 1 {
        "1"
    } else if d == 2 {
        "2"
    } else if d == 3 {
        "3"
    } else if d == 4 {
        "4"
    } else if d == 5 {
        "5"
    } else if d == 6 {
        "6"
    } else if d == 7 {
        "7"
    } else if d == 8 {
        "8"
    } else {
        assert(seq!['9'] =~= "9"@);
        "9"
    }
}

fn append_decimal(s: &mut String, n: usize)
    ensures
        final(s)@ == old(s)@ + decimal(n as nat),
    decreases n,
{
    if n >= 10 {
        append_decimal(s, n / 10);
    }
    s.append(digit_str(n % 10));
    assert(decimal(n as nat) =~= if n < 10 {
        seq![digit_char(n as nat)]
    } else {
        decimal((n / 10) as nat).push(digit_char((n % 10) as nat))
    });
}

/// `name` with the suffix of `tag` appended.
fn tagged_name(name: &String, tag: usize) -> (r: String)
    ensures
        r@ == name@ + tag_suffix(tag as nat),
{
    let mut s = name.clone();
    proof {
        reveal_strlit("#");
    }
    s.append("#");
    append_decimal(&mut s, tag);
    assert(s@ =~= name@ + tag_suffix(tag as nat));
    s
}

impl KB {
    /// `x` with every variable renamed under the tag `i`.
    pub fn index_var(x: &Symbol, i: usize) -> (r: Symbol)
        ensures
            r@ == rename_term(x@, i as nat),
        decreases x,
    {
        match x {
            Symbol::Var(name) => Symbol::Var(tagged_name(name, i)),
            Symbol::Func(name, args) => {
                let mut new_args = Vec::<Symbol>::new();
                let mut k: usize = 0;
                #[verifier::loop_isolation(false)]
                while k < args.len()
                    invariant
                        k <= args.len(),
                        new_args@.len() == k,
                        forall|j: int|
                            0 <= j < k ==> #[trigger] new_args@[j]@ == rename_term(
                                args@[j]@,
                                i as nat,
                            ),
                    decreases args.len() - k,
                {
                    new_args.push(KB::index_var(&args[k], i));
                    k = k + 1;
                }
                let r = Symbol::Func(name.clone(), new_args);
                let ghost expected = rename_term(x@, i as nat);
                assert forall|j: int| 0 <= j < args.len() implies r@->Func_1[j]
                    == expected->Func_1[j] by {
                    assert(new_args@[j]@ == rename_term(args@[j]@, i as nat));
                    assert(x@->Func_1[j] == args@[j]@);
                }
                assert(r@->Func_1 =~= expected->Func_1);
                r
            },
            Symbol::Val(_) => x.duplicate(),
        }
    }

    /// `x` with every variable of its arguments renamed under the tag `i`.
    pub fn index_atom(x: &Atom, i: usize) -> (r: Atom)
        ensures
            r@ == rename_atom(x@, i as nat),
    {
        let mut args = Vec::<Symbol>::new();
        let mut k: usize = 0;
        while k < x.args.len()
            invariant
                k <= x.args.len(),
                args@.len() == k,
                forall|j: int|
                    0 <= j < k ==> #[trigger] args@[j]@ == rename_term(x.args@[j]@, i as nat),
            decreases x.args.len() - k,
        {
            args.push(KB::index_var(&x.args[k], i));
            k = k + 1;
        }
        let r = Atom { predicate: x.predicate.clone(), args };
        assert(r@.args =~= rename_atom(x@, i as nat).args);
        r
    }

    /// A copy of the rule whose variables all carry the tag `i`.
    pub fn rule_standardize(r: &Rule, i: usize) -> (out: Rule)
        ensures
            out@ == rename_rule(r@, i as nat),
    {
        let mut new_condition = Vec::<Atom>::new();
        let mut k: usize = 0;
        while k < r.condition.len()
            invariant
                k <= r.condition.len(),
                new_condition@.len() == k,
                forall|j: int|
                    0 <= j < k ==> #[trigger] new_condition@[j]@ == rename_atom(
                        r.condition@[j]@,
                        i as nat,
                    ),
            decreases r.condition.len() - k,
        {
            new_condition.push(KB::index_atom(&r.condition[k], i));
            k = k + 1;
        }
        let out = Rule { condition: new_condition, conclusion: KB::index_atom(&r.conclusion, i) };
        assert(out@.condition =~= rename_rule(r@, i as nat).condition);
        out
    }

    /// Renames the variables of each rule apart from the others, by its position.
    pub fn standardize_var(&mut self)
        ensures
            final(self)@.len() == old(self)@.len(),
            forall|k: int|
                0 <= k < old(self)@.len() ==> #[trigger] final(self)@[k] == rename_rule(
                    old(self)@[k],
                    k as nat,
                ),
    {
        let mut rules = Vec::<Rule>::new();
        let mut k: usize = 0;
        while k < self.rules.len()
            invariant
                k <= self.rules.len(),
                self@ == old(self)@,
                rules@.len() == k,
                forall|j: int|
                    0 <= j < k ==> #[trigger] rules@[j]@ == rename_rule(self.rules@[j]@, j as nat),
            decreases self.rules.len() - k,
        {
            rules.push(KB::rule_standardize(&self.rules[k], k));
            k = k + 1;
        }
        self.rules = rules;
    }
}

/// The variable `n` occurs in the term.
pub open spec fn occurs(t: Term, n: Seq<char>) -> bool
    decreases t, 1nat,
{
    match t {
        Term::Var(m) => m == n,
        Term::Val(_) => false,
        Term::Func(_, args) => occurs_any(args, n),
    }
}

/// The variable `n` occurs in some term of the list.
pub open spec fn occurs_any(ts: Seq<Term>, n: Seq<char>) -> bool
    decreases ts, 0nat,
{
    if ts.len() == 0 {
        false
    } else {
        occurs(ts.last(), n) || occurs_any(ts.drop_last(), n)
    }
}

/// The variable `n` occurs in an argument of the atom.
pub open spec fn occurs_in_atom(a: AtomView, n: Seq<char>) -> bool {
    exists|i: int| 0 <= i < a.args.len() && occurs(#[trigger] a.args[i], n)
}

/// The variable `n` occurs somewhere in the rule.
pub open spec fn occurs_in_rule(r: RuleView, n: Seq<char>) -> bool {
    occurs_in_atom(r.conclusion, n) || exists|j: int|
        0 <= j < r.condition.len() && occurs_in_atom(#[trigger] r.condition[j], n)
}

pub open spec fn ends_with(s: Seq<char>, suffix: Seq<char>) -> bool {
    suffix.len() <= s.len() && s.subrange(s.len() - suffix.len(), s.len() as int) == suffix
}

proof fn lemma_occurs_any(ts: Seq<Term>, n: Seq<char>)
    ensures
        occurs_any(ts, n) <==> exists|i: int| 0 <= i < ts.len() && occurs(#[trigger] ts[i], n),
    decreases ts.len(),
{
    if ts.len() > 0 {
        lemma_occurs_any(ts.drop_last(), n);
        if occurs_any(ts.drop_last(), n) {
            let i = choose|i: int| 0 <= i < ts.drop_last().len() && occurs(#[trigger] ts.drop_last()[i], n);
            assert(ts[i] == ts.drop_last()[i]);
        }
        if exists|i: int| 0 <= i < ts.len() && occurs(#[trigger] ts[i], n) {
            let i = choose|i: int| 0 <= i < ts.len() && occurs(#[trigger] ts[i], n);
            if i < ts.len() - 1 {
                assert(ts.drop_last()[i] == ts[i]);
            }
        }
    }
}

/// Every variable of a renamed term carries the suffix of the tag.
proof fn lemma_renamed_term_vars(t: Term, tag: nat, n: Seq<char>)
    requires
        occurs(rename_term(t, tag), n),
    ensures
        ends_with(n, tag_suffix(tag)),
    decreases t,
{
    match t {
        Term::Var(m) => {
            assert((m + tag_suffix(tag)).subrange(m.len() as int, n.len() as int) =~= tag_suffix(tag));
        },
        Term::Val(_) => {},
        Term::Func(f, args) => {
            let r = rename_term(t, tag);
            lemma_occurs_any(r->Func_1, n);
            let i = choose|i: int| 0 <= i < r->Func_1.len() && occurs(#[trigger] r->Func_1[i], n);
            assert(r->Func_1[i] == rename_term(args[i], tag));
            lemma_renamed_term_vars(args[i], tag, n);
        },
    }
}

proof fn lemma_renamed_rule_vars(r: RuleView, tag: nat, n: Seq<char>)
    requires
        occurs_in_rule(rename_rule(r, tag), n),
    ensures
        ends_with(n, tag_suffix(tag)),
{
    let rr = rename_rule(r, tag);
    let a = if occurs_in_atom(rr.conclusion, n) {
        r.conclusion
    } else {
        let j = choose|j: int| 0 <= j < rr.condition.len() && occurs_in_atom(#[trigger] rr.condition[j], n);
        r.condition[j]
    };
    let ra = rename_atom(a, tag);
    let i = choose|i: int| 0 <= i < ra.args.len() && occurs(#[trigger] ra.args[i], n);
    lemma_renamed_term_vars(a.args[i], tag, n);
}

proof fn lemma_decimal_digits(n: nat)
    ensures
        decimal(n).len() >= 1,
        forall|i: int| 0 <= i < decimal(n).len() ==> #[trigger] decimal(n)[i] != '#',
    decreases n,
{
    if n >= 10 {
        lemma_decimal_digits(n / 10);
        assert forall|i: int| 0 <= i < decimal(n).len() implies #[trigger] decimal(n)[i] != '#' by {
            if i < decimal(n / 10).len() {
                assert(decimal(n)[i] == decimal(n / 10)[i]);
            }
        }
    }
}

proof fn lemma_digit_injective(x: nat, y: nat)
    requires
        x < 10,
        y < 10,
        digit_char(x) == digit_char(y),
    ensures
        x == y,
{
}

/// Different numbers have different numerals.
proof fn lemma_decimal_injective(a: nat, b: nat)
    requires
        decimal(a) == decimal(b),
    ensures
        a == b,
    decreases a,
{
    lemma_decimal_digits(a);
    lemma_decimal_digits(b);
    if a >= 10 && b >= 10 {
        assert(decimal(a).drop_last() =~= decimal(a / 10));
        assert(decimal(b).drop_last() =~= decimal(b / 10));
        lemma_decimal_injective(a / 10, b / 10);
        assert(decimal(a)[decimal(a).len() - 1] == digit_char(a % 10));
        assert(decimal(b)[decimal(b).len() - 1] == digit_char(b % 10));
        lemma_digit_injective(a % 10, b % 10);
        assert(a == (a / 10) * 10 + a % 10);
        assert(b == (b / 10) * 10 + b % 10);
    } else if a >= 10 {
        lemma_decimal_digits(a / 10);
        assert(decimal(a).len() == decimal(a / 10).len() + 1);
    } else if b >= 10 {
        lemma_decimal_digits(b / 10);
        assert(decimal(b).len() == decimal(b / 10).len() + 1);
    } else {
        assert(decimal(a)[0] == digit_char(a));
        assert(decimal(b)[0] == digit_char(b));
        lemma_digit_injective(a, b);
    }
}

/// A name carries the suffix of at most one tag.
proof fn lemma_one_tag(n: Seq<char>, t1: nat, t2: nat)
    requires
        ends_with(n, tag_suffix(t1)),
        ends_with(n, tag_suffix(t2)),
    ensures
        t1 == t2,
{
    let s1 = tag_suffix(t1);
    let s2 = tag_suffix(t2);
    lemma_decimal_digits(t1);
    lemma_decimal_digits(t2);
    if s1.len() == s2.len() {
        assert(decimal(t1) =~= s1.subrange(1, s1.len() as int));
        assert(decimal(t2) =~= s2.subrange(1, s2.len() as int));
        lemma_decimal_injective(t1, t2);
    } else if s1.len() < s2.len() {
        let k = n.len() - s1.len();
        assert(n[k] == s1[0]);
        assert(n[k] == s2[k - (n.len() - s2.len())]);
        assert(s2[k - (n.len() - s2.len())] == decimal(t2)[k - (n.len() - s2.len()) - 1]);
    } else {
        let k = n.len() - s2.len();
        assert(n[k] == s2[0]);
        assert(n[k] == s1[k - (n.len() - s1.len())]);
        assert(s1[k - (n.len() - s1.len())] == decimal(t1)[k - (n.len() - s1.len()) - 1]);
    }
}

/// Standardizing a rule under two different tags gives two rules that share
/// no variable name.
pub proof fn lemma_standardize_apart(r: RuleView, t1: nat, t2: nat)
    requires
        t1 != t2,
    ensures
        forall|n: Seq<char>|
            #[trigger] occurs_in_rule(rename_rule(r, t1), n) ==> !occurs_in_rule(rename_rule(r, t2), n),
{
    assert forall|n: Seq<char>| #[trigger] occurs_in_rule(rename_rule(r, t1), n) implies !occurs_in_rule(
        rename_rule(r, t2),
        n,
    ) by {
        lemma_renamed_rule_vars(r, t1, n);
        if occurs_in_rule(rename_rule(r, t2), n) {
            lemma_renamed_rule_vars(r, t2, n);
            lemma_one_tag(n, t1, t2);
        }
    }
}

} // verus!
