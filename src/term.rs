//! Terms, atoms and rules, with their mathematical models.
use vstd::prelude::*;

verus! {

broadcast use {vstd::std_specs::vec::axiom_vec_index_decreases, vstd::seq::axiom_seq_index_decreases};

/// The mathematical value of a `Symbol`.
pub enum Term {
    Var(Seq<char>),
    Val(Seq<char>),
    Func(Seq<char>, Seq<Term>),
}

/// The mathematical value of an `Atom`.
pub struct AtomView {
    pub predicate: Seq<char>,
    pub args: Seq<Term>,
}

/// The mathematical value of a `Rule`.
pub struct RuleView {
    pub condition: Seq<AtomView>,
    pub conclusion: AtomView,
}

/// A term has no variable anywhere inside it.
pub open spec fn is_ground(t: Term) -> bool
    decreases t, 1nat,
{
    match t {
        Term::Var(_) => false,
        Term::Val(_) => true,
        Term::Func(_, args) => all_ground(args),
    }
}

/// Every term of the list is ground.
pub open spec fn all_ground(ts: Seq<Term>) -> bool
    decreases ts, 0nat,
{
    if ts.len() == 0 {
        true
    } else {
        is_ground(ts.last()) && all_ground(ts.drop_last())
    }
}

/// A list is ground exactly when each of its terms is.
pub proof fn lemma_all_ground(ts: Seq<Term>)
    ensures
        all_ground(ts) <==> forall|i: int| 0 <= i < ts.len() ==> #[trigger] is_ground(ts[i]),
    decreases ts.len(),
{
    if ts.len() > 0 {
        lemma_all_ground(ts.drop_last());
        assert forall|i: int| 0 <= i < ts.len() - 1 implies ts.drop_last()[i] == ts[i] by {}
        if forall|i: int| 0 <= i < ts.len() ==> #[trigger] is_ground(ts[i]) {
            assert(is_ground(ts[ts.len() - 1]));
            assert forall|i: int| 0 <= i < ts.drop_last().len() implies #[trigger] is_ground(
                ts.drop_last()[i],
            ) by {
                assert(is_ground(ts[i]));
            }
        }
    }
}

pub open spec fn is_ground_atom(a: AtomView) -> bool {
    forall|i: int| 0 <= i < a.args.len() ==> #[trigger] is_ground(a.args[i])
}

/// A logical term: a variable, a constant, or a function applied to terms.
#[derive(Debug)]
pub enum Symbol {
    Var(String),
    Val(String),
    Func(String, Vec<Symbol>),
}

impl View for Symbol {
    type V = Term;

    open spec fn view(&self) -> Term
        decreases self,
    {
        match self {
            Symbol::Var(n) => Term::Var(n@),
            Symbol::Val(n) => Term::Val(n@),
            Symbol::Func(n, args) => Term::Func(
                n@,
                Seq::new(
                    args.len() as nat,
                    |i: int|
                        if 0 <= i < args.len() {
                            args[i].view()
                        } else {
                            Term::Val(Seq::empty())
                        },
                ),
            ),
        }
    }
}

impl Symbol {
    pub fn var(name: &str) -> (r: Symbol)
        ensures
            r@ == Term::Var(name@),
    {
        Symbol::Var(name.to_owned())
    }

    pub fn val(name: &str) -> (r: Symbol)
        ensures
            r@ == Term::Val(name@),
    {
        Symbol::Val(name.to_owned())
    }

    pub fn func(name: &str, args: Vec<Symbol>) -> (r: Symbol)
        ensures
            r@ == Term::Func(name@, args@.map_values(|a: Symbol| a@)),
    {
        let r = Symbol::Func(name.to_owned(), args);
        assert(r@->Func_1 =~= args@.map_values(|a: Symbol| a@));
        r
    }

    /// Whether a variable occurs anywhere in the term.
    pub fn contains_var(&self) -> (r: bool)
        ensures
            r == !is_ground(self@),
        decreases self,
    {
        match self {
            Symbol::Var(_) => true,
            Symbol::Val(_) => false,
            Symbol::Func(_, args) => {
                let ghost subterms = self@->Func_1;
                proof {
                    lemma_all_ground(subterms);
                }
                assert(subterms.len() == args.len());
                assert forall|j: int| 0 <= j < args.len() implies subterms[j] == #[trigger] args[j]@ by {}
                let mut i: usize = 0;
                #[verifier::loop_isolation(false)]
                while i < args.len()
                    invariant
                        i <= args.len(),
                        self@ == Term::Func(self@->Func_0, subterms),
                        subterms.len() == args.len(),
                        forall|j: int| 0 <= j < args.len() ==> subterms[j] == #[trigger] args[j]@,
                        forall|j: int| 0 <= j < i ==> is_ground(#[trigger] subterms[j]),
                    decreases args.len() - i,
                {
                    if args[i].contains_var() {
                        assert(!is_ground(subterms[i as int]));
                        assert(is_ground(self@) ==> is_ground(subterms[i as int]));
                        return true;
                    }
                    i = i + 1;
                }
                false
            },
        }
    }

    /// A copy whose value is the same term.
    pub fn duplicate(&self) -> (r: Symbol)
        ensures
            r@ == self@,
        decreases self,
    {
        match self {
            Symbol::Var(n) => Symbol::Var(n.clone()),
            Symbol::Val(n) => Symbol::Val(n.clone()),
            Symbol::Func(n, args) => {
                let new_args = duplicate_all(args);
                let r = Symbol::Func(n.clone(), new_args);
                assert forall|i: int| 0 <= i < args.len() implies r@->Func_1[i] == self@->Func_1[i] by {
                    assert(new_args@[i]@ == args@[i]@);
                }
                assert(r@->Func_1 =~= self@->Func_1);
                r
            },
        }
    }
}

/// Copies of each term of a list.
fn duplicate_all(args: &Vec<Symbol>) -> (r: Vec<Symbol>)
    ensures
        r@.len() == args@.len(),
        forall|i: int| 0 <= i < args@.len() ==> #[trigger] r@[i]@ == args@[i]@,
    decreases args,
{
    let mut out: Vec<Symbol> = Vec::new();
    let mut i: usize = 0;
    while i < args.len()
        invariant
            i <= args.len(),
            out@.len() == i,
            forall|j: int| 0 <= j < i ==> #[trigger] out@[j]@ == args@[j]@,
        decreases args.len() - i,
    {
        out.push(args[i].duplicate());
        i = i + 1;
    }
    out
}

/// Structural equality of two terms, by their values.
pub fn symbol_eq(a: &Symbol, b: &Symbol) -> (r: bool)
    ensures
        r == (a@ == b@),
    decreases a,
{
    match a {
        Symbol::Var(x) => match b {
            Symbol::Var(y) => *x == *y,
            _ => false,
        },
        Symbol::Val(x) => match b {
            Symbol::Val(y) => *x == *y,
            _ => false,
        },
        Symbol::Func(x, xs) => match b {
            Symbol::Func(y, ys) => {
                if !(*x == *y) {
                    return false;
                }
                if xs.len() != ys.len() {
                    assert(a@->Func_1.len() != b@->Func_1.len());
                    return false;
                }
                let mut i: usize = 0;
                #[verifier::loop_isolation(false)]
                while i < xs.len()
                    invariant
                        i <= xs.len(),
                        xs.len() == ys.len(),
                        forall|j: int| 0 <= j < i ==> #[trigger] xs[j]@ == ys[j]@,
                    decreases xs.len() - i,
                {
                    if !symbol_eq(&xs[i], &ys[i]) {
                        assert(a@->Func_1[i as int] != b@->Func_1[i as int]);
                        return false;
                    }
                    i = i + 1;
                }
                assert forall|j: int| 0 <= j < xs.len() implies a@->Func_1[j] == b@->Func_1[j] by {
                    assert(xs[j]@ == ys[j]@);
                }
                assert(a@->Func_1 =~= b@->Func_1);
                true
            },
            _ => false,
        },
    }
}

impl Clone for Symbol {
    fn clone(&self) -> (r: Symbol)
        ensures
            r@ == self@,
    {
        self.duplicate()
    }
}

impl PartialEq for Symbol {
    fn eq(&self, other: &Symbol) -> (r: bool) {
        symbol_eq(self, other)
    }
}

impl vstd::std_specs::cmp::PartialEqSpecImpl for Symbol {
    open spec fn obeys_eq_spec() -> bool {
        true
    }

    open spec fn eq_spec(&self, other: &Symbol) -> bool {
        self@ == other@
    }
}

/// The values of a list of terms.
pub open spec fn terms_of(v: Seq<Symbol>) -> Seq<Term> {
    v.map_values(|a: Symbol| a@)
}

/// A variable.
pub fn var(name: &str) -> (r: Symbol)
    ensures
        r@ == Term::Var(name@),
{
    Symbol::var(name)
}

/// A constant.
pub fn val(name: &str) -> (r: Symbol)
    ensures
        r@ == Term::Val(name@),
{
    Symbol::val(name)
}

/// A function symbol applied to arguments.
pub fn func(name: &str, args: Vec<Symbol>) -> (r: Symbol)
    ensures
        r@ == Term::Func(name@, terms_of(args@)),
{
    Symbol::func(name, args)
}

/// An atomic formula: a predicate applied to terms.
#[derive(Debug, Clone)]
pub struct Atom {
    pub predicate: String,
    pub args: Vec<Symbol>,
}

impl View for Atom {
    type V = AtomView;

    open spec fn view(&self) -> AtomView {
        AtomView { predicate: self.predicate@, args: terms_of(self.args@) }
    }
}

/// An atom built from a predicate name and its arguments.
pub fn pred(name: &str, args: Vec<Symbol>) -> (r: Atom)
    ensures
        r@ == (AtomView { predicate: name@, args: terms_of(args@) }),
{
    Atom { predicate: name.to_owned(), args }
}

impl Atom {
    /// Whether a variable occurs in any argument.
    pub fn contains_var(&self) -> (r: bool)
        ensures
            r == !is_ground_atom(self@),
    {
        let mut i: usize = 0;
        while i < self.args.len()
            invariant
                i <= self.args.len(),
                forall|j: int| 0 <= j < i ==> is_ground(#[trigger] self@.args[j]),
            decreases self.args.len() - i,
        {
            if self.args[i].contains_var() {
                assert(!is_ground(self@.args[i as int]));
                return true;
            }
            i = i + 1;
        }
        false
    }

    /// A copy whose value is the same atom.
    pub fn duplicate(&self) -> (r: Atom)
        ensures
            r@ == self@,
    {
        let args = duplicate_all(&self.args);
        let r = Atom { predicate: self.predicate.clone(), args };
        assert(r@.args =~= self@.args);
        r
    }
}

/// Equality of two atoms, by their values.
pub fn atom_eq(a: &Atom, b: &Atom) -> (r: bool)
    ensures
        r == (a@ == b@),
{
    if !(a.predicate == b.predicate) {
        return false;
    }
    if a.args.len() != b.args.len() {
        assert(a@.args.len() != b@.args.len());
        return false;
    }
    let mut i: usize = 0;
    while i < a.args.len()
        invariant
            i <= a.args.len(),
            a.args.len() == b.args.len(),
            forall|j: int| 0 <= j < i ==> #[trigger] a@.args[j] == b@.args[j],
        decreases a.args.len() - i,
    {
        if !symbol_eq(&a.args[i], &b.args[i]) {
            assert(a@.args[i as int] != b@.args[i as int]);
            return false;
        }
        i = i + 1;
    }
    assert(a@.args =~= b@.args);
    true
}

impl PartialEq for Atom {
    fn eq(&self, other: &Atom) -> (r: bool) {
        atom_eq(self, other)
    }
}

impl vstd::std_specs::cmp::PartialEqSpecImpl for Atom {
    open spec fn obeys_eq_spec() -> bool {
        true
    }

    open spec fn eq_spec(&self, other: &Atom) -> bool {
        self@ == other@
    }
}

/// The values of a list of atoms.
pub open spec fn atoms_of(v: Seq<Atom>) -> Seq<AtomView> {
    v.map_values(|a: Atom| a@)
}

/// Copies of each atom of a list.
pub fn duplicate_atoms(v: &Vec<Atom>) -> (r: Vec<Atom>)
    ensures
        atoms_of(r@) == atoms_of(v@),
{
    let mut out: Vec<Atom> = Vec::new();
    let mut i: usize = 0;
    while i < v.len()
        invariant
            i <= v.len(),
            out@.len() == i,
            forall|j: int| 0 <= j < i ==> #[trigger] out@[j]@ == v@[j]@,
        decreases v.len() - i,
    {
        out.push(v[i].duplicate());
        i = i + 1;
    }
    assert(atoms_of(out@) =~= atoms_of(v@));
    out
}

/// Whether an atom of the list has the value of `a`.
pub fn contains_atom(list: &Vec<Atom>, a: &Atom) -> (r: bool)
    ensures
        r == atoms_of(list@).contains(a@),
{
    let mut i: usize = 0;
    while i < list.len()
        invariant
            i <= list.len(),
            forall|j: int| 0 <= j < i ==> #[trigger] list@[j]@ != a@,
        decreases list.len() - i,
    {
        if atom_eq(&list[i], a) {
            assert(atoms_of(list@)[i as int] == a@);
            return true;
        }
        i = i + 1;
    }
    assert forall|j: int| 0 <= j < list.len() implies atoms_of(list@)[j] != a@ by {
        assert(list@[j]@ != a@);
    }
    false
}

/// A Horn clause: the conjunction of `condition` implies `conclusion`.
#[derive(Debug, Clone)]
pub struct Rule {
    pub condition: Vec<Atom>,
    pub conclusion: Atom,
}

impl View for Rule {
    type V = RuleView;

    open spec fn view(&self) -> RuleView {
        RuleView { condition: atoms_of(self.condition@), conclusion: self.conclusion@ }
    }
}

impl Rule {
    /// A fact: no condition and a ground conclusion.
    pub fn is_fact(&self) -> (r: bool)
        ensures
            r == (self@.condition.len() == 0 && is_ground_atom(self@.conclusion)),
    {
        self.condition.len() == 0 && !self.conclusion.contains_var()
    }
}

} // verus!
