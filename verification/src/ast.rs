//! The terms a program is made of: constants, variables, atoms, rules,
//! queries, and whole programs.

use vstd::prelude::*;

use crate::util::{dec_digits, usize_dec, Interner, Symbol};

verus! {

/// An opaque 64-bit constant.  Equality is on the raw bits; the
/// interpretation is left to the caller.  The zero default is only ever a
/// scratch placeholder, never meaningful data.
#[derive(Default, Debug, PartialEq, Eq, Hash, Clone, Copy, PartialOrd, Ord, Structural)]
pub struct Value(pub u64);

/// A variable is named by an interned symbol.
pub type Variable = Symbol;

/// One query argument: a variable or a constant.
#[derive(Debug, PartialEq, Eq, Hash, Clone, Copy, Structural)]
pub enum Term {
    Variable(Variable),
    Value(Value),
}

/// Whether a term is a constant.
pub open spec fn term_is_value(t: Term) -> bool {
    match t {
        Term::Value(_) => true,
        Term::Variable(_) => false,
    }
}

/// The constant a ground term holds (unspecified for a variable).
pub open spec fn term_value(t: Term) -> Value {
    match t {
        Term::Value(v) => v,
        Term::Variable(_) => Value(0),
    }
}

impl Term {
    /// The constant a ground term holds.
    pub fn eval(&self) -> (r: Value)
        requires
            term_is_value(*self),
        ensures
            r == term_value(*self),
    {
        match self {
            Term::Value(v) => *v,
            Term::Variable(_) => {
                proof {
                    assert(false);
                }
                Value(0)
            },
        }
    }
}

/// Whether some term of `terms` is the variable `x`.
pub open spec fn terms_have_var(terms: Seq<Term>, x: Variable) -> bool {
    exists|k: int| 0 <= k < terms.len() && terms[k] == Term::Variable(x)
}

/// The variables among `terms`, in order, duplicates kept.
pub open spec fn vars_of_terms(terms: Seq<Term>) -> Seq<Variable>
    decreases terms.len(),
{
    if terms.len() == 0 {
        Seq::empty()
    } else {
        vars_of_terms(terms.drop_last()) + (match terms.last() {
            Term::Variable(v) => seq![v],
            Term::Value(_) => Seq::empty(),
        })
    }
}

/// A relation name applied to an ordered list of terms.
#[derive(Debug, Clone)]
pub struct Atom {
    pub relation: Symbol,
    pub terms: Vec<Term>,
}

impl Atom {
    /// The variables this atom mentions, in order, duplicates kept.
    pub fn vars(&self) -> (r: Vec<Variable>)
        ensures
            r@ == vars_of_terms(self.terms@),
    {
        let mut r: Vec<Variable> = Vec::new();
        let n = self.terms.len();
        let mut k: usize = 0;
        while k < n
            invariant
                k <= n,
                n == self.terms@.len(),
                r@ == vars_of_terms(self.terms@.take(k as int)),
            decreases n - k,
        {
            match &self.terms[k] {
                Term::Variable(v) => {
                    r.push(*v);
                },
                Term::Value(_) => {},
            }
            proof {
                assert(self.terms@.take(k + 1 as int).drop_last() =~= self.terms@.take(
                    k as int,
                ));
                assert(self.terms@.take(k + 1 as int).last() == self.terms@[k as int]);
            }
            k += 1;
        }
        proof {
            assert(self.terms@.take(n as int) =~= self.terms@);
        }
        r
    }

    /// Whether this atom mentions the variable `v`.
    pub fn has_var(&self, v: Variable) -> (r: bool)
        ensures
            r == terms_have_var(self.terms@, v),
    {
        let n = self.terms.len();
        let mut k: usize = 0;
        while k < n
            invariant
                n == self.terms@.len(),
                forall|j: int| 0 <= j < k ==> self.terms@[j] != Term::Variable(v),
            decreases n - k,
        {
            match &self.terms[k] {
                Term::Variable(w) => {
                    if *w == v {
                        return true;
                    }
                },
                Term::Value(_) => {},
            }
            k += 1;
        }
        false
    }
}

/// The mathematical shape of one atom: its relation name and argument list.
pub open spec fn atom_view(a: Atom) -> (Symbol, Seq<Term>) {
    (a.relation, a.terms@)
}

/// The shapes of a list of atoms.
pub open spec fn atoms_view(s: Seq<Atom>) -> Seq<(Symbol, Seq<Term>)> {
    s.map(|_i: int, a: Atom| atom_view(a))
}

/// A rule: a head (exactly one all-variable atom is supported) derived from a
/// body query.
#[derive(Debug, Clone)]
pub struct Rule {
    pub head: Vec<Atom>,
    pub body: Query,
}

/// A conjunction of atoms, evaluated as one query.
#[derive(Debug, Clone)]
pub struct Query {
    pub atoms: Vec<Atom>,
}

impl Atom {
    /// A structurally equal copy.
    pub fn duplicate(&self) -> (r: Atom)
        ensures
            atom_view(r) == atom_view(*self),
    {
        let n = self.terms.len();
        let mut terms: Vec<Term> = Vec::new();
        let mut k: usize = 0;
        while k < n
            invariant
                k <= n,
                n == self.terms@.len(),
                terms@ =~= self.terms@.subrange(0, k as int),
            decreases n - k,
        {
            terms.push(self.terms[k]);
            proof {
                assert(terms@ =~= self.terms@.subrange(0, k + 1 as int));
            }
            k += 1;
        }
        proof {
            assert(terms@ =~= self.terms@);
        }
        Atom { relation: self.relation, terms }
    }
}

impl Query {
    /// A structurally equal copy.
    pub fn duplicate(&self) -> (r: Query)
        ensures
            atoms_view(r.atoms@) == atoms_view(self.atoms@),
    {
        let n = self.atoms.len();
        let mut atoms: Vec<Atom> = Vec::new();
        let mut k: usize = 0;
        while k < n
            invariant
                k <= n,
                n == self.atoms@.len(),
                atoms_view(atoms@) =~= atoms_view(self.atoms@).subrange(0, k as int),
            decreases n - k,
        {
            let copy = self.atoms[k].duplicate();
            proof {
                assert(atom_view(copy) == atom_view(self.atoms@[k as int]));
            }
            proof {
                assert(atoms_view(atoms@).len() == k);
            }
            atoms.push(copy);
            proof {
                assert(atoms@.len() == k + 1);
                assert(atoms@[k as int] == copy);
                assert(atoms_view(atoms@)[k as int] == atom_view(atoms@[k as int]));
                assert(atoms_view(atoms@)[k as int] == atom_view(self.atoms@[k as int]));
                assert(atoms_view(self.atoms@).subrange(0, k + 1 as int)[k as int] == atom_view(
                    self.atoms@[k as int],
                ));
                assert(atoms_view(atoms@) =~= atoms_view(self.atoms@).subrange(0, k + 1 as int));
            }
            k += 1;
        }
        proof {
            assert(atoms_view(atoms@) =~= atoms_view(self.atoms@));
        }
        Query { atoms }
    }
}

/// A relation declaration: its name and column schema.
#[derive(Debug, Clone)]
pub struct Relation {
    pub symbol: Symbol,
    pub schema: Schema,
}

/// A column schema: one named type tag per column.
#[derive(Debug, Clone, PartialEq)]
pub struct Schema {
    types: Vec<(Symbol, core::any::TypeId)>,
}

/// The standard opaque type tag, declared so it can stand in fields and
/// signatures; nothing is assumed about its contents.
#[verifier::external_type_specification]
#[verifier::external_body]
pub struct ExTypeId(core::any::TypeId);

/// Relies on the standard tag constructor; nothing is assumed of the result.
pub assume_specification<T: ?Sized + 'static>[ core::any::TypeId::of::<T> ]() -> core::any::TypeId;

impl Schema {
    /// The named column types, in order.
    pub closed spec fn columns(self) -> Seq<(Symbol, core::any::TypeId)> {
        self.types@
    }

    /// Whether the schema has no columns.
    pub fn is_empty(&self) -> (r: bool)
        ensures
            r == (self.columns().len() == 0),
    {
        self.len() == 0
    }

    /// The number of columns.
    pub fn len(&self) -> (r: usize)
        ensures
            r == self.columns().len(),
    {
        self.types.len()
    }

    /// A schema over `types` whose columns are named by their decimal
    /// positions: "0", "1", and so on.
    pub fn from_types(interner: &mut Interner, types: &[core::any::TypeId]) -> (r: Schema)
        requires
            old(interner).wf(),
            old(interner).texts().len() + types@.len() < u32::MAX,
        ensures
            final(interner).wf(),
            final(interner).texts().len() >= old(interner).texts().len(),
            final(interner).texts().len() <= old(interner).texts().len() + types@.len(),
            forall|k: int|
                0 <= k < old(interner).texts().len() ==> final(interner).texts()[k] == old(interner).texts()[k],
            r.columns().len() == types@.len(),
            forall|i: int|
                0 <= i < types@.len() ==> (#[trigger] r.columns()[i]).1 == types@[i]
                    && 0 <= r.columns()[i].0.id() < final(interner).texts().len()
                    && final(interner).texts()[r.columns()[i].0.id()] == dec_digits(i as nat),
    {
        let mut out: Vec<(Symbol, core::any::TypeId)> = Vec::new();
        let n = types.len();
        let mut i: usize = 0;
        while i < n
            invariant
                i <= n,
                n == types@.len(),
                interner.wf(),
                interner.texts().len() >= old(interner).texts().len(),
                forall|k: int|
                    0 <= k < old(interner).texts().len() ==> interner.texts()[k] == old(interner).texts()[k],
                interner.texts().len() <= old(interner).texts().len() + i,
                old(interner).texts().len() + n < u32::MAX,
                out@.len() == i,
                forall|k: int|
                    0 <= k < i ==> (#[trigger] out@[k]).1 == types@[k] && 0 <= out@[k].0.id()
                        < interner.texts().len() && interner.texts()[out@[k].0.id()]
                        == dec_digits(k as nat),
            decreases n - i,
        {
            let name = usize_dec(i);
            let s = Symbol::new(interner, name.as_str());
            out.push((s, types[i]));
            i += 1;
        }
        Schema { types: out }
    }

    /// A schema from explicitly named column types; the names must be
    /// pairwise distinct.
    pub fn from_named_types(types: Vec<(Symbol, core::any::TypeId)>) -> (r: Schema)
        requires
            forall|i: int, j: int|
                0 <= i < j < types@.len() ==> (#[trigger] types@[i]).0 != (#[trigger] types@[j]).0,
        ensures
            r.columns() == types@,
    {
        Schema { types }
    }
}

/// A post-fixpoint directive.
#[derive(Debug, Clone)]
pub enum Directive {
    /// Assert that two named relations hold identical tuple sets.
    AssertEq(Symbol, Symbol),
}

/// A whole program: declarations, rules, ground facts, and directives.
#[derive(Debug, Clone)]
pub struct Program {
    pub rules: Vec<Rule>,
    pub relations: Vec<Relation>,
    pub facts: Vec<Atom>,
    pub directives: Vec<Directive>,
}

/// A column type: anything that can tag a schema column and turn itself into
/// a stored constant.
pub trait Type {
    /// The constant this value stands for.
    spec fn value_of(self) -> Value;

    fn type_id() -> core::any::TypeId;

    /// Turns the value into the stored constant.
    fn to_value(self) -> (r: Value)
        ensures
            r == self.value_of(),
    ;
}

impl Type for i32 {
    open spec fn value_of(self) -> Value {
        Value(self as u64)
    }

    fn type_id() -> core::any::TypeId {
        core::any::TypeId::of::<i32>()
    }

    fn to_value(self) -> (r: Value) {
        Value(self as u64)
    }
}

/// Everything that can go wrong; each operation fails fast with one of these.
#[derive(Debug, PartialEq, Eq, Clone, Copy, Structural)]
pub enum Error {
    /// A relation was declared under a name that already has one.
    DuplicateRelation(Symbol),
    /// A relation name was referenced but never declared.
    NoSuchRelation(Symbol),
    /// A tuple's length does not match its relation's arity.
    ArityMismatch(Symbol),
    /// A fact contained a variable.
    NonGroundFact(Symbol),
    /// A rule head with more than one atom, or with a constant term.
    BadRuleHead,
    /// A variable looked up in a compiled query that does not bind it.
    UnknownVariable(Variable),
    /// A query handle that this database never issued.
    UnknownHandle,
    /// An assert-equal directive found two differing relations.
    AssertNotEqual(Symbol, Symbol),
    /// A derivation count exceeded the machine's integer range.
    CountOverflow,
}

} // verus!
