//! Query compilation and the recursive generic join.
//!
//! A [`CompiledQuery`] fixes a global variable order for a conjunction of
//! atoms; evaluation builds one [`Trie`] index per atom and resolves one
//! variable at a time, intersecting the leading values of every atom that
//! mentions it.

use vstd::prelude::*;

use crate::ast::{atoms_view, terms_have_var, Error, Query, Term, Value, Variable};
use crate::db::Database;
use crate::util::Symbol;

verus! {

/// Whether `s` holds `x` somewhere.
pub open spec fn seq_has<A>(s: Seq<A>, x: A) -> bool {
    exists|i: int| 0 <= i < s.len() && s[i] == x
}

/// The position of the first occurrence of variable `x` in `terms`.
pub open spec fn vpos(terms: Seq<Term>, x: Variable) -> int
    decreases terms.len(),
{
    if terms.len() == 0 {
        0
    } else if terms[0] == Term::Variable(x) {
        0
    } else {
        1 + vpos(terms.skip(1), x)
    }
}

/// When `terms` mentions `x`, its first occurrence is a valid position
/// holding `x`.
pub proof fn lemma_vpos(terms: Seq<Term>, x: Variable)
    requires
        terms_have_var(terms, x),
    ensures
        0 <= vpos(terms, x) < terms.len(),
        terms[vpos(terms, x)] == Term::Variable(x),
    decreases terms.len(),
{
    if terms[0] == Term::Variable(x) {
    } else {
        let k = choose|k: int| 0 <= k < terms.len() && terms[k] == Term::Variable(x);
        assert(terms.skip(1)[k - 1] == terms[k]);
        assert(terms_have_var(terms.skip(1), x));
        lemma_vpos(terms.skip(1), x);
        assert(terms[vpos(terms, x)] == terms.skip(1)[vpos(terms.skip(1), x)]);
    }
}

/// The per-tuple constraints of an atom that do not involve other atoms:
/// the tuple has the atom's width, constant positions hold the constant, and
/// every position of a repeated variable holds the same value as its first
/// occurrence.
pub open spec fn fixed_match(t: Seq<Value>, terms: Seq<Term>) -> bool {
    &&& t.len() == terms.len()
    &&& forall|k: int|
        0 <= k < terms.len() ==> match #[trigger] terms[k] {
            Term::Value(c) => t[k] == c,
            Term::Variable(x) => t[k] == t[vpos(terms, x)],
        }
}

/// The first-occurrence positions in `terms` of the variables of `vars` that
/// `terms` mentions, following the order of `vars`.
pub open spec fn apos(terms: Seq<Term>, vars: Seq<Variable>) -> Seq<int>
    decreases vars.len(),
{
    if vars.len() == 0 {
        Seq::empty()
    } else {
        apos(terms, vars.drop_last()) + (if terms_have_var(terms, vars.last()) {
            seq![vpos(terms, vars.last())]
        } else {
            Seq::<int>::empty()
        })
    }
}

/// The values an assignment gives to the variables of `vars` that `terms`
/// mentions, following the order of `vars`.
pub open spec fn avals(terms: Seq<Term>, vars: Seq<Variable>, vals: Seq<Value>) -> Seq<Value>
    decreases vars.len(),
{
    if vars.len() == 0 {
        Seq::empty()
    } else {
        avals(terms, vars.drop_last(), vals.drop_last()) + (if terms_have_var(
            terms,
            vars.last(),
        ) {
            seq![vals[vals.len() - 1]]
        } else {
            Seq::<Value>::empty()
        })
    }
}

/// The tuple `t` projected onto the positions `ps`.
pub open spec fn proj(t: Seq<Value>, ps: Seq<int>) -> Seq<Value> {
    ps.map(|_i: int, k: int| t[k])
}

/// Whether one term accepts the value `v` under the assignment that gives
/// `vals[i]` to `vars[i]`.
pub open spec fn term_matches(t: Term, v: Value, vars: Seq<Variable>, vals: Seq<Value>) -> bool {
    match t {
        Term::Value(c) => v == c,
        Term::Variable(x) => exists|i: int| 0 <= i < vars.len() && vars[i] == x && vals[i] == v,
    }
}

/// Whether the tuple `t` satisfies an atom with argument list `terms` under
/// the assignment `vals`.
pub open spec fn tuple_matches(
    t: Seq<Value>,
    terms: Seq<Term>,
    vars: Seq<Variable>,
    vals: Seq<Value>,
) -> bool {
    t.len() == terms.len() && forall|k: int|
        0 <= k < terms.len() ==> term_matches(#[trigger] terms[k], t[k], vars, vals)
}

/// Whether some row of `rows` satisfies the atom under the assignment.
pub open spec fn rows_sat(
    rows: Seq<Seq<Value>>,
    terms: Seq<Term>,
    vars: Seq<Variable>,
    vals: Seq<Value>,
) -> bool {
    exists|i: int| 0 <= i < rows.len() && tuple_matches(#[trigger] rows[i], terms, vars, vals)
}

/// Whether every variable of `terms` is listed in `vars`.
pub open spec fn vars_cover_terms(vars: Seq<Variable>, terms: Seq<Term>) -> bool {
    forall|k: int|
        0 <= k < terms.len() ==> match #[trigger] terms[k] {
            Term::Variable(x) => vars.contains(x),
            Term::Value(_) => true,
        }
}

/// Pairwise-distinct symbols.
pub open spec fn distinct_syms(vars: Seq<Variable>) -> bool {
    forall|i: int, j: int| 0 <= i < j < vars.len() ==> vars[i] != vars[j]
}

/// The views of a vector of rows.
pub open spec fn rows_view(rs: Seq<Vec<Value>>) -> Seq<Seq<Value>> {
    rs.map(|_i: int, r: Vec<Value>| r@)
}

/// Whether `row` is the tail of some row of `s` whose head is `v`.
pub(in crate::db) open spec fn tail_of_match(s: Seq<Seq<Value>>, v: Value, row: Seq<Value>) -> bool {
    exists|j: int| 0 <= j < s.len() && (#[trigger] s[j])[0] == v && row == s[j].skip(1)
}

/// One atom's join index: the residual rows still consistent with the values
/// resolved so far, keyed by their leading value.  Walking one level of the
/// global variable order means keeping the rows whose head equals the chosen
/// value and dropping that head.
pub(in crate::db) struct Trie {
    rows: Vec<Vec<Value>>,
}

impl Trie {
    /// The residual rows.
    pub(in crate::db) closed spec fn contents(self) -> Seq<Seq<Value>> {
        rows_view(self.rows@)
    }

    /// All residual rows have width `d`.
    pub(in crate::db) open spec fn uniform(self, d: int) -> bool {
        forall|i: int| 0 <= i < self.contents().len() ==> (#[trigger] self.contents()[i]).len() == d
    }

    /// An index with no rows.
    pub(in crate::db) fn new() -> (r: Trie)
        ensures
            r.contents().len() == 0,
    {
        Trie { rows: Vec::new() }
    }

    /// Adds one row.
    pub(in crate::db) fn push_row(&mut self, row: Vec<Value>)
        ensures
            final(self).contents() == old(self).contents().push(row@),
    {
        self.rows.push(row);
        proof {
            assert(self.contents() =~= old(self).contents().push(row@));
        }
    }

    /// How many residual rows there are.
    pub(in crate::db) fn len(&self) -> (r: usize)
        ensures
            r == self.contents().len(),
    {
        self.rows.len()
    }

    /// Whether some residual row starts with `v`.
    pub(in crate::db) fn contains_key(&self, v: Value) -> (r: bool)
        requires
            forall|i: int|
                0 <= i < self.contents().len() ==> (#[trigger] self.contents()[i]).len() >= 1,
        ensures
            r == exists|i: int|
                0 <= i < self.contents().len() && (#[trigger] self.contents()[i])[0] == v,
    {
        let n = self.rows.len();
        let mut i: usize = 0;
        while i < n
            invariant
                i <= n,
                n == self.contents().len(),
                forall|k: int|
                    0 <= k < self.contents().len() ==> (#[trigger] self.contents()[k]).len() >= 1,
                forall|k: int| 0 <= k < i ==> (#[trigger] self.contents()[k])[0] != v,
            decreases n - i,
        {
            proof {
                assert(self.contents()[i as int] == self.rows@[i as int]@);
            }
            if self.rows[i][0].0 == v.0 {
                proof {
                    assert(self.contents()[i as int][0] == v);
                }
                return true;
            }
            i += 1;
        }
        false
    }

    /// The distinct leading values of the residual rows, first appearance
    /// first.
    pub(in crate::db) fn keys(&self) -> (r: Vec<Value>)
        requires
            forall|i: int|
                0 <= i < self.contents().len() ==> (#[trigger] self.contents()[i]).len() >= 1,
        ensures
            distinct_vals(r@),
            forall|v: Value|
                seq_has(r@, v) == exists|i: int|
                    0 <= i < self.contents().len() && (#[trigger] self.contents()[i])[0] == v,
    {
        let n = self.rows.len();
        let mut r: Vec<Value> = Vec::new();
        let mut i: usize = 0;
        while i < n
            invariant
                i <= n,
                n == self.contents().len(),
                forall|k: int|
                    0 <= k < self.contents().len() ==> (#[trigger] self.contents()[k]).len() >= 1,
                distinct_vals(r@),
                forall|v: Value|
                    seq_has(r@, v) == exists|k: int|
                        0 <= k < i && (#[trigger] self.contents()[k])[0] == v,
            decreases n - i,
        {
            proof {
                assert(self.contents()[i as int] == self.rows@[i as int]@);
            }
            let head = self.rows[i][0];
            let ghost prev = r@;
            let mut seen = false;
            let m = r.len();
            let mut j: usize = 0;
            while j < m
                invariant
                    j <= m,
                    m == r@.len(),
                    seen == exists|p: int| 0 <= p < j && r@[p] == head,
                decreases m - j,
            {
                if r[j].0 == head.0 {
                    proof {
                        assert(r@[j as int] == head);
                    }
                    seen = true;
                }
                j += 1;
            }
            if !seen {
                r.push(head);
            }
            proof {
                assert(self.contents()[i as int][0] == head);
                if !seen {
                    assert(r@ == prev.push(head));
                    assert(r@[r@.len() - 1] == head);
                    assert(distinct_vals(r@)) by {
                        assert(forall|p: int| 0 <= p < prev.len() ==> r@[p] == prev[p]);
                        assert(!seq_has(prev, head));
                    }
                }
                assert(seq_has(r@, head));
                assert forall|v: Value|
                    seq_has(r@, v) == exists|k: int|
                        0 <= k < i + 1 && (#[trigger] self.contents()[k])[0] == v by {
                    if v == head {
                        assert(seq_has(r@, v));
                        assert(self.contents()[i as int][0] == v);
                    } else {
                        assert(seq_has(r@, v) == seq_has(prev, v)) by {
                            if seq_has(r@, v) {
                                let p = choose|p: int| 0 <= p < r@.len() && r@[p] == v;
                                assert(p < prev.len());
                                assert(prev[p] == v);
                            }
                            if seq_has(prev, v) {
                                let p = choose|p: int| 0 <= p < prev.len() && prev[p] == v;
                                assert(r@[p] == v);
                            }
                        }
                        if exists|k: int|
                            0 <= k < i + 1 && (#[trigger] self.contents()[k])[0] == v {
                            let k = choose|k: int|
                                0 <= k < i + 1 && (#[trigger] self.contents()[k])[0] == v;
                            assert(k < i);
                        }
                    }
                }
            }
            i += 1;
        }
        r
    }

    /// The one-level descent: the residual rows that start with `v`, their
    /// head dropped.
    pub(in crate::db) fn child(&self, v: Value) -> (c: Trie)
        requires
            forall|i: int|
                0 <= i < self.contents().len() ==> (#[trigger] self.contents()[i]).len() >= 1,
        ensures
            forall|i: int|
                0 <= i < c.contents().len() ==> tail_of_match(
                    self.contents(),
                    v,
                    #[trigger] c.contents()[i],
                ),
            forall|j: int|
                0 <= j < self.contents().len() && (#[trigger] self.contents()[j])[0] == v
                    ==> seq_has(c.contents(), self.contents()[j].skip(1)),
    {
        let n = self.rows.len();
        let mut out: Vec<Vec<Value>> = Vec::new();
        let mut i: usize = 0;
        while i < n
            invariant
                i <= n,
                n == self.contents().len(),
                forall|k: int|
                    0 <= k < self.contents().len() ==> (#[trigger] self.contents()[k]).len() >= 1,
                forall|p: int|
                    0 <= p < rows_view(out@).len() ==> tail_of_match(
                        self.contents(),
                        v,
                        #[trigger] rows_view(out@)[p],
                    ),
                forall|j: int|
                    0 <= j < i && (#[trigger] self.contents()[j])[0] == v ==> seq_has(
                        rows_view(out@),
                        self.contents()[j].skip(1),
                    ),
            decreases n - i,
        {
            proof {
                assert(self.contents()[i as int] == self.rows@[i as int]@);
            }
            if self.rows[i][0].0 == v.0 {
                proof {
                    assert(self.contents()[i as int][0] == v);
                }
                let row = &self.rows[i];
                let w = row.len();
                let mut tail: Vec<Value> = Vec::new();
                let mut k: usize = 1;
                while k < w
                    invariant
                        1 <= k <= w,
                        w == row@.len(),
                        tail@ =~= row@.subrange(1, k as int),
                    decreases w - k,
                {
                    tail.push(row[k]);
                    proof {
                        assert(tail@ =~= row@.subrange(1, k + 1 as int));
                    }
                    k += 1;
                }
                let ghost prevout = rows_view(out@);
                proof {
                    assert(tail@ =~= self.contents()[i as int].skip(1));
                }
                out.push(tail);
                proof {
                    assert(rows_view(out@) =~= prevout.push(tail@));
                    assert(rows_view(out@)[prevout.len() as int] == self.contents()[
                        i as int
                    ].skip(1));
                    assert forall|p: int|
                        0 <= p < rows_view(out@).len() implies tail_of_match(
                        self.contents(),
                        v,
                        #[trigger] rows_view(out@)[p],
                    ) by {
                        if p < prevout.len() {
                            assert(rows_view(out@)[p] == prevout[p]);
                            assert(tail_of_match(self.contents(), v, prevout[p]));
                        } else {
                            let jj: int = i as int;
                            assert(0 <= jj < self.contents().len() && (
                            self.contents()[jj])[0] == v && rows_view(out@)[p]
                                == self.contents()[jj].skip(1));
                        }
                    }
                    assert forall|j: int|
                        0 <= j < i + 1 && (#[trigger] self.contents()[j])[0]
                            == v implies seq_has(
                        rows_view(out@),
                        self.contents()[j].skip(1),
                    ) by {
                        if j < i {
                            let p = choose|p: int|
                                0 <= p < prevout.len() && prevout[p] == self.contents()[j].skip(1);
                            assert(rows_view(out@)[p] == self.contents()[j].skip(1));
                        } else {
                            assert(rows_view(out@)[prevout.len() as int] == self.contents()[
                                j
                            ].skip(1));
                        }
                    }
                }
            } else {
                proof {
                    assert(self.contents()[i as int][0] != v);
                }
            }
            i += 1;
        }
        let c = Trie { rows: out };
        proof {
            assert(c.contents() == rows_view(out@));
        }
        c
    }

    /// An identical copy of the index.
    pub(in crate::db) fn duplicate(&self) -> (c: Trie)
        ensures
            c.contents() == self.contents(),
    {
        let n = self.rows.len();
        let mut out: Vec<Vec<Value>> = Vec::new();
        let mut i: usize = 0;
        while i < n
            invariant
                i <= n,
                n == self.contents().len(),
                out@.len() == i,
                forall|p: int| 0 <= p < i ==> (#[trigger] rows_view(out@)[p]) == self.contents()[p],
            decreases n - i,
        {
            proof {
                assert(self.contents()[i as int] == self.rows@[i as int]@);
            }
            let row = &self.rows[i];
            let w = row.len();
            let mut copy: Vec<Value> = Vec::new();
            let mut k: usize = 0;
            while k < w
                invariant
                    k <= w,
                    w == row@.len(),
                    copy@ =~= row@.subrange(0, k as int),
                decreases w - k,
            {
                copy.push(row[k]);
                proof {
                    assert(copy@ =~= row@.subrange(0, k + 1 as int));
                }
                k += 1;
            }
            let ghost prevout = rows_view(out@);
            proof {
                assert(copy@ =~= self.contents()[i as int]);
            }
            out.push(copy);
            proof {
                assert(rows_view(out@) =~= prevout.push(copy@));
                assert(rows_view(out@)[i as int] == self.contents()[i as int]);
            }
            i += 1;
        }
        let c = Trie { rows: out };
        proof {
            assert(c.contents() =~= self.contents());
        }
        c
    }
}

/// Pairwise-distinct values.
pub open spec fn distinct_vals(vs: Seq<Value>) -> bool {
    forall|i: int, j: int| 0 <= i < j < vs.len() ==> vs[i] != vs[j]
}

/// `occ` lists exactly the atoms that mention `x`, in ascending order.
pub open spec fn occ_exact(occ: Seq<usize>, atoms: Seq<(Symbol, Seq<Term>)>, x: Symbol) -> bool {
    &&& forall|a: int, b: int| 0 <= a < b < occ.len() ==> occ[a] < occ[b]
    &&& forall|a: int|
        0 <= a < occ.len() ==> (#[trigger] occ[a]) < atoms.len() && terms_have_var(
            atoms[occ[a] as int].1,
            x,
        )
    &&& forall|j: int|
        0 <= j < atoms.len() && terms_have_var((#[trigger] atoms[j]).1, x) ==> exists|a: int|
            0 <= a < occ.len() && occ[a] as int == j
}

/// A mention of a variable somewhere in `s.push(t)` is a mention in `s` or in
/// `t` itself.
pub proof fn lemma_have_var_push(s: Seq<Term>, t: Term, x: Variable)
    ensures
        terms_have_var(s.push(t), x) == (terms_have_var(s, x) || t == Term::Variable(x)),
{
    if terms_have_var(s, x) {
        let k = choose|k: int| 0 <= k < s.len() && s[k] == Term::Variable(x);
        assert(s.push(t)[k] == Term::Variable(x));
    }
    if t == Term::Variable(x) {
        assert(s.push(t)[s.len() as int] == Term::Variable(x));
    }
    if terms_have_var(s.push(t), x) {
        let k = choose|k: int| 0 <= k < s.push(t).len() && s.push(t)[k] == Term::Variable(x);
        if k < s.len() {
            assert(s[k] == Term::Variable(x));
        }
    }
}

/// A query compiled once: the atom list plus a global variable order, most
/// referenced first, with each variable's exact list of referencing atoms.
pub struct CompiledQuery {
    query: Query,
    var_order: Vec<Variable>,
    occurrences: Vec<Vec<usize>>,
}

impl CompiledQuery {
    /// The compiled conjunction.
    pub closed spec fn atoms(self) -> Seq<(Symbol, Seq<Term>)> {
        atoms_view(self.query.atoms@)
    }

    /// The global variable order.
    pub closed spec fn vars(self) -> Seq<Variable> {
        self.var_order@
    }

    /// For each variable of the order, the atoms that mention it.
    pub closed spec fn occs(self) -> Seq<Seq<usize>> {
        self.occurrences@.map(|_i: int, o: Vec<usize>| o@)
    }

    /// The order is a permutation of the query's distinct variables, each
    /// with its exact occurrence list, sorted by descending occurrence count.
    pub open spec fn wf(self) -> bool {
        &&& distinct_syms(self.vars())
        &&& self.occs().len() == self.vars().len()
        &&& forall|i: int|
            0 <= i < self.vars().len() ==> occ_exact(
                #[trigger] self.occs()[i],
                self.atoms(),
                self.vars()[i],
            )
        &&& forall|i: int| 0 <= i < self.vars().len() ==> (#[trigger] self.occs()[i]).len() >= 1
        &&& forall|j: int|
            0 <= j < self.atoms().len() ==> vars_cover_terms(
                self.vars(),
                (#[trigger] self.atoms()[j]).1,
            )
        &&& forall|i: int, j: int|
            0 <= i < j < self.vars().len() ==> (#[trigger] self.occs()[i]).len() >= (
            #[trigger] self.occs()[j]).len()
    }

    /// The position a variable holds in the global order; fails when the
    /// query does not bind it.
    pub fn get_index(&self, var: Variable) -> (r: Result<usize, Error>)
        ensures
            match r {
                Ok(i) => 0 <= i < self.vars().len() && self.vars()[i as int] == var,
                Err(e) => e == Error::UnknownVariable(var) && !seq_has(self.vars(), var),
            },
    {
        let n = self.var_order.len();
        let mut i: usize = 0;
        while i < n
            invariant
                i <= n,
                n == self.vars().len(),
                forall|k: int| 0 <= k < i ==> self.vars()[k] != var,
            decreases n - i,
        {
            if self.var_order[i] == var {
                return Ok(i);
            }
            i += 1;
        }
        Err(Error::UnknownVariable(var))
    }

    /// How many variables a full substitution assigns.
    pub fn subst_len(&self) -> (r: usize)
        ensures
            r == self.vars().len(),
    {
        self.var_order.len()
    }

    /// Compiles `query`: collects each distinct variable with the exact list
    /// of atoms referencing it, then orders the variables by descending
    /// reference count (ties broken deterministically).
    pub fn new(_db: &Database, query: Query) -> (r: CompiledQuery)
        ensures
            r.wf(),
            r.atoms() == atoms_view(query.atoms@),
    {
        let ghost av = atoms_view(query.atoms@);
        let mut keys: Vec<Variable> = Vec::new();
        let mut occs: Vec<Vec<usize>> = Vec::new();
        let na = query.atoms.len();
        let mut i: usize = 0;
        while i < na
            invariant
                i <= na,
                na == av.len(),
                av == atoms_view(query.atoms@),
                keys@.len() == occs_view(occs@).len(),
                distinct_syms(keys@),
                forall|p: int|
                    0 <= p < keys@.len() ==> occ_exact(
                        #[trigger] occs_view(occs@)[p],
                        av.take(i as int),
                        keys@[p],
                    ) && occs_view(occs@)[p].len() >= 1,
                forall|j: int, x: Variable|
                    0 <= j < i && #[trigger] terms_have_var(av[j].1, x) ==> seq_has(keys@, x),
            decreases na - i,
        {
            let nt = query.atoms[i].terms.len();
            let mut k: usize = 0;
            while k < nt
                invariant
                    k <= nt,
                    i < na,
                    na == av.len(),
                    av == atoms_view(query.atoms@),
                    nt == av[i as int].1.len(),
                    keys@.len() == occs_view(occs@).len(),
                    distinct_syms(keys@),
                    forall|p: int|
                        0 <= p < keys@.len() ==> occ_exact(
                            #[trigger] occs_view(occs@)[p],
                            av.take(i as int).push(
                                (av[i as int].0, av[i as int].1.take(k as int)),
                            ),
                            keys@[p],
                        ) && occs_view(occs@)[p].len() >= 1,
                    forall|j: int, x: Variable|
                        0 <= j < i && #[trigger] terms_have_var(av[j].1, x) ==> seq_has(keys@, x),
                    forall|x: Variable|
                        terms_have_var(av[i as int].1.take(k as int), x) ==> seq_has(keys@, x),
                decreases nt - k,
            {
                let ghost part_k = av[i as int].1.take(k as int);
                let ghost part_k1 = av[i as int].1.take(k + 1 as int);
                let ghost atoms_k = av.take(i as int).push((av[i as int].0, part_k));
                let ghost atoms_k1 = av.take(i as int).push((av[i as int].0, part_k1));
                let ghost tk = av[i as int].1[k as int];
                proof {
                    assert(part_k1 =~= part_k.push(tk));
                    assert(atoms_k.len() == i + 1);
                    assert(atoms_k1.len() == i + 1);
                    assert(forall|j: int| 0 <= j < i ==> atoms_k1[j] == atoms_k[j]);
                    assert(atoms_k1[i as int].1 == part_k.push(tk));
                    assert(atoms_k[i as int].1 == part_k);
                    assert(tk == query.atoms@[i as int].terms@[k as int]);
                }
                match &query.atoms[i].terms[k] {
                    Term::Variable(v) => {
                        let x = *v;
                        proof {
                            assert(tk == Term::Variable(x));
                        }
                        match find_sym(&keys, x) {
                            Some(p) => {
                                let ghost ov = occs_view(occs@);
                                proof {
                                    assert(occs_view(occs@)[p as int] == occs@[p as int]@);
                                }
                                let l = occs[p].len();
                                let lastv = occs[p][l - 1];
                                if lastv != i {
                                    occs[p].push(i);
                                    proof {
                                        assert(occs_view(occs@) =~= ov.update(
                                            p as int,
                                            ov[p as int].push(i),
                                        ));
                                    }
                                }
                                proof {
                                    let nv = occs_view(occs@);
                                    assert forall|pp: int| 0 <= pp < keys@.len() implies occ_exact(
                                        #[trigger] nv[pp],
                                        atoms_k1,
                                        keys@[pp],
                                    ) && nv[pp].len() >= 1 by {
                                        let y = keys@[pp];
                                        assert(occ_exact(ov[pp], atoms_k, y));
                                        lemma_have_var_push(part_k, tk, y);
                                        if pp == p as int {
                                            lemma_have_var_push(part_k, tk, x);
                                            assert(terms_have_var(part_k1, x));
                                            if lastv != i {
                                                // every listed atom index is at most i, and
                                                // the largest differs from i, so pushing i
                                                // keeps the list increasing
                                                assert(nv[pp] == ov[pp].push(i));
                                                assert(forall|a: int|
                                                    0 <= a < ov[pp].len() ==> (#[trigger] ov[pp][a])
                                                        < atoms_k.len());
                                                assert(forall|a: int|
                                                    0 <= a < ov[pp].len() - 1 ==> (#[trigger] ov[pp][a])
                                                        < ov[pp][ov[pp].len() - 1]);
                                                assert(ov[pp][ov[pp].len() - 1] == lastv);
                                                assert forall|a: int, b: int|
                                                    0 <= a < b < nv[pp].len() implies nv[pp][a]
                                                    < nv[pp][b] by {
                                                    if b == nv[pp].len() - 1 {
                                                        assert(nv[pp][b] == i);
                                                        assert(ov[pp][a] <= lastv);
                                                    }
                                                }
                                                assert forall|j: int|
                                                    0 <= j < atoms_k1.len() && terms_have_var(
                                                        (#[trigger] atoms_k1[j]).1,
                                                        y,
                                                    ) implies exists|a: int|
                                                    0 <= a < nv[pp].len() && nv[pp][a] as int
                                                        == j by {
                                                    if j < i {
                                                        assert(terms_have_var(atoms_k[j].1, y));
                                                        let a = choose|a: int|
                                                            0 <= a < ov[pp].len() && ov[pp][a] as int
                                                                == j;
                                                        assert(nv[pp][a] as int == j);
                                                    } else {
                                                        assert(nv[pp][nv[pp].len() - 1] as int == j);
                                                    }
                                                }
                                                assert forall|a: int|
                                                    0 <= a < nv[pp].len() implies (#[trigger] nv[pp][a])
                                                    < atoms_k1.len() && terms_have_var(
                                                    atoms_k1[nv[pp][a] as int].1,
                                                    y,
                                                ) by {
                                                    if a < nv[pp].len() - 1 {
                                                        assert(ov[pp][a] < atoms_k.len());
                                                        if ov[pp][a] as int == i {
                                                            assert(terms_have_var(part_k, y));
                                                        }
                                                    }
                                                }
                                            } else {
                                                assert(nv[pp] == ov[pp]);
                                                assert forall|j: int|
                                                    0 <= j < atoms_k1.len() && terms_have_var(
                                                        (#[trigger] atoms_k1[j]).1,
                                                        y,
                                                    ) implies exists|a: int|
                                                    0 <= a < nv[pp].len() && nv[pp][a] as int
                                                        == j by {
                                                    if j < i {
                                                        assert(terms_have_var(atoms_k[j].1, y));
                                                    } else {
                                                        assert(ov[pp][ov[pp].len() - 1] as int == i);
                                                    }
                                                }
                                                assert forall|a: int|
                                                    0 <= a < nv[pp].len() implies (#[trigger] nv[pp][a])
                                                    < atoms_k1.len() && terms_have_var(
                                                    atoms_k1[nv[pp][a] as int].1,
                                                    y,
                                                ) by {
                                                    assert(ov[pp][a] < atoms_k.len());
                                                    if ov[pp][a] as int == i {
                                                        assert(terms_have_var(part_k, y));
                                                    }
                                                }
                                            }
                                        } else {
                                            assert(nv[pp] == ov[pp]);
                                            assert(y != x);
                                            assert forall|j: int|
                                                0 <= j < atoms_k1.len() && terms_have_var(
                                                    (#[trigger] atoms_k1[j]).1,
                                                    y,
                                                ) implies exists|a: int|
                                                0 <= a < nv[pp].len() && nv[pp][a] as int == j by {
                                                if j < i {
                                                    assert(terms_have_var(atoms_k[j].1, y));
                                                } else {
                                                    assert(terms_have_var(part_k1, y));
                                                    assert(terms_have_var(part_k, y));
                                                    assert(terms_have_var(atoms_k[i as int].1, y));
                                                }
                                            }
                                            assert forall|a: int|
                                                0 <= a < nv[pp].len() implies (#[trigger] nv[pp][a])
                                                < atoms_k1.len() && terms_have_var(
                                                atoms_k1[nv[pp][a] as int].1,
                                                y,
                                            ) by {
                                                assert(ov[pp][a] < atoms_k.len());
                                                if ov[pp][a] as int == i {
                                                    assert(terms_have_var(part_k, y));
                                                }
                                            }
                                        }
                                    }
                                    assert forall|y: Variable|
                                        terms_have_var(part_k1, y) implies seq_has(
                                        keys@,
                                        y,
                                    ) by {
                                        lemma_have_var_push(part_k, tk, y);
                                        if y == x {
                                            assert(keys@[p as int] == x);
                                        }
                                    }
                                }
                            },
                            None => {
                                let ghost ov = occs_view(occs@);
                                let ghost ks = keys@;
                                keys.push(x);
                                let mut o: Vec<usize> = Vec::new();
                                o.push(i);
                                occs.push(o);
                                proof {
                                    let nv = occs_view(occs@);
                                    assert(nv =~= ov.push(seq![i]));
                                    assert(keys@ == ks.push(x));
                                    assert(distinct_syms(keys@)) by {
                                        assert(forall|q: int|
                                            0 <= q < ks.len() ==> keys@[q] == ks[q]);
                                        assert(keys@[ks.len() as int] == x);
                                        assert(!seq_has(ks, x));
                                    }
                                    assert forall|pp: int| 0 <= pp < keys@.len() implies occ_exact(
                                        #[trigger] nv[pp],
                                        atoms_k1,
                                        keys@[pp],
                                    ) && nv[pp].len() >= 1 by {
                                        let y = keys@[pp];
                                        lemma_have_var_push(part_k, tk, y);
                                        if pp < ks.len() {
                                            assert(nv[pp] == ov[pp]);
                                            assert(occ_exact(ov[pp], atoms_k, y));
                                            assert(seq_has(ks, y));
                                            assert(y != x);
                                            assert forall|j: int|
                                                0 <= j < atoms_k1.len() && terms_have_var(
                                                    (#[trigger] atoms_k1[j]).1,
                                                    y,
                                                ) implies exists|a: int|
                                                0 <= a < nv[pp].len() && nv[pp][a] as int == j by {
                                                if j < i {
                                                    assert(terms_have_var(atoms_k[j].1, y));
                                                } else {
                                                    assert(terms_have_var(part_k, y));
                                                    assert(terms_have_var(atoms_k[i as int].1, y));
                                                }
                                            }
                                            assert forall|a: int|
                                                0 <= a < nv[pp].len() implies (#[trigger] nv[pp][a])
                                                < atoms_k1.len() && terms_have_var(
                                                atoms_k1[nv[pp][a] as int].1,
                                                y,
                                            ) by {
                                                assert(ov[pp][a] < atoms_k.len());
                                                if ov[pp][a] as int == i {
                                                    assert(terms_have_var(part_k, y));
                                                }
                                            }
                                        } else {
                                            assert(y == x);
                                            assert(nv[pp] =~= seq![i]);
                                            assert(terms_have_var(part_k1, x));
                                            assert forall|j: int|
                                                0 <= j < atoms_k1.len() && terms_have_var(
                                                    (#[trigger] atoms_k1[j]).1,
                                                    x,
                                                ) implies exists|a: int|
                                                0 <= a < nv[pp].len() && nv[pp][a] as int == j by {
                                                if j < i {
                                                    assert(terms_have_var(av[j].1, x));
                                                    assert(seq_has(ks, x));
                                                    assert(false);
                                                } else {
                                                    assert(nv[pp][0] as int == i);
                                                }
                                            }
                                        }
                                    }
                                    assert forall|y: Variable|
                                        terms_have_var(part_k1, y) implies seq_has(
                                        keys@,
                                        y,
                                    ) by {
                                        lemma_have_var_push(part_k, tk, y);
                                        if y == x {
                                            assert(keys@[ks.len() as int] == x);
                                        } else {
                                            assert(seq_has(ks, y));
                                            let q = choose|q: int|
                                                0 <= q < ks.len() && ks[q] == y;
                                            assert(keys@[q] == y);
                                        }
                                    }
                                    assert forall|j: int, y: Variable|
                                        0 <= j < i && #[trigger] terms_have_var(
                                            av[j].1,
                                            y,
                                        ) implies seq_has(keys@, y) by {
                                        assert(seq_has(ks, y));
                                        let q = choose|q: int| 0 <= q < ks.len() && ks[q] == y;
                                        assert(keys@[q] == y);
                                    }
                                }
                            },
                        }
                    },
                    Term::Value(_) => {
                        proof {
                            let nv = occs_view(occs@);
                            assert forall|pp: int| 0 <= pp < keys@.len() implies occ_exact(
                                #[trigger] nv[pp],
                                atoms_k1,
                                keys@[pp],
                            ) && nv[pp].len() >= 1 by {
                                let y = keys@[pp];
                                assert(occ_exact(nv[pp], atoms_k, y));
                                lemma_have_var_push(part_k, tk, y);
                                assert(tk != Term::Variable(y));
                                assert forall|j: int|
                                    0 <= j < atoms_k1.len() && terms_have_var(
                                        (#[trigger] atoms_k1[j]).1,
                                        y,
                                    ) implies exists|a: int|
                                    0 <= a < nv[pp].len() && nv[pp][a] as int == j by {
                                    if j < i {
                                        assert(terms_have_var(atoms_k[j].1, y));
                                    } else {
                                        assert(terms_have_var(part_k, y));
                                        assert(terms_have_var(atoms_k[i as int].1, y));
                                    }
                                }
                                assert forall|a: int|
                                    0 <= a < nv[pp].len() implies (#[trigger] nv[pp][a])
                                    < atoms_k1.len() && terms_have_var(
                                    atoms_k1[nv[pp][a] as int].1,
                                    y,
                                ) by {
                                    assert(nv[pp][a] < atoms_k.len());
                                    if nv[pp][a] as int == i {
                                        assert(terms_have_var(part_k, y));
                                    }
                                }
                            }
                            assert forall|y: Variable|
                                terms_have_var(part_k1, y) implies seq_has(keys@, y) by {
                                lemma_have_var_push(part_k, tk, y);
                            }
                        }
                    },
                }
                k += 1;
            }
            proof {
                assert(av[i as int].1.take(nt as int) =~= av[i as int].1);
                assert((av[i as int].0, av[i as int].1.take(nt as int)) == av[i as int]);
                assert(av.take(i as int).push(av[i as int]) =~= av.take(i + 1 as int));
            }
            i += 1;
        }
        proof {
            assert(av.take(na as int) =~= av);
        }
        // Order the variables by descending occurrence count; selecting the
        // largest remaining list each time keeps the key/list pairing intact.
        let mut out_keys: Vec<Variable> = Vec::new();
        let mut out_occs: Vec<Vec<usize>> = Vec::new();
        let ghost keys0 = keys@;
        while keys.len() > 0
            invariant
                av == atoms_view(query.atoms@),
                keys@.len() == occs_view(occs@).len(),
                out_keys@.len() == occs_view(out_occs@).len(),
                distinct_syms(out_keys@ + keys@),
                forall|p: int|
                    0 <= p < keys@.len() ==> occ_exact(
                        #[trigger] occs_view(occs@)[p],
                        av,
                        keys@[p],
                    ) && occs_view(occs@)[p].len() >= 1,
                forall|p: int|
                    0 <= p < out_keys@.len() ==> occ_exact(
                        #[trigger] occs_view(out_occs@)[p],
                        av,
                        out_keys@[p],
                    ) && occs_view(out_occs@)[p].len() >= 1,
                forall|a: int, b: int|
                    0 <= a < b < out_keys@.len() ==> (#[trigger] occs_view(out_occs@)[a]).len() >= (
                    #[trigger] occs_view(out_occs@)[b]).len(),
                forall|a: int, q: int|
                    0 <= a < out_keys@.len() && 0 <= q < keys@.len() ==> (#[trigger] occs_view(
                        out_occs@,
                    )[a]).len() >= (#[trigger] occs_view(occs@)[q]).len(),
                forall|x: Variable|
                    seq_has(keys0, x) ==> seq_has(out_keys@, x) || seq_has(keys@, x),
            decreases keys@.len(),
        {
            let m = keys.len();
            let mut best: usize = 0;
            let mut q: usize = 1;
            while q < m
                invariant
                    1 <= q <= m,
                    best < q,
                    m == keys@.len(),
                    keys@.len() == occs_view(occs@).len(),
                    forall|p: int|
                        0 <= p < q ==> occs_view(occs@)[best as int].len() >= (#[trigger] occs_view(
                            occs@,
                        )[p]).len(),
                decreases m - q,
            {
                if occs[q].len() > occs[best].len() {
                    best = q;
                }
                q += 1;
            }
            let ghost rk = keys@;
            let ghost ro = occs_view(occs@);
            let ghost ok = out_keys@;
            let ghost oo = occs_view(out_occs@);
            let kx = keys.swap_remove(best);
            let ox = occs.swap_remove(best);
            out_keys.push(kx);
            out_occs.push(ox);
            proof {
                let b = best as int;
                assert(keys@ =~= rk.update(b, rk.last()).drop_last());
                assert(occs_view(occs@) =~= ro.update(b, ro.last()).drop_last());
                assert(out_keys@ == ok.push(kx));
                assert(occs_view(out_occs@) =~= oo.push(ox@));
                assert(kx == rk[b]);
                assert(ox@ == ro[b]);
                // each remaining entry was an entry before, at a known spot
                assert forall|p: int| 0 <= p < keys@.len() implies keys@[p] == rk[
                    (if p == b { rk.len() - 1 } else { p })
                ] && occs_view(occs@)[p] == ro[(if p == b { rk.len() - 1 } else { p })] by {}
                assert(distinct_syms(out_keys@ + keys@)) by {
                    let c = ok + rk;
                    let c2 = out_keys@ + keys@;
                    assert(distinct_syms(c));
                    assert forall|u: int, w: int| 0 <= u < w < c2.len() implies c2[u] != c2[w] by {
                        let f = |z: int|
                            if z < ok.len() {
                                z
                            } else if z == ok.len() {
                                ok.len() + b
                            } else if z - 1 - ok.len() == b {
                                ok.len() + rk.len() - 1
                            } else {
                                z - 1
                            };
                        assert(c2[u] == c[f(u)]);
                        assert(c2[w] == c[f(w)]);
                        assert(f(u) != f(w));
                        if f(u) < f(w) {
                            assert(c[f(u)] != c[f(w)]);
                        } else {
                            assert(c[f(w)] != c[f(u)]);
                        }
                    }
                }
                assert forall|x: Variable|
                    seq_has(keys0, x) implies seq_has(out_keys@, x) || seq_has(keys@, x) by {
                    if seq_has(ok, x) {
                        let u = choose|u: int| 0 <= u < ok.len() && ok[u] == x;
                        assert(out_keys@[u] == x);
                    } else if seq_has(rk, x) {
                        let u = choose|u: int| 0 <= u < rk.len() && rk[u] == x;
                        if u == b {
                            assert(out_keys@[ok.len() as int] == x);
                        } else if u == rk.len() - 1 {
                            if b == rk.len() - 1 {
                                assert(out_keys@[ok.len() as int] == x);
                            } else {
                                assert(keys@[b] == x);
                            }
                        } else {
                            assert(keys@[u] == x);
                        }
                    }
                }
            }
        }
        let r = CompiledQuery { query, var_order: out_keys, occurrences: out_occs };
        proof {
            assert(r.atoms() == av);
            assert(r.vars() == out_keys@);
            assert(r.occs() == occs_view(out_occs@));
            assert(distinct_syms(r.vars())) by {
                assert(out_keys@ + keys@ =~= out_keys@);
            }
            assert forall|j: int|
                0 <= j < r.atoms().len() implies vars_cover_terms(
                r.vars(),
                (#[trigger] r.atoms()[j]).1,
            ) by {
                assert forall|kk: int|
                    0 <= kk < r.atoms()[j].1.len() implies match #[trigger] r.atoms()[j].1[kk] {
                    Term::Variable(x) => r.vars().contains(x),
                    Term::Value(_) => true,
                } by {
                    match r.atoms()[j].1[kk] {
                        Term::Variable(x) => {
                            assert(terms_have_var(av[j].1, x));
                            assert(seq_has(keys0, x));
                            assert(seq_has(out_keys@, x));
                            let w = choose|w: int| 0 <= w < out_keys@.len() && out_keys@[w] == x;
                            assert(r.vars()[w] == x);
                        },
                        Term::Value(_) => {},
                    }
                }
            }
        }
        r
    }

    /// The recursive generic join: resolves variable `d` of the global order
    /// by intersecting the leading values of every atom that mentions it,
    /// then descends.  Emits into `out` exactly the full assignments that
    /// extend `prefix` and satisfy every atom, each once.
    #[verifier::loop_isolation(false)]
    fn gj_rec(
        &self,
        d: usize,
        prefix: &mut Vec<Value>,
        tries: &Vec<Trie>,
        out: &mut Vec<Vec<Value>>,
        rels: Ghost<Seq<Seq<Seq<Value>>>>,
    )
        requires
            self.wf(),
            rels@.len() == self.atoms().len(),
            tries@.len() == self.atoms().len(),
            old(prefix)@.len() == d,
            d <= self.vars().len(),
            forall|j: int|
                0 <= j < tries@.len() ==> trie_inv(
                    #[trigger] tries@[j],
                    rels@[j],
                    self.atoms()[j].1,
                    self.vars(),
                    old(prefix)@,
                ),
            forall|j: int|
                0 <= j < tries@.len() && rem_width(self.atoms()[j].1, self.vars(), d as int) == 0
                    ==> seq_has((#[trigger] tries@[j]).contents(), Seq::<Value>::empty()),
        ensures
            final(prefix)@ == old(prefix)@,
            final(out)@.len() >= old(out)@.len(),
            forall|p: int| 0 <= p < old(out)@.len() ==> final(out)@[p] == old(out)@[p],
            forall|p: int|
                old(out)@.len() <= p < final(out)@.len() ==> (#[trigger] final(out)@[p])@.len()
                    == self.vars().len() && final(out)@[p]@.take(d as int) == old(prefix)@
                    && all_ext_sat(rels@, self.atoms(), self.vars(), final(out)@[p]@),
            forall|full: Seq<Value>|
                full.len() == self.vars().len() && full.take(d as int) == old(prefix)@
                    && #[trigger] all_ext_sat(rels@, self.atoms(), self.vars(), full) ==> exists|
                    p: int,
                |
                    old(out)@.len() <= p < final(out)@.len() && (#[trigger] final(out)@[p])@
                        == full,
            forall|p1: int, p2: int|
                old(out)@.len() <= p1 < p2 < final(out)@.len() ==> (#[trigger] final(out)@[p1])@
                    != (#[trigger] final(out)@[p2])@,
        decreases self.vars().len() - d,
    {
        let nvars = self.var_order.len();
        let ghost pfx = prefix@;
        let ghost av = self.atoms();
        let ghost vs = self.vars();
        if d == nvars {
            proof {
                assert(vs.take(d as int) =~= vs);
                assert forall|j: int| 0 <= j < av.len() implies ext_sat(
                    rels@[j],
                    (#[trigger] av[j]).1,
                    vs,
                    pfx,
                ) by {
                    let terms = av[j].1;
                    assert(rem_width(terms, vs, d as int) == 0);
                    assert(seq_has(tries@[j].contents(), Seq::<Value>::empty()));
                    assert(residual(rels@[j], terms, vs, pfx, Seq::<Value>::empty())) by {
                        let p = choose|p: int|
                            0 <= p < tries@[j].contents().len() && tries@[j].contents()[p]
                                == Seq::<Value>::empty();
                        assert(residual(rels@[j], terms, vs, pfx, tries@[j].contents()[p]));
                    }
                    let i = choose|i: int|
                        0 <= i < rels@[j].len() && fixed_match(#[trigger] rels@[j][i], terms)
                            && proj(rels@[j][i], apos(terms, vs)) == avals(
                            terms,
                            vs.take(pfx.len() as int),
                            pfx,
                        ) + Seq::<Value>::empty();
                    assert(avals(terms, vs.take(pfx.len() as int), pfx) + Seq::<Value>::empty()
                        =~= avals(terms, vs, pfx));
                }
                assert(all_ext_sat(rels@, av, vs, pfx));
            }
            let mut copy: Vec<Value> = Vec::new();
            let w = prefix.len();
            let mut k: usize = 0;
            while k < w
                invariant
                    k <= w,
                    w == prefix@.len(),
                    copy@ =~= prefix@.subrange(0, k as int),
                decreases w - k,
            {
                copy.push(prefix[k]);
                proof {
                    assert(copy@ =~= prefix@.subrange(0, k + 1 as int));
                }
                k += 1;
            }
            proof {
                assert(copy@ =~= pfx);
            }
            let ghost out0 = out@;
            out.push(copy);
            proof {
                assert(out@.len() == out0.len() + 1);
                assert(out@[out0.len() as int]@ == pfx);
                assert(pfx.take(d as int) =~= pfx);
                assert forall|full: Seq<Value>|
                    full.len() == vs.len() && full.take(d as int) == pfx && #[trigger] all_ext_sat(
                        rels@,
                        av,
                        vs,
                        full,
                    ) implies exists|p: int|
                    out0.len() <= p < out@.len() && (#[trigger] out@[p])@ == full by {
                    assert(full.take(d as int) =~= full);
                    assert(out@[out0.len() as int]@ == full);
                }
            }
            return ;
        }
        let x = self.var_order[d];
        proof {
            assert(occ_exact(self.occs()[d as int], av, x));
            assert(self.occs()[d as int].len() >= 1);
            assert(self.occurrences@[d as int]@ == self.occs()[d as int]);
        }
        let occ = &self.occurrences[d];
        let ghost og = occ@;
        let ol = occ.len();
        // every atom that mentions x still has at least one unbound position
        proof {
            assert forall|a: int| 0 <= a < og.len() implies rem_width(
                av[(#[trigger] og[a]) as int].1,
                vs,
                d as int,
            ) >= 1 by {
                let terms = av[og[a] as int].1;
                lemma_apos_step(terms, vs, d as int);
                lemma_apos_prefix(terms, vs, d + 1 as int);
                assert(apos(terms, vs.take(d + 1 as int)).len() == apos(
                    terms,
                    vs.take(d as int),
                ).len() + 1);
            }
        }
        // pick the atom with the fewest residual rows
        let mut amin: usize = 0;
        let mut a: usize = 1;
        while a < ol
            invariant
                1 <= a <= ol,
                amin < a,
                ol == og.len(),
                og == occ@,
                occ_exact(og, av, x),
                av.len() == tries@.len(),
            decreases ol - a,
        {
            proof {
                assert(og[a as int] < av.len());
                assert(og[amin as int] < av.len());
            }
            if tries[occ[a]].len() < tries[occ[amin]].len() {
                amin = a;
            }
            a += 1;
        }
        proof {
            assert(og[amin as int] < av.len());
        }
        let jmin = occ[amin];
        let base = tries[jmin].keys();
        // intersect: keep the leading values present in every atom of x
        let mut inter: Vec<Value> = Vec::new();
        let bl = base.len();
        let mut b: usize = 0;
        while b < bl
            invariant
                b <= bl,
                bl == base@.len(),
                ol == og.len(),
                og == occ@,
                occ_exact(og, av, x),
                av.len() == tries@.len(),
                distinct_vals(base@),
                distinct_vals(inter@),
                forall|v: Value|
                    #[trigger] seq_has(inter@, v) <==> exists|q: int|
                        0 <= q < b && base@[q] == v && all_keyed(tries@, og, v),
            decreases bl - b,
        {
            let v = base[b];
            let mut all = true;
            let mut a2: usize = 0;
            while a2 < ol
                invariant
                    a2 <= ol,
                    ol == og.len(),
                    og == occ@,
                    occ_exact(og, av, x),
                    av.len() == tries@.len(),
                    forall|j: int|
                        0 <= j < tries@.len() ==> trie_inv(
                            #[trigger] tries@[j],
                            rels@[j],
                            av[j].1,
                            vs,
                            pfx,
                        ),
                    all == forall|a3: int|
                        0 <= a3 < a2 ==> trie_has_key(tries@[(#[trigger] og[a3]) as int], v),
                decreases ol - a2,
            {
                proof {
                    assert(og[a2 as int] < av.len());
                    assert(trie_inv(tries@[og[a2 as int] as int], rels@[og[a2 as int] as int],
                        av[og[a2 as int] as int].1, vs, pfx));
                    assert(rem_width(av[og[a2 as int] as int].1, vs, d as int) >= 1);
                }
                let here = tries[occ[a2]].contains_key(v);
                proof {
                    assert(here == trie_has_key(tries@[og[a2 as int] as int], v));
                }
                all = all && here;
                a2 += 1;
            }
            let ghost before = inter@;
            if all {
                inter.push(v);
                proof {
                    assert(seq_has(base@, v)) by {
                        assert(base@[b as int] == v);
                    }
                    assert(!seq_has(before, v)) by {
                        if seq_has(before, v) {
                            let q = choose|q: int|
                                0 <= q < b && base@[q] == v && all_keyed(tries@, og, v);
                            assert(base@[q] == base@[b as int]);
                        }
                    }
                    assert(distinct_vals(inter@)) by {
                        assert(forall|p: int| 0 <= p < before.len() ==> inter@[p] == before[p]);
                    }
                    assert(all_keyed(tries@, og, v));
                }
            }
            proof {
                assert forall|v2: Value| #[trigger] seq_has(inter@, v2) implies exists|q: int|
                    0 <= q < b + 1 && base@[q] == v2 && all_keyed(tries@, og, v2) by {
                    if seq_has(before, v2) {
                    } else {
                        assert(v2 == v);
                        assert(base@[b as int] == v2 && all_keyed(tries@, og, v2));
                    }
                }
                assert forall|v2: Value|
                    (exists|q: int| 0 <= q < b + 1 && base@[q] == v2 && all_keyed(tries@, og, v2))
                        implies #[trigger] seq_has(inter@, v2) by {
                    let q = choose|q: int|
                        0 <= q < b + 1 && base@[q] == v2 && all_keyed(tries@, og, v2);
                    if q < b {
                        assert(seq_has(before, v2));
                        let p = choose|p: int| 0 <= p < before.len() && before[p] == v2;
                        assert(inter@[p] == v2);
                    } else {
                        assert(v2 == v);
                        if all {
                            assert(inter@[inter@.len() - 1] == v2);
                        } else {
                            let a3 = choose|a3: int|
                                0 <= a3 < ol && !trie_has_key(tries@[(og[a3]) as int], v);
                            assert(all_keyed(tries@, og, v2));
                            assert(trie_has_key(tries@[(og[a3]) as int], v));
                        }
                    }
                }
            }
            b += 1;
        }
        // resolve x to each surviving value in turn
        let ghost out0 = out@;
        let ghost interg = inter@;
        let il = inter.len();
        let mut t: usize = 0;
        while t < il
            invariant
                t <= il,
                il == interg.len(),
                interg == inter@,
                self.wf(),
                av == self.atoms(),
                vs == self.vars(),
                d < vs.len(),
                x == vs[d as int],
                occ_exact(og, av, x),
                distinct_vals(interg),
                rels@.len() == av.len(),
                tries@.len() == av.len(),
                prefix@ == pfx,
                pfx.len() == d,
                forall|j: int|
                    0 <= j < tries@.len() ==> trie_inv(
                        #[trigger] tries@[j],
                        rels@[j],
                        av[j].1,
                        vs,
                        pfx,
                    ),
                forall|j: int|
                    0 <= j < tries@.len() && rem_width(av[j].1, vs, d as int) == 0 ==> seq_has(
                        (#[trigger] tries@[j]).contents(),
                        Seq::<Value>::empty(),
                    ),
                out@.len() >= out0.len(),
                forall|p: int| 0 <= p < out0.len() ==> out@[p] == out0[p],
                forall|p: int|
                    out0.len() <= p < out@.len() ==> (#[trigger] out@[p])@.len() == vs.len()
                        && out@[p]@.take(d + 1 as int) == pfx.push(out@[p]@[d as int])
                        && seq_has(interg.take(t as int), out@[p]@[d as int]) && all_ext_sat(
                        rels@,
                        av,
                        vs,
                        out@[p]@,
                    ),
                forall|full: Seq<Value>|
                    full.len() == vs.len() && full.take(d as int) == pfx && #[trigger] all_ext_sat(
                        rels@,
                        av,
                        vs,
                        full,
                    ) && seq_has(interg.take(t as int), full[d as int]) ==> exists|p: int|
                        out0.len() <= p < out@.len() && (#[trigger] out@[p])@ == full,
                forall|p1: int, p2: int|
                    out0.len() <= p1 < p2 < out@.len() ==> (#[trigger] out@[p1])@ != (
                    #[trigger] out@[p2])@,
            decreases il - t,
        {
            let v = inter[t];
            proof {
                assert(seq_has(interg, interg[t as int])) by {
                    assert(interg[t as int] == interg[t as int]);
                }
                assert(all_keyed(tries@, og, interg[t as int]));
            }
            let ghost outb = out@;
            // one-level descent for the atoms that mention x; the others pass
            // through unchanged
            let na = tries.len();
            let mut nts: Vec<Trie> = Vec::new();
            let mut j: usize = 0;
            while j < na
                invariant
                    j <= na,
                    na == tries@.len(),
                    na == av.len(),
                    self.wf(),
                    av == self.atoms(),
                    vs == self.vars(),
                    d < vs.len(),
                    x == vs[d as int],
                    occ_exact(og, av, x),
                    rels@.len() == av.len(),
                    v == interg[t as int],
                    t < interg.len(),
                    all_keyed_from_inter(tries@, og, interg, t as int),
                    pfx.len() == d,
                    forall|jj: int|
                        0 <= jj < tries@.len() ==> trie_inv(
                            #[trigger] tries@[jj],
                            rels@[jj],
                            av[jj].1,
                            vs,
                            pfx,
                        ),
                    forall|jj: int|
                        0 <= jj < tries@.len() && rem_width(av[jj].1, vs, d as int) == 0
                            ==> seq_has(
                            (#[trigger] tries@[jj]).contents(),
                            Seq::<Value>::empty(),
                        ),
                    nts@.len() == j,
                    forall|jj: int|
                        0 <= jj < j ==> trie_inv(
                            #[trigger] nts@[jj],
                            rels@[jj],
                            av[jj].1,
                            vs,
                            pfx.push(v),
                        ),
                    forall|jj: int|
                        0 <= jj < j && rem_width(av[jj].1, vs, d + 1 as int) == 0 ==> seq_has(
                            (#[trigger] nts@[jj]).contents(),
                            Seq::<Value>::empty(),
                        ),
                decreases na - j,
            {
                let ghost terms = av[j as int].1;
                proof {
                    assert(self.atoms()[j as int].1 == self.query.atoms@[j as int].terms@);
                    lemma_apos_step(terms, vs, d as int);
                    lemma_apos_prefix(terms, vs, d + 1 as int);
                    assert(pfx.push(v).len() == d + 1);
                }
                let has = self.query.atoms[j].has_var(x);
                if has {
                    proof {
                        assert(terms_have_var(terms, x));
                        assert(rem_width(terms, vs, d as int) >= 1);
                        lemma_avals_step(terms, vs, d as int, pfx, v);
                    }
                    let child = tries[j].child(v);
                    proof {
                        let rows = rels@[j as int];
                        let told = tries@[j as int];
                        let remd = rem_width(terms, vs, d as int);
                        // members of the child are residuals one level deeper
                        assert forall|p: int|
                            0 <= p < child.contents().len() implies residual(
                            rows,
                            terms,
                            vs,
                            pfx.push(v),
                            #[trigger] child.contents()[p],
                        ) by {
                            assert(tail_of_match(told.contents(), v, child.contents()[p]));
                            let q = choose|q: int|
                                0 <= q < told.contents().len() && (#[trigger] told.contents()[q])[0] == v && child.contents()[p] == told.contents()[q].skip(1);
                            let suf0 = told.contents()[q];
                            assert(residual(rows, terms, vs, pfx, suf0));
                            let i = choose|i: int|
                                0 <= i < rows.len() && fixed_match(#[trigger] rows[i], terms)
                                    && proj(rows[i], apos(terms, vs)) == avals(
                                    terms,
                                    vs.take(d as int),
                                    pfx,
                                ) + suf0;
                            assert(suf0.len() == remd);
                            assert(suf0 =~= seq![suf0[0]] + suf0.skip(1));
                            assert(avals(terms, vs.take(d as int), pfx) + suf0 =~= (avals(
                                terms,
                                vs.take(d as int),
                                pfx,
                            ) + seq![v]) + suf0.skip(1));
                            assert(avals(terms, vs.take(d + 1 as int), pfx.push(v)) == avals(
                                terms,
                                vs.take(d as int),
                                pfx,
                            ) + seq![v]);
                            assert(proj(rows[i], apos(terms, vs)) == avals(
                                terms,
                                vs.take(d + 1 as int),
                                pfx.push(v),
                            ) + child.contents()[p]);
                        }
                        // residuals one level deeper all appear in the child
                        assert forall|suf: Seq<Value>|
                            #[trigger] residual(rows, terms, vs, pfx.push(v), suf) implies seq_has(
                            child.contents(),
                            suf,
                        ) by {
                            let i = choose|i: int|
                                0 <= i < rows.len() && fixed_match(#[trigger] rows[i], terms)
                                    && proj(rows[i], apos(terms, vs)) == avals(
                                    terms,
                                    vs.take(d + 1 as int),
                                    pfx.push(v),
                                ) + suf;
                            assert(avals(terms, vs.take(d + 1 as int), pfx.push(v)) + suf =~= avals(
                                terms,
                                vs.take(d as int),
                                pfx,
                            ) + (seq![v] + suf));
                            assert(residual(rows, terms, vs, pfx, seq![v] + suf));
                            assert(seq_has(told.contents(), seq![v] + suf));
                            let q = choose|q: int|
                                0 <= q < told.contents().len() && told.contents()[q] == seq![v]
                                    + suf;
                            assert(told.contents()[q][0] == v);
                            assert(told.contents()[q].skip(1) =~= suf);
                            assert(seq_has(child.contents(), told.contents()[q].skip(1)));
                        }
                        // widths shrink by one
                        assert(child.uniform(rem_width(terms, vs, d + 1 as int))) by {
                            assert forall|p: int|
                                0 <= p < child.contents().len() implies (
                            #[trigger] child.contents()[p]).len() == rem_width(
                                terms,
                                vs,
                                d + 1 as int,
                            ) by {
                                assert(tail_of_match(told.contents(), v, child.contents()[p]));
                                let q = choose|q: int|
                                    0 <= q < told.contents().len() && (#[trigger] told.contents()[q])[0] == v && child.contents()[p] == told.contents()[q].skip(
                                        1,
                                    );
                                assert(told.contents()[q].len() == remd);
                            }
                        }
                        // a fully bound atom is matched: v came from the
                        // intersection
                        if rem_width(terms, vs, d + 1 as int) == 0 {
                            let a4 = choose|a4: int| 0 <= a4 < og.len() && og[a4] as int == j;
                            assert(trie_has_key(tries@[j as int], v)) by {
                                assert(all_keyed(tries@, og, interg[t as int]));
                            }
                            let q = choose|q: int|
                                0 <= q < told.contents().len() && (#[trigger] told.contents()[q])[0] == v;
                            assert(seq_has(child.contents(), told.contents()[q].skip(1)));
                            let p2 = choose|p2: int|
                                0 <= p2 < child.contents().len() && child.contents()[p2]
                                    == told.contents()[q].skip(1);
                            assert(child.contents()[p2].len() == 0);
                            assert(child.contents()[p2] =~= Seq::<Value>::empty());
                        }
                    }
                    nts.push(child);
                } else {
                    proof {
                        assert(!terms_have_var(terms, x));
                        lemma_avals_step(terms, vs, d as int, pfx, v);
                    }
                    let copy = tries[j].duplicate();
                    proof {
                        let rows = rels@[j as int];
                        assert(avals(terms, vs.take(d + 1 as int), pfx.push(v)) == avals(
                            terms,
                            vs.take(d as int),
                            pfx,
                        ));
                        assert(rem_width(terms, vs, d + 1 as int) == rem_width(
                            terms,
                            vs,
                            d as int,
                        ));
                        assert forall|p: int|
                            0 <= p < copy.contents().len() implies residual(
                            rows,
                            terms,
                            vs,
                            pfx.push(v),
                            #[trigger] copy.contents()[p],
                        ) by {
                            assert(copy.contents()[p] == tries@[j as int].contents()[p]);
                            assert(residual(rows, terms, vs, pfx, copy.contents()[p]));
                        }
                        assert forall|suf: Seq<Value>|
                            #[trigger] residual(rows, terms, vs, pfx.push(v), suf) implies seq_has(
                            copy.contents(),
                            suf,
                        ) by {
                            assert(residual(rows, terms, vs, pfx, suf));
                        }
                    }
                    nts.push(copy);
                }
                j += 1;
            }
            prefix.push(v);
            proof {
                assert(prefix@ == pfx.push(v));
            }
            let ghost outm = out@;
            self.gj_rec(d + 1, prefix, &nts, out, rels);
            let _ = prefix.pop();
            proof {
                assert(prefix@ =~= pfx);
                assert(interg.take(t + 1 as int) =~= interg.take(t as int).push(v));
                // the new batch extends the processed characterization
                assert forall|p: int|
                    out0.len() <= p < out@.len() implies (#[trigger] out@[p])@.len() == vs.len()
                        && out@[p]@.take(d + 1 as int) == pfx.push(out@[p]@[d as int]) && seq_has(
                        interg.take(t + 1 as int),
                        out@[p]@[d as int],
                    ) && all_ext_sat(rels@, av, vs, out@[p]@) by {
                    if p < outm.len() {
                        assert(out@[p] == outm[p]);
                        if p >= out0.len() {
                            let vd = out@[p]@[d as int];
                            assert(seq_has(interg.take(t as int), vd));
                            let q = choose|q: int|
                                0 <= q < interg.take(t as int).len() && interg.take(t as int)[q]
                                    == vd;
                            assert(interg.take(t + 1 as int)[q] == vd);
                        }
                    } else {
                        assert(out@[p]@.take(d + 1 as int) == pfx.push(v));
                        assert(out@[p]@[d as int] == out@[p]@.take(d + 1 as int)[d as int]);
                        assert(out@[p]@[d as int] == v);
                        assert(interg.take(t + 1 as int)[t as int] == v);
                        assert(seq_has(interg.take(t + 1 as int), v));
                    }
                }
                assert forall|full: Seq<Value>|
                    full.len() == vs.len() && full.take(d as int) == pfx && #[trigger] all_ext_sat(
                        rels@,
                        av,
                        vs,
                        full,
                    ) && seq_has(interg.take(t + 1 as int), full[d as int]) implies exists|p: int|
                    out0.len() <= p < out@.len() && (#[trigger] out@[p])@ == full by {
                    let q = choose|q: int|
                        0 <= q < interg.take(t + 1 as int).len() && #[trigger] interg.take(
                            t + 1 as int,
                        )[q] == full[d as int];
                    if q < t {
                        assert(seq_has(interg.take(t as int), full[d as int])) by {
                            assert(interg.take(t as int)[q] == full[d as int]);
                        }
                        let p = choose|p: int|
                            out0.len() <= p < outm.len() && (#[trigger] outm[p])@ == full;
                        assert(out@[p]@ == full);
                    } else {
                        assert(full[d as int] == v);
                        assert(full.take(d + 1 as int) =~= pfx.push(v)) by {
                            assert(full.take(d + 1 as int).len() == d + 1);
                            assert(forall|z: int|
                                0 <= z < d ==> full.take(d + 1 as int)[z] == full.take(
                                    d as int,
                                )[z]);
                        }
                        let p = choose|p: int|
                            outm.len() <= p < out@.len() && (#[trigger] out@[p])@ == full;
                        assert(out0.len() <= p);
                    }
                }
                // distinctness: earlier batches bind x to earlier values
                assert forall|p1: int, p2: int|
                    out0.len() <= p1 < p2 < out@.len() implies (#[trigger] out@[p1])@ != (
                #[trigger] out@[p2])@ by {
                    if p2 < outm.len() {
                    } else if p1 >= outm.len() {
                    } else {
                        if p1 >= out0.len() {
                            let v1 = out@[p1]@[d as int];
                            assert(seq_has(interg.take(t as int), v1));
                            let q1 = choose|q1: int|
                                0 <= q1 < t && interg.take(t as int)[q1] == v1;
                            assert(interg[q1] == v1);
                            assert(out@[p2]@.take(d + 1 as int) == pfx.push(v));
                            assert(out@[p2]@[d as int] == v);
                            assert(interg[q1] != interg[t as int]);
                            assert(v1 != v);
                        }
                    }
                }
            }
            t += 1;
        }
        // anything satisfying extends by a value every mentioning atom allows
        proof {
            assert(interg.take(il as int) =~= interg);
            assert forall|full: Seq<Value>|
                full.len() == vs.len() && full.take(d as int) == pfx && #[trigger] all_ext_sat(
                    rels@,
                    av,
                    vs,
                    full,
                ) implies seq_has(interg, full[d as int]) by {
                let vstar = full[d as int];
                // vstar heads a residual row of every atom that mentions x
                assert forall|a5: int| 0 <= a5 < og.len() implies trie_has_key(
                    tries@[(#[trigger] og[a5]) as int],
                    vstar,
                ) by {
                    let jj = og[a5] as int;
                    let terms = av[jj].1;
                    assert(ext_sat(rels@[jj], terms, vs, full));
                    let i = choose|i: int|
                        0 <= i < rels@[jj].len() && fixed_match(#[trigger] rels@[jj][i], terms)
                            && proj(rels@[jj][i], apos(terms, vs)) == avals(terms, vs, full);
                    lemma_avals_prefix(terms, vs, full, d as int);
                    lemma_avals_prefix(terms, vs, full, d + 1 as int);
                    lemma_alen(terms, vs, full);
                    assert(full.take(d as int) == pfx);
                    let bound = avals(terms, vs.take(d as int), pfx);
                    let all = avals(terms, vs, full);
                    assert(bound.is_prefix_of(all));
                    let suf = all.skip(bound.len() as int);
                    assert(all =~= bound + suf);
                    assert(residual(rels@[jj], terms, vs, pfx, suf));
                    assert(seq_has(tries@[jj].contents(), suf));
                    lemma_avals_step(terms, vs, d as int, pfx, vstar);
                    assert(full.take(d + 1 as int) =~= pfx.push(vstar));
                    assert(terms_have_var(terms, vs[d as int]));
                    assert(avals(terms, vs.take(d + 1 as int), full.take(d + 1 as int)) == bound
                        + seq![vstar]);
                    assert(avals(terms, vs.take(d + 1 as int), full.take(d + 1 as int))
                        .is_prefix_of(all));
                    assert(all[bound.len() as int] == vstar) by {
                        assert((bound + seq![vstar])[bound.len() as int] == vstar);
                    }
                    assert(suf[0] == vstar);
                    let q = choose|q: int|
                        0 <= q < tries@[jj].contents().len() && tries@[jj].contents()[q] == suf;
                    assert((tries@[jj].contents()[q])[0] == vstar);
                }
                assert(all_keyed(tries@, og, vstar));
                assert((og[amin as int] as int) < tries@.len());
                assert(trie_has_key(tries@[og[amin as int] as int], vstar)) by {
                    assert(trie_has_key(tries@[(og[amin as int]) as int], vstar));
                }
                assert(seq_has(base@, vstar));
                assert(seq_has(interg, vstar)) by {
                    let q = choose|q: int| 0 <= q < base@.len() && base@[q] == vstar;
                }
            }
        }
    }

    /// Evaluates the compiled query against the database's live relation
    /// contents: returns every assignment of values to the global variable
    /// order that simultaneously satisfies all atoms, each exactly once, in
    /// unspecified order.  Fails exactly when some atom names an undeclared
    /// relation.
    #[verifier::loop_isolation(false)]
    pub fn eval(&self, db: &Database) -> (r: Result<Vec<Vec<Value>>, Error>)
        requires
            self.wf(),
            db.wf(),
        ensures
            match r {
                Ok(out) => eval_ok(*db, *self, rows_view(out@)),
                Err(e) => exists|j: int|
                    0 <= j < self.atoms().len() && !db.has_rel((#[trigger] self.atoms()[j]).0) && e
                        == Error::NoSuchRelation(self.atoms()[j].0),
            },
    {
        let ghost av = self.atoms();
        let ghost vs = self.vars();
        let na = self.query.atoms.len();
        // every atom must name a declared relation
        let mut j: usize = 0;
        while j < na
            invariant
                j <= na,
                forall|jj: int| 0 <= jj < j ==> db.has_rel((#[trigger] av[jj]).0),
            decreases na - j,
        {
            proof {
                assert(av[j as int].0 == self.query.atoms@[j as int].relation);
            }
            match db.get_relation(self.query.atoms[j].relation) {
                Ok(_) => {},
                Err(e) => {
                    return Err(e);
                },
            }
            j += 1;
        }
        // build one index per atom from the live rows
        let mut tries: Vec<Trie> = Vec::new();
        let ghost mut rels: Seq<Seq<Seq<Value>>> = Seq::empty();
        let mut j2: usize = 0;
        while j2 < na
            invariant
                j2 <= na,
                rels.len() == j2,
                tries@.len() == j2,
                forall|jj: int| 0 <= jj < na ==> db.has_rel((#[trigger] av[jj]).0),
                forall|jj: int| 0 <= jj < j2 ==> rels[jj] == db.rel_rows((#[trigger] av[jj]).0),
                forall|jj: int|
                    0 <= jj < j2 ==> trie_inv(
                        #[trigger] tries@[jj],
                        rels[jj],
                        av[jj].1,
                        vs,
                        Seq::<Value>::empty(),
                    ),
                forall|jj: int|
                    0 <= jj < j2 && rem_width(av[jj].1, vs, 0) == 0 ==> seq_has(
                        (#[trigger] tries@[jj]).contents(),
                        Seq::<Value>::empty(),
                    ),
            decreases na - j2,
        {
            let ghost terms = av[j2 as int].1;
            proof {
                assert(av[j2 as int].0 == self.query.atoms@[j2 as int].relation);
                assert(terms == self.query.atoms@[j2 as int].terms@);
            }
            let rel = match db.get_relation(self.query.atoms[j2].relation) {
                Ok(rel) => rel,
                Err(e) => {
                    proof {
                        assert(false);
                    }
                    return Err(e);
                },
            };
            let ghost rows = rel.rows();
            let shuffle = build_shuffle(&self.query.atoms[j2].terms, &self.var_order);
            let ghost ps = apos(terms, vs);
            let mut tr = Trie::new();
            let nr = rel.len();
            let mut i: usize = 0;
            proof {
                assert(rows.take(0) =~= Seq::<Seq<Value>>::empty());
            }
            while i < nr
                invariant
                    i <= nr,
                    tr.contents() == build_contents(rows.take(i as int), terms, ps),
                decreases nr - i,
            {
                let t = rel.row_at(i);
                let ghost before = tr.contents();
                proof {
                    assert(rows.take(i + 1 as int).drop_last() =~= rows.take(i as int));
                    assert(rows.take(i + 1 as int).last() == rows[i as int]);
                }
                if fixed_check(t, &self.query.atoms[j2].terms) {
                    proof {
                        assert(t@.len() == terms.len());
                    }
                    let rowp = project(t, &shuffle);
                    tr.push_row(rowp);
                    proof {
                        assert(tr.contents() =~= build_contents(
                            rows.take(i + 1 as int),
                            terms,
                            ps,
                        ));
                    }
                } else {
                    proof {
                        assert(tr.contents() =~= build_contents(
                            rows.take(i + 1 as int),
                            terms,
                            ps,
                        ));
                    }
                }
                i += 1;
            }
            proof {
                assert(rows.take(nr as int) =~= rows);
                lemma_build_contents(rows, terms, ps);
            }
            // an atom with no variables either holds or empties the result
            if shuffle.len() == 0 && tr.len() == 0 {
                proof {
                    assert(apos(terms, vs).len() == 0);
                    assert forall|full: Seq<Value>|
                        full.len() == vs.len() implies !all_rows_sat(
                        query_rels(*db, av),
                        av,
                        vs,
                        full,
                    ) by {
                        lemma_rows_iff(db.rel_rows(av[j2 as int].0), terms, vs, full);
                        assert(query_rels(*db, av)[j2 as int] == db.rel_rows(av[j2 as int].0));
                        if ext_sat(db.rel_rows(av[j2 as int].0), terms, vs, full) {
                            let ii = choose|ii: int|
                                0 <= ii < rows.len() && fixed_match(#[trigger] rows[ii], terms)
                                    && proj(rows[ii], apos(terms, vs)) == avals(terms, vs, full);
                            assert(seq_has(tr.contents(), proj(rows[ii], apos(terms, vs))));
                        }
                    }
                }
                let emp: Vec<Vec<Value>> = Vec::new();
                proof {
                    assert(rows_view(emp@) =~= Seq::<Seq<Value>>::empty());
                }
                return Ok(emp);
            }
            proof {
                rels = rels.push(rows);
                // at depth zero the residuals are exactly the projections
                let tin = tr;
                assert(vs.take(0) =~= Seq::<Variable>::empty());
                assert forall|suf: Seq<Value>| #[trigger] residual(
                    rows,
                    terms,
                    vs,
                    Seq::<Value>::empty(),
                    suf,
                ) == (exists|ii: int|
                    0 <= ii < rows.len() && fixed_match(#[trigger] rows[ii], terms) && proj(
                        rows[ii],
                        apos(terms, vs),
                    ) == suf) by {
                    assert(avals(terms, vs.take(0), Seq::<Value>::empty()) =~= Seq::<
                        Value,
                    >::empty());
                    assert forall|z: Seq<Value>|
                        Seq::<Value>::empty() + z =~= z by {}
                }
                assert forall|p: int|
                    0 <= p < tin.contents().len() implies residual(
                    rows,
                    terms,
                    vs,
                    Seq::<Value>::empty(),
                    #[trigger] tin.contents()[p],
                ) by {}
                assert forall|suf: Seq<Value>|
                    #[trigger] residual(rows, terms, vs, Seq::<Value>::empty(), suf)
                        implies seq_has(tin.contents(), suf) by {
                    let ii = choose|ii: int|
                        0 <= ii < rows.len() && fixed_match(#[trigger] rows[ii], terms) && proj(
                            rows[ii],
                            apos(terms, vs),
                        ) == suf;
                }
                assert(tin.uniform(rem_width(terms, vs, 0))) by {
                    assert(rem_width(terms, vs, 0) == apos(terms, vs).len());
                    assert forall|p: int|
                        0 <= p < tin.contents().len() implies (#[trigger] tin.contents()[p]).len()
                            == apos(terms, vs).len() by {
                        let ii = choose|ii: int|
                            0 <= ii < rows.len() && fixed_match(#[trigger] rows[ii], terms) && (
                            tin.contents()[p]) == proj(rows[ii], apos(terms, vs));
                    }
                }
                if rem_width(terms, vs, 0) == 0 {
                    assert(tin.contents().len() > 0);
                    assert(tin.contents()[0].len() == 0);
                    assert(tin.contents()[0] =~= Seq::<Value>::empty());
                }
            }
            tries.push(tr);
            j2 += 1;
        }
        // run the join from an empty prefix
        let mut out: Vec<Vec<Value>> = Vec::new();
        let mut prefix: Vec<Value> = Vec::new();
        proof {
            assert(rels =~= query_rels(*db, av));
        }
        self.gj_rec(0, &mut prefix, &tries, &mut out, Ghost(rels));
        proof {
            assert forall|p: int|
                0 <= p < out@.len() implies (#[trigger] out@[p])@.len() == vs.len()
                    && all_rows_sat(query_rels(*db, av), av, vs, out@[p]@) by {
                assert(all_ext_sat(rels, av, vs, out@[p]@));
                assert forall|jj: int| 0 <= jj < av.len() implies rows_sat(
                    query_rels(*db, av)[jj],
                    (#[trigger] av[jj]).1,
                    vs,
                    out@[p]@,
                ) by {
                    lemma_rows_iff(rels[jj], av[jj].1, vs, out@[p]@);
                    assert(ext_sat(rels[jj], av[jj].1, vs, out@[p]@));
                }
            }
            assert forall|full: Seq<Value>|
                full.len() == vs.len() && #[trigger] all_rows_sat(
                    query_rels(*db, av),
                    av,
                    vs,
                    full,
                ) implies seq_has(rows_view(out@), full) by {
                assert forall|jj: int| 0 <= jj < av.len() implies ext_sat(
                    rels[jj],
                    (#[trigger] av[jj]).1,
                    vs,
                    full,
                ) by {
                    lemma_rows_iff(rels[jj], av[jj].1, vs, full);
                    assert(rows_sat(query_rels(*db, av)[jj], av[jj].1, vs, full));
                }
                assert(all_ext_sat(rels, av, vs, full));
                assert(full.take(0) =~= Seq::<Value>::empty());
                let p = choose|p: int| 0 <= p < out@.len() && (#[trigger] out@[p])@ == full;
                assert(rows_view(out@)[p] == full);
            }
            assert forall|p1: int, p2: int|
                0 <= p1 < p2 < rows_view(out@).len() implies rows_view(out@)[p1] != rows_view(
                out@,
            )[p2] by {
                assert(out@[p1]@ != out@[p2]@);
            }
            assert forall|p: int|
                0 <= p < rows_view(out@).len() implies (#[trigger] rows_view(out@)[p]).len()
                    == vs.len() && all_rows_sat(
                query_rels(*db, av),
                av,
                vs,
                rows_view(out@)[p],
            ) by {
                assert(rows_view(out@)[p] == out@[p]@);
            }
            assert(eval_ok(*db, *self, rows_view(out@)));
        }
        Ok(out)
    }
}

/// The index contents a build pass over `rows` produces: the projections of
/// the rows that pass the atom's fixed constraints, in order.
pub open spec fn build_contents(rows: Seq<Seq<Value>>, terms: Seq<Term>, ps: Seq<int>) -> Seq<
    Seq<Value>,
>
    decreases rows.len(),
{
    if rows.len() == 0 {
        Seq::empty()
    } else {
        build_contents(rows.drop_last(), terms, ps) + (if fixed_match(rows.last(), terms) {
            seq![proj(rows.last(), ps)]
        } else {
            Seq::<Seq<Value>>::empty()
        })
    }
}

/// What the built index holds: exactly the projections of the fixed-matching
/// rows, all of the projection's width.
pub proof fn lemma_build_contents(rows: Seq<Seq<Value>>, terms: Seq<Term>, ps: Seq<int>)
    ensures
        forall|p: int|
            0 <= p < build_contents(rows, terms, ps).len() ==> (#[trigger] build_contents(
                rows,
                terms,
                ps,
            )[p]).len() == ps.len() && exists|ii: int|
                0 <= ii < rows.len() && fixed_match(#[trigger] rows[ii], terms)
                    && build_contents(rows, terms, ps)[p] == proj(rows[ii], ps),
        forall|ii: int|
            0 <= ii < rows.len() && fixed_match(#[trigger] rows[ii], terms) ==> seq_has(
                build_contents(rows, terms, ps),
                proj(rows[ii], ps),
            ),
    decreases rows.len(),
{
    if rows.len() > 0 {
        lemma_build_contents(rows.drop_last(), terms, ps);
        assert forall|p: int|
            0 <= p < build_contents(rows, terms, ps).len() implies (#[trigger] build_contents(
            rows,
            terms,
            ps,
        )[p]).len() == ps.len() && exists|ii: int|
            0 <= ii < rows.len() && fixed_match(#[trigger] rows[ii], terms) && build_contents(
                rows,
                terms,
                ps,
            )[p] == proj(rows[ii], ps) by {
            if p < build_contents(rows.drop_last(), terms, ps).len() {
                assert(build_contents(rows, terms, ps)[p] == build_contents(
                    rows.drop_last(),
                    terms,
                    ps,
                )[p]);
                let ii = choose|ii: int|
                    0 <= ii < rows.drop_last().len() && fixed_match(
                        #[trigger] rows.drop_last()[ii],
                        terms,
                    ) && build_contents(rows.drop_last(), terms, ps)[p] == proj(
                        rows.drop_last()[ii],
                        ps,
                    );
                assert(rows[ii] == rows.drop_last()[ii]);
                assert(fixed_match(rows[ii], terms) && build_contents(rows, terms, ps)[p] == proj(
                    rows[ii],
                    ps,
                ));
            } else {
                assert(fixed_match(rows.last(), terms));
                assert(build_contents(rows, terms, ps)[p] == proj(rows.last(), ps));
                let ii = rows.len() - 1;
                assert(fixed_match(rows[ii], terms) && build_contents(rows, terms, ps)[p] == proj(
                    rows[ii],
                    ps,
                ));
            }
        }
        assert forall|ii: int|
            0 <= ii < rows.len() && fixed_match(#[trigger] rows[ii], terms) implies seq_has(
            build_contents(rows, terms, ps),
            proj(rows[ii], ps),
        ) by {
            if ii < rows.len() - 1 {
                assert(rows.drop_last()[ii] == rows[ii]);
                assert(seq_has(build_contents(rows.drop_last(), terms, ps), proj(rows[ii], ps)));
                let p = choose|p: int|
                    0 <= p < build_contents(rows.drop_last(), terms, ps).len() && build_contents(
                        rows.drop_last(),
                        terms,
                        ps,
                    )[p] == proj(rows[ii], ps);
                assert(build_contents(rows, terms, ps)[p] == proj(rows[ii], ps));
            } else {
                assert(build_contents(rows, terms, ps)[build_contents(rows, terms, ps).len() - 1]
                    == proj(rows.last(), ps));
            }
        }
    }
}

/// What a successful evaluation returns: every satisfying full assignment,
/// each exactly once, every atom's relation declared.
pub open spec fn eval_ok(db: Database, q: CompiledQuery, out: Seq<Seq<Value>>) -> bool {
    &&& forall|j: int| 0 <= j < q.atoms().len() ==> db.has_rel((#[trigger] q.atoms()[j]).0)
    &&& forall|p: int|
        0 <= p < out.len() ==> (#[trigger] out[p]).len() == q.vars().len() && all_rows_sat(
            query_rels(db, q.atoms()),
            q.atoms(),
            q.vars(),
            out[p],
        )
    &&& forall|full: Seq<Value>|
        full.len() == q.vars().len() && #[trigger] all_rows_sat(
            query_rels(db, q.atoms()),
            q.atoms(),
            q.vars(),
            full,
        ) ==> seq_has(out, full)
    &&& forall|p1: int, p2: int| 0 <= p1 < p2 < out.len() ==> out[p1] != out[p2]
}

/// The live rows of each atom's relation, in atom order.
pub open spec fn query_rels(db: Database, atoms: Seq<(Symbol, Seq<Term>)>) -> Seq<Seq<Seq<Value>>> {
    atoms.map(|_i: int, a: (Symbol, Seq<Term>)| db.rel_rows(a.0))
}

/// Whether every atom listed in `occ` has a residual row headed by `v`.
pub(in crate::db) open spec fn all_keyed(tries: Seq<Trie>, occ: Seq<usize>, v: Value) -> bool {
    forall|a: int| 0 <= a < occ.len() ==> trie_has_key(tries[(#[trigger] occ[a]) as int], v)
}

/// Every intersection value up to `t` is keyed in every mentioning atom.
pub(in crate::db) open spec fn all_keyed_from_inter(tries: Seq<Trie>, occ: Seq<usize>, inter: Seq<Value>, t: int) -> bool {
    0 <= t < inter.len() && all_keyed(tries, occ, inter[t])
}

/// The views of a vector of occurrence lists.
pub open spec fn occs_view(os: Seq<Vec<usize>>) -> Seq<Seq<usize>> {
    os.map(|_i: int, o: Vec<usize>| o@)
}

/// Where `x` stands in `keys`, if anywhere.
fn find_sym(keys: &Vec<Variable>, x: Variable) -> (r: Option<usize>)
    ensures
        match r {
            Some(p) => 0 <= p < keys@.len() && keys@[p as int] == x,
            None => !seq_has(keys@, x),
        },
{
    let n = keys.len();
    let mut i: usize = 0;
    while i < n
        invariant
            i <= n,
            n == keys@.len(),
            forall|k: int| 0 <= k < i ==> keys@[k] != x,
        decreases n - i,
    {
        if keys[i] == x {
            return Some(i);
        }
        i += 1;
    }
    None
}

/// The projected positions and projected values of one atom have equal
/// length.
pub proof fn lemma_alen(terms: Seq<Term>, vars: Seq<Variable>, vals: Seq<Value>)
    requires
        vals.len() == vars.len(),
    ensures
        apos(terms, vars).len() == avals(terms, vars, vals).len(),
    decreases vars.len(),
{
    if vars.len() > 0 {
        lemma_alen(terms, vars.drop_last(), vals.drop_last());
    }
}

/// Equal concatenations with equally long left parts split into equal parts.
pub proof fn lemma_concat_split<A>(a: Seq<A>, b: Seq<A>, c: Seq<A>, d: Seq<A>)
    requires
        a + b == c + d,
        a.len() == c.len(),
    ensures
        a == c,
        b == d,
{
    assert((a + b).len() == a.len() + b.len());
    assert((c + d).len() == c.len() + d.len());
    assert((a + b).len() == (c + d).len());
    assert(b.len() == d.len());
    assert forall|i: int| 0 <= i < a.len() implies a[i] == c[i] by {
        assert((a + b)[i] == a[i]);
        assert((c + d)[i] == c[i]);
    }
    assert(a =~= c);
    assert forall|i: int| 0 <= i < b.len() implies b[i] == d[i] by {
        assert((a + b)[a.len() + i] == b[i]);
        assert((c + d)[c.len() + i] == d[i]);
    }
    assert(b =~= d);
}

/// Pointwise agreement on first occurrences gives equal projections.
pub proof fn lemma_proj_avals(t: Seq<Value>, terms: Seq<Term>, vars: Seq<Variable>, vals: Seq<Value>)
    requires
        vals.len() == vars.len(),
        forall|d: int|
            0 <= d < vars.len() && terms_have_var(terms, #[trigger] vars[d]) ==> t[vpos(
                terms,
                vars[d],
            )] == vals[d],
    ensures
        proj(t, apos(terms, vars)) == avals(terms, vars, vals),
    decreases vars.len(),
{
    if vars.len() == 0 {
        assert(proj(t, apos(terms, vars)) =~= avals(terms, vars, vals));
    } else {
        let vs = vars.drop_last();
        let ws = vals.drop_last();
        assert(forall|d: int|
            0 <= d < vs.len() && terms_have_var(terms, #[trigger] vs[d]) ==> t[vpos(terms, vs[d])]
                == vals[d]);
        lemma_proj_avals(t, terms, vs, ws);
        if terms_have_var(terms, vars.last()) {
            assert(t[vpos(terms, vars.last())] == vals[vals.len() - 1]);
            assert(proj(t, apos(terms, vars)) =~= proj(t, apos(terms, vs)) + seq![
                t[vpos(terms, vars.last())],
            ]);
            assert(avals(terms, vars, vals) == avals(terms, vs, ws) + seq![
                vals[vals.len() - 1],
            ]);
        } else {
            assert(proj(t, apos(terms, vars)) =~= proj(t, apos(terms, vs)));
            assert(avals(terms, vars, vals) == avals(terms, vs, ws));
        }
    }
}

/// Equal projections force pointwise agreement on first occurrences.
pub proof fn lemma_avals_pointwise(
    t: Seq<Value>,
    terms: Seq<Term>,
    vars: Seq<Variable>,
    vals: Seq<Value>,
)
    requires
        vals.len() == vars.len(),
        proj(t, apos(terms, vars)) == avals(terms, vars, vals),
    ensures
        forall|d: int|
            0 <= d < vars.len() && terms_have_var(terms, #[trigger] vars[d]) ==> t[vpos(
                terms,
                vars[d],
            )] == vals[d],
    decreases vars.len(),
{
    if vars.len() > 0 {
        let vs = vars.drop_last();
        let ws = vals.drop_last();
        lemma_alen(terms, vs, ws);
        if terms_have_var(terms, vars.last()) {
            assert(proj(t, apos(terms, vars)) =~= proj(t, apos(terms, vs)) + seq![
                t[vpos(terms, vars.last())],
            ]);
            lemma_concat_split(
                proj(t, apos(terms, vs)),
                seq![t[vpos(terms, vars.last())]],
                avals(terms, vs, ws),
                seq![vals[vals.len() - 1]],
            );
            assert(seq![t[vpos(terms, vars.last())]][0] == seq![vals[vals.len() - 1]][0]);
            assert(t[vpos(terms, vars.last())] == vals[vals.len() - 1]);
        } else {
            assert(proj(t, apos(terms, vars)) =~= proj(t, apos(terms, vs)));
        }
        lemma_avals_pointwise(t, terms, vs, ws);
        assert forall|d: int|
            0 <= d < vars.len() && terms_have_var(terms, #[trigger] vars[d]) implies t[vpos(
            terms,
            vars[d],
        )] == vals[d] by {
            if d < vars.len() - 1 {
                assert(vs[d] == vars[d]);
                assert(ws[d] == vals[d]);
            }
        }
    }
}

/// A tuple satisfies an atom under an assignment exactly when it passes the
/// atom's fixed constraints and projects onto the assignment's values.
pub proof fn lemma_tuple_iff(t: Seq<Value>, terms: Seq<Term>, vars: Seq<Variable>, vals: Seq<Value>)
    requires
        distinct_syms(vars),
        vars_cover_terms(vars, terms),
        vals.len() == vars.len(),
    ensures
        tuple_matches(t, terms, vars, vals) == (fixed_match(t, terms) && proj(
            t,
            apos(terms, vars),
        ) == avals(terms, vars, vals)),
{
    if tuple_matches(t, terms, vars, vals) {
        assert forall|k: int| 0 <= k < terms.len() implies match #[trigger] terms[k] {
            Term::Value(c) => t[k] == c,
            Term::Variable(x) => t[k] == t[vpos(terms, x)],
        } by {
            match terms[k] {
                Term::Variable(x) => {
                    assert(terms_have_var(terms, x)) by {
                        assert(terms[k] == Term::Variable(x));
                    }
                    lemma_vpos(terms, x);
                    let p = vpos(terms, x);
                    assert(term_matches(terms[k], t[k], vars, vals));
                    assert(term_matches(terms[p], t[p], vars, vals));
                    let i1 = choose|i: int|
                        0 <= i < vars.len() && vars[i] == x && vals[i] == t[k];
                    let i2 = choose|i: int|
                        0 <= i < vars.len() && vars[i] == x && vals[i] == t[p];
                    if i1 < i2 {
                        assert(vars[i1] != vars[i2]);
                    } else if i2 < i1 {
                        assert(vars[i2] != vars[i1]);
                    }
                },
                Term::Value(c) => {
                    assert(term_matches(terms[k], t[k], vars, vals));
                },
            }
        }
        assert(fixed_match(t, terms));
        assert forall|d: int|
            0 <= d < vars.len() && terms_have_var(terms, #[trigger] vars[d]) implies t[vpos(
            terms,
            vars[d],
        )] == vals[d] by {
            let x = vars[d];
            lemma_vpos(terms, x);
            let p = vpos(terms, x);
            assert(term_matches(terms[p], t[p], vars, vals));
            let i1 = choose|i: int| 0 <= i < vars.len() && vars[i] == x && vals[i] == t[p];
            if i1 < d {
                assert(vars[i1] != vars[d]);
            } else if d < i1 {
                assert(vars[d] != vars[i1]);
            }
        }
        lemma_proj_avals(t, terms, vars, vals);
    }
    if fixed_match(t, terms) && proj(t, apos(terms, vars)) == avals(terms, vars, vals) {
        lemma_avals_pointwise(t, terms, vars, vals);
        assert forall|k: int|
            0 <= k < terms.len() implies term_matches(#[trigger] terms[k], t[k], vars, vals) by {
            match terms[k] {
                Term::Variable(x) => {
                    assert(vars.contains(x));
                    let d = choose|d: int| 0 <= d < vars.len() && vars[d] == x;
                    assert(terms_have_var(terms, x)) by {
                        assert(terms[k] == Term::Variable(x));
                    }
                    assert(t[vpos(terms, vars[d])] == vals[d]);
                    assert(t[k] == t[vpos(terms, x)]);
                    assert(0 <= d < vars.len() && vars[d] == x && vals[d] == t[k]);
                },
                Term::Value(_) => {},
            }
        }
        assert(tuple_matches(t, terms, vars, vals));
    }
}

/// Extending the bound range by one variable extends the projected positions
/// by that variable's slot, when the atom mentions it.
pub proof fn lemma_apos_step(terms: Seq<Term>, vars: Seq<Variable>, d: int)
    requires
        0 <= d < vars.len(),
    ensures
        terms_have_var(terms, vars[d]) ==> apos(terms, vars.take(d + 1)) == apos(
            terms,
            vars.take(d),
        ) + seq![vpos(terms, vars[d])],
        !terms_have_var(terms, vars[d]) ==> apos(terms, vars.take(d + 1)) == apos(
            terms,
            vars.take(d),
        ),
{
    assert(vars.take(d + 1).drop_last() =~= vars.take(d));
    assert(vars.take(d + 1).last() == vars[d]);
    if terms_have_var(terms, vars[d]) {
        assert(apos(terms, vars.take(d + 1)) == apos(terms, vars.take(d + 1).drop_last()) + seq![
            vpos(terms, vars.take(d + 1).last()),
        ]);
    } else {
        assert(apos(terms, vars.take(d + 1)) =~= apos(terms, vars.take(d + 1).drop_last()));
    }
}

/// The same, for the projected values of an assignment one value longer.
pub proof fn lemma_avals_step(
    terms: Seq<Term>,
    vars: Seq<Variable>,
    d: int,
    prefix: Seq<Value>,
    v: Value,
)
    requires
        0 <= d < vars.len(),
        prefix.len() == d,
    ensures
        terms_have_var(terms, vars[d]) ==> avals(terms, vars.take(d + 1), prefix.push(v)) == avals(
            terms,
            vars.take(d),
            prefix,
        ) + seq![v],
        !terms_have_var(terms, vars[d]) ==> avals(terms, vars.take(d + 1), prefix.push(v)) == avals(
            terms,
            vars.take(d),
            prefix,
        ),
{
    assert(vars.take(d + 1).drop_last() =~= vars.take(d));
    assert(prefix.push(v).drop_last() =~= prefix);
    assert(vars.take(d + 1).last() == vars[d]);
    assert(prefix.push(v)[prefix.push(v).len() - 1] == v);
    if !terms_have_var(terms, vars[d]) {
        assert(avals(terms, vars.take(d + 1), prefix.push(v)) =~= avals(
            terms,
            vars.take(d + 1).drop_last(),
            prefix.push(v).drop_last(),
        ));
    }
}

/// Bound projections extend as the bound range grows.
pub proof fn lemma_avals_prefix(terms: Seq<Term>, vars: Seq<Variable>, vals: Seq<Value>, d: int)
    requires
        vals.len() == vars.len(),
        0 <= d <= vars.len(),
    ensures
        avals(terms, vars.take(d), vals.take(d)).is_prefix_of(avals(terms, vars, vals)),
        apos(terms, vars.take(d)).is_prefix_of(apos(terms, vars)),
        avals(terms, vars.take(d), vals.take(d)).len() == apos(terms, vars.take(d)).len(),
    decreases vars.len() - d,
{
    lemma_alen(terms, vars.take(d), vals.take(d));
    if d == vars.len() {
        assert(vars.take(d) =~= vars);
        assert(vals.take(d) =~= vals);
    } else {
        lemma_avals_prefix(terms, vars, vals, d + 1);
        lemma_apos_step(terms, vars, d);
        assert(vals.take(d + 1) =~= vals.take(d).push(vals[d]));
        lemma_avals_step(terms, vars, d, vals.take(d), vals[d]);
    }
}

/// A sequence of positions as mathematical integers.
pub open spec fn usizes(s: Seq<usize>) -> Seq<int> {
    s.map(|_i: int, u: usize| u as int)
}

/// Whether some residual row of `t` starts with `v`.
pub(in crate::db) open spec fn trie_has_key(t: Trie, v: Value) -> bool {
    exists|i: int| 0 <= i < t.contents().len() && (#[trigger] t.contents()[i])[0] == v
}

/// One atom's satisfaction, stated over projections: some stored row passes
/// the atom's fixed constraints and projects onto the assignment's values.
pub open spec fn ext_sat(
    rows: Seq<Seq<Value>>,
    terms: Seq<Term>,
    vars: Seq<Variable>,
    vals: Seq<Value>,
) -> bool {
    exists|i: int|
        0 <= i < rows.len() && fixed_match(#[trigger] rows[i], terms) && proj(
            rows[i],
            apos(terms, vars),
        ) == avals(terms, vars, vals)
}

/// Every atom satisfied, in projection form.
pub open spec fn all_ext_sat(
    rels: Seq<Seq<Seq<Value>>>,
    atoms: Seq<(Symbol, Seq<Term>)>,
    vars: Seq<Variable>,
    vals: Seq<Value>,
) -> bool {
    forall|j: int| 0 <= j < atoms.len() ==> ext_sat(rels[j], (#[trigger] atoms[j]).1, vars, vals)
}

/// Every atom satisfied, in term form, against live relation contents.
pub open spec fn all_rows_sat(
    rels: Seq<Seq<Seq<Value>>>,
    atoms: Seq<(Symbol, Seq<Term>)>,
    vars: Seq<Variable>,
    vals: Seq<Value>,
) -> bool {
    forall|j: int| 0 <= j < atoms.len() ==> rows_sat(rels[j], (#[trigger] atoms[j]).1, vars, vals)
}

/// The two satisfaction forms agree when the variable order is distinct and
/// covers the atom.
pub proof fn lemma_rows_iff(
    rows: Seq<Seq<Value>>,
    terms: Seq<Term>,
    vars: Seq<Variable>,
    vals: Seq<Value>,
)
    requires
        distinct_syms(vars),
        vars_cover_terms(vars, terms),
        vals.len() == vars.len(),
    ensures
        rows_sat(rows, terms, vars, vals) == ext_sat(rows, terms, vars, vals),
{
    if rows_sat(rows, terms, vars, vals) {
        let i = choose|i: int| 0 <= i < rows.len() && tuple_matches(rows[i], terms, vars, vals);
        lemma_tuple_iff(rows[i], terms, vars, vals);
        assert(fixed_match(rows[i], terms) && proj(rows[i], apos(terms, vars)) == avals(
            terms,
            vars,
            vals,
        ));
    }
    if ext_sat(rows, terms, vars, vals) {
        let i = choose|i: int|
            0 <= i < rows.len() && fixed_match(#[trigger] rows[i], terms) && proj(
                rows[i],
                apos(terms, vars),
            ) == avals(terms, vars, vals);
        lemma_tuple_iff(rows[i], terms, vars, vals);
        assert(tuple_matches(rows[i], terms, vars, vals));
    }
}

/// The residual-suffix predicate an atom's trie realizes at one join depth:
/// `suf` completes the bound values of `prefix` to the projection of some
/// stored row passing the atom's fixed constraints.
pub open spec fn residual(
    rows: Seq<Seq<Value>>,
    terms: Seq<Term>,
    vars: Seq<Variable>,
    prefix: Seq<Value>,
    suf: Seq<Value>,
) -> bool {
    exists|i: int|
        0 <= i < rows.len() && fixed_match(#[trigger] rows[i], terms) && proj(
            rows[i],
            apos(terms, vars),
        ) == avals(terms, vars.take(prefix.len() as int), prefix) + suf
}

/// How many of an atom's projected positions are still unbound at depth `d`.
pub open spec fn rem_width(terms: Seq<Term>, vars: Seq<Variable>, d: int) -> int {
    apos(terms, vars).len() - apos(terms, vars.take(d)).len()
}

/// The join invariant for one atom's trie at one depth: its residual rows are
/// exactly the suffixes the relation still allows, all of the remaining
/// width.
pub(in crate::db) open spec fn trie_inv(
    t: Trie,
    rows: Seq<Seq<Value>>,
    terms: Seq<Term>,
    vars: Seq<Variable>,
    prefix: Seq<Value>,
) -> bool {
    &&& forall|p: int|
        0 <= p < t.contents().len() ==> residual(
            rows,
            terms,
            vars,
            prefix,
            #[trigger] t.contents()[p],
        )
    &&& forall|suf: Seq<Value>|
        #[trigger] residual(rows, terms, vars, prefix, suf) ==> seq_has(t.contents(), suf)
    &&& t.uniform(rem_width(terms, vars, prefix.len() as int))
}

/// Bound positions only accumulate as the depth grows.
pub proof fn lemma_apos_prefix(terms: Seq<Term>, vars: Seq<Variable>, d: int)
    requires
        0 <= d <= vars.len(),
    ensures
        apos(terms, vars.take(d)).is_prefix_of(apos(terms, vars)),
    decreases vars.len() - d,
{
    if d == vars.len() {
        assert(vars.take(d) =~= vars);
    } else {
        lemma_apos_prefix(terms, vars, d + 1);
        lemma_apos_step(terms, vars, d);
    }
}

/// The first position of `x`, found by a forward scan.
fn vpos_exec(terms: &Vec<Term>, x: Variable) -> (r: Option<usize>)
    ensures
        match r {
            Some(p) => terms_have_var(terms@, x) && 0 <= p < terms@.len() && p as int == vpos(
                terms@,
                x,
            ),
            None => !terms_have_var(terms@, x),
        },
{
    let n = terms.len();
    let mut k: usize = 0;
    while k < n
        invariant
            k <= n,
            n == terms@.len(),
            forall|q: int| 0 <= q < k ==> terms@[q] != Term::Variable(x),
        decreases n - k,
    {
        let hit = match &terms[k] {
            Term::Variable(w) => *w == x,
            Term::Value(_) => false,
        };
        if hit {
            proof {
                assert(terms@[k as int] == Term::Variable(x));
                lemma_vpos_first(terms@, x, k as int);
            }
            return Some(k);
        }
        k += 1;
    }
    None
}

/// A first occurrence found by scanning is the spec-level first occurrence.
pub proof fn lemma_vpos_first(terms: Seq<Term>, x: Variable, k: int)
    requires
        0 <= k < terms.len(),
        terms[k] == Term::Variable(x),
        forall|q: int| 0 <= q < k ==> terms[q] != Term::Variable(x),
    ensures
        vpos(terms, x) == k,
    decreases k,
{
    if k == 0 {
    } else {
        assert(terms[0] != Term::Variable(x));
        let ts = terms.skip(1);
        assert(ts[k - 1] == terms[k]);
        assert(forall|q: int| 0 <= q < k - 1 ==> ts[q] == terms[q + 1]);
        lemma_vpos_first(ts, x, k - 1);
    }
}

/// Whether `t` meets the atom's per-tuple constraints: right width, constants
/// in place, repeated variables equal.
fn fixed_check(t: &Vec<Value>, terms: &Vec<Term>) -> (r: bool)
    ensures
        r == fixed_match(t@, terms@),
{
    let n = terms.len();
    if t.len() != n {
        return false;
    }
    let mut k: usize = 0;
    while k < n
        invariant
            k <= n,
            n == terms@.len(),
            t@.len() == n,
            forall|q: int|
                0 <= q < k ==> match #[trigger] terms@[q] {
                    Term::Value(c) => t@[q] == c,
                    Term::Variable(x) => t@[q] == t@[vpos(terms@, x)],
                },
        decreases n - k,
    {
        match &terms[k] {
            Term::Value(c) => {
                if t[k].0 != c.0 {
                    proof {
                        assert(t@[k as int] != *c);
                    }
                    return false;
                }
            },
            Term::Variable(x) => {
                proof {
                    assert(terms@[k as int] == Term::Variable(*x));
                }
                let p = match vpos_exec(terms, *x) {
                    Some(p) => p,
                    None => {
                        proof {
                            assert(false);
                        }
                        0
                    },
                };
                if t[k].0 != t[p].0 {
                    proof {
                        assert(t@[k as int] != t@[vpos(terms@, *x)]);
                    }
                    return false;
                }
            },
        }
        k += 1;
    }
    true
}

/// The positions of the atom's variables in global order: the shuffle the
/// trie is built along.
fn build_shuffle(terms: &Vec<Term>, var_order: &Vec<Variable>) -> (r: Vec<usize>)
    ensures
        usizes(r@) == apos(terms@, var_order@),
        forall|a: int| 0 <= a < r@.len() ==> (#[trigger] r@[a]) < terms@.len(),
{
    let nv = var_order.len();
    let mut r: Vec<usize> = Vec::new();
    let mut d: usize = 0;
    while d < nv
        invariant
            d <= nv,
            nv == var_order@.len(),
            usizes(r@) == apos(terms@, var_order@.take(d as int)),
            forall|a: int| 0 <= a < r@.len() ==> (#[trigger] r@[a]) < terms@.len(),
        decreases nv - d,
    {
        let x = var_order[d];
        let ghost before = r@;
        match vpos_exec(terms, x) {
            Some(p) => {
                r.push(p);
                proof {
                    assert(usizes(r@) =~= usizes(before).push(p as int));
                }
            },
            None => {},
        }
        proof {
            lemma_apos_step(terms@, var_order@, d as int);
            assert(var_order@.take(d + 1 as int)[d as int] == var_order@[d as int]);
            if terms_have_var(terms@, var_order@[d as int]) {
                assert(usizes(r@) =~= apos(terms@, var_order@.take(d + 1 as int)));
            } else {
                assert(usizes(r@) =~= apos(terms@, var_order@.take(d + 1 as int)));
            }
        }
        d += 1;
    }
    proof {
        assert(var_order@.take(nv as int) =~= var_order@);
    }
    r
}

/// `t` projected onto the shuffle positions.
fn project(t: &Vec<Value>, shuffle: &Vec<usize>) -> (r: Vec<Value>)
    requires
        forall|a: int| 0 <= a < shuffle@.len() ==> (#[trigger] shuffle@[a]) < t@.len(),
    ensures
        r@ == proj(t@, usizes(shuffle@)),
{
    let n = shuffle.len();
    let mut r: Vec<Value> = Vec::new();
    let mut a: usize = 0;
    while a < n
        invariant
            a <= n,
            n == shuffle@.len(),
            forall|q: int| 0 <= q < n ==> (#[trigger] shuffle@[q]) < t@.len(),
            r@ =~= proj(t@, usizes(shuffle@)).take(a as int),
        decreases n - a,
    {
        r.push(t[shuffle[a]]);
        proof {
            assert(proj(t@, usizes(shuffle@))[a as int] == t@[shuffle@[a as int] as int]);
            assert(r@ =~= proj(t@, usizes(shuffle@)).take(a + 1 as int));
        }
        a += 1;
    }
    proof {
        assert(proj(t@, usizes(shuffle@)).take(n as int) =~= proj(t@, usizes(shuffle@)));
    }
    r
}

} // verus!
