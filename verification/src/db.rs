//! Relation storage and the query registry.
//!
//! A [`Relation`] is a deduplicating, insertion-ordered set of fixed-width
//! value tuples.  A [`Database`] owns named relations and compiled queries
//! behind opaque handles.

pub mod gj;

use vstd::prelude::*;

pub use gj::CompiledQuery;

use crate::ast::{Error, Query, Type, Value};
use crate::util::Symbol;
use crate::ast::atoms_view;
use gj::{eval_ok, rows_view, seq_has};

verus! {

/// Inserting into a deduplicating tuple set: a no-op when the tuple is
/// already there, an append otherwise.
pub open spec fn spec_insert(rows: Seq<Seq<Value>>, t: Seq<Value>) -> Seq<Seq<Value>> {
    if seq_has(rows, t) {
        rows
    } else {
        rows.push(t)
    }
}

/// [`spec_insert`] applied to each `w`-wide chunk of `flat`, front to back.
pub open spec fn spec_insert_chunks(rows: Seq<Seq<Value>>, flat: Seq<Value>, w: int) -> Seq<
    Seq<Value>,
>
    decreases flat.len(),
{
    if flat.len() == 0 || w < 1 || flat.len() < w {
        rows
    } else {
        spec_insert_chunks(spec_insert(rows, flat.take(w)), flat.skip(w), w)
    }
}

/// [`spec_insert`] applied to each listed tuple, front to back.
pub open spec fn spec_insert_seq(rows: Seq<Seq<Value>>, ts: Seq<Seq<Value>>) -> Seq<Seq<Value>>
    decreases ts.len(),
{
    if ts.len() == 0 {
        rows
    } else {
        spec_insert_seq(spec_insert(rows, ts[0]), ts.skip(1))
    }
}

/// The constants a list of typed values stands for.
pub open spec fn row_of_values<V: Type>(a: Seq<V>) -> Seq<Value> {
    a.map(|_i: int, v: V| v.value_of())
}

/// The constant tuples a list of fixed-size arrays stands for.
pub open spec fn rows_of_arrays<V: Type, const N: usize>(ts: Seq<[V; N]>) -> Seq<Seq<Value>> {
    ts.map(|_i: int, t: [V; N]| row_of_values(t@))
}

/// A named relation's stored data: a set of tuples, all of one fixed width,
/// kept in insertion order without duplicates.  It only ever grows.
pub struct Relation {
    arity: usize,
    tuples: Vec<Vec<Value>>,
}

impl Relation {
    /// The stored tuples, in insertion order.
    pub closed spec fn rows(self) -> Seq<Seq<Value>> {
        rows_view(self.tuples@)
    }

    /// The fixed tuple width.
    pub closed spec fn width(self) -> int {
        self.arity as int
    }

    /// Every tuple has the relation's width and no tuple is stored twice.
    pub open spec fn wf(self) -> bool {
        &&& forall|i: int|
            0 <= i < self.rows().len() ==> (#[trigger] self.rows()[i]).len() == self.width()
        &&& forall|i: int, j: int|
            0 <= i < j < self.rows().len() ==> self.rows()[i] != self.rows()[j]
    }

    /// An empty relation of the given arity.
    pub fn new(arity: usize) -> (r: Relation)
        ensures
            r.wf(),
            r.rows().len() == 0,
            r.width() == arity,
    {
        Relation { arity, tuples: Vec::new() }
    }

    /// The arity fixed at creation.
    pub fn arity(&self) -> (r: usize)
        ensures
            r == self.width(),
    {
        self.arity
    }

    /// One stored tuple, by position.
    pub fn row_at(&self, i: usize) -> (r: &Vec<Value>)
        requires
            i < self.rows().len(),
        ensures
            r@ == self.rows()[i as int],
    {
        &self.tuples[i]
    }

    /// How many distinct tuples are stored.
    pub fn len(&self) -> (r: usize)
        ensures
            r == self.rows().len(),
    {
        self.tuples.len()
    }

    /// Whether `tuple` is stored.
    pub fn contains(&self, tuple: &[Value]) -> (r: bool)
        ensures
            r == seq_has(self.rows(), tuple@),
    {
        let n = self.tuples.len();
        let mut i: usize = 0;
        while i < n
            invariant
                i <= n,
                n == self.rows().len(),
                forall|k: int| 0 <= k < i ==> (#[trigger] self.rows()[k]) != tuple@,
            decreases n - i,
        {
            if row_eq(&self.tuples[i], tuple) {
                proof {
                    assert(self.rows()[i as int] == tuple@);
                }
                return true;
            }
            i += 1;
        }
        false
    }

    /// Inserts `tuple`; a duplicate leaves the relation exactly as it was.
    pub fn insert(&mut self, tuple: &[Value])
        requires
            old(self).wf(),
            tuple@.len() == old(self).width(),
        ensures
            final(self).wf(),
            final(self).width() == old(self).width(),
            final(self).rows() == spec_insert(old(self).rows(), tuple@),
    {
        if !self.contains(tuple) {
            let mut copy: Vec<Value> = Vec::new();
            let w = tuple.len();
            let mut k: usize = 0;
            while k < w
                invariant
                    k <= w,
                    w == tuple@.len(),
                    copy@ =~= tuple@.subrange(0, k as int),
                decreases w - k,
            {
                copy.push(tuple[k]);
                proof {
                    assert(copy@ =~= tuple@.subrange(0, k + 1 as int));
                }
                k += 1;
            }
            proof {
                assert(copy@ =~= tuple@);
            }
            self.tuples.push(copy);
            proof {
                assert(self.rows() =~= old(self).rows().push(tuple@));
            }
        }
    }

    /// Inserts every `width`-wide chunk of the flat buffer `flat`.
    pub fn insert_many(&mut self, flat: &[Value])
        requires
            old(self).wf(),
            old(self).width() >= 1,
            flat@.len() as int % old(self).width() == 0,
        ensures
            final(self).wf(),
            final(self).width() == old(self).width(),
            final(self).rows() == spec_insert_chunks(old(self).rows(), flat@, old(self).width()),
    {
        let w = self.arity;
        let n = flat.len();
        let mut off: usize = 0;
        proof {
            assert(flat@.skip(0) =~= flat@);
        }
        while off < n
            invariant
                off <= n,
                n == flat@.len(),
                off % w == 0,
                n % w == 0,
                w >= 1,
                w == self.width(),
                self.wf(),
                spec_insert_chunks(old(self).rows(), flat@, w as int) == spec_insert_chunks(
                    self.rows(),
                    flat@.skip(off as int),
                    w as int,
                ),
            decreases n - off,
        {
            proof {
                assert(off + w <= n) by (nonlinear_arith)
                    requires
                        off % w == 0,
                        n % w == 0,
                        off < n,
                        w >= 1,
                        off >= 0,
                        n >= 0,
                ;
            }
            let chunk = vstd::slice::slice_subrange(flat, off, off + w);
            let ghost prev = self.rows();
            self.insert(chunk);
            proof {
                assert(flat@.skip(off as int).take(w as int) =~= chunk@);
                assert(flat@.skip(off as int).skip(w as int) =~= flat@.skip(off + w as int));
                assert(spec_insert_chunks(prev, flat@.skip(off as int), w as int)
                    == spec_insert_chunks(self.rows(), flat@.skip(off + w as int), w as int));
                assert((off + w) as int % w as int == 0) by (nonlinear_arith)
                    requires
                        off % w == 0,
                        w >= 1,
                        off >= 0,
                ;
            }
            off += w;
        }
        proof {
            assert(flat@.skip(n as int) =~= Seq::<Value>::empty());
        }
    }

    /// Converts each fixed-size array through [`Type::to_value`] and
    /// set-inserts it, front to back: afterwards the relation holds exactly
    /// its old tuples followed by the new distinct converted tuples.
    #[verifier::loop_isolation(false)]
    pub fn insert_arrays<V: Type + Copy, const N: usize>(&mut self, tuples: &[[V; N]])
        requires
            old(self).wf(),
            old(self).width() == N,
        ensures
            final(self).wf(),
            final(self).width() == old(self).width(),
            final(self).rows() == spec_insert_seq(old(self).rows(), rows_of_arrays(tuples@)),
    {
        let ghost all = rows_of_arrays(tuples@);
        let n = tuples.len();
        let mut i: usize = 0;
        proof {
            assert(all.skip(0) =~= all);
        }
        while i < n
            invariant
                i <= n,
                n == all.len(),
                self.wf(),
                self.width() == old(self).width(),
                spec_insert_seq(old(self).rows(), all) == spec_insert_seq(
                    self.rows(),
                    all.skip(i as int),
                ),
            decreases n - i,
        {
            let arr = &tuples[i];
            let mut row: Vec<Value> = Vec::new();
            let mut k: usize = 0;
            while k < N
                invariant
                    k <= N,
                    row@ =~= row_of_values(arr@).subrange(0, k as int),
                decreases N - k,
            {
                row.push(arr[k].to_value());
                proof {
                    assert(row@ =~= row_of_values(arr@).subrange(0, k + 1 as int));
                }
                k += 1;
            }
            proof {
                assert(row@ =~= row_of_values(arr@));
                assert(all[i as int] == row_of_values(arr@));
                assert(row@.len() == N);
            }
            let ghost prev = self.rows();
            self.insert(row.as_slice());
            proof {
                assert(all.skip(i as int)[0] == all[i as int]);
                assert(all.skip(i as int).skip(1) =~= all.skip(i + 1 as int));
                assert(spec_insert_seq(prev, all.skip(i as int)) == spec_insert_seq(
                    self.rows(),
                    all.skip(i + 1 as int),
                ));
            }
            i += 1;
        }
        proof {
            assert(all.skip(n as int) =~= Seq::<Seq<Value>>::empty());
        }
    }
}

/// Element-wise equality of two tuples.
fn row_eq(a: &Vec<Value>, b: &[Value]) -> (r: bool)
    ensures
        r == (a@ == b@),
{
    let n = a.len();
    if n != b.len() {
        proof {
            assert(a@ != b@);
        }
        return false;
    }
    let mut i: usize = 0;
    while i < n
        invariant
            i <= n,
            n == a@.len(),
            n == b@.len(),
            forall|k: int| 0 <= k < i ==> a@[k] == b@[k],
        decreases n - i,
    {
        if a[i].0 != b[i].0 {
            proof {
                assert(a@[i as int] != b@[i as int]);
            }
            return false;
        }
        i += 1;
    }
    proof {
        assert(a@ =~= b@);
    }
    true
}

/// An opaque handle minted when a query is registered; strictly increasing
/// and never reused for the database's lifetime.
#[derive(Debug, PartialEq, Eq, Hash, PartialOrd, Ord, Clone, Copy, Structural)]
pub struct QueryHandle(usize);

impl QueryHandle {
    /// The handle as a number.
    pub closed spec fn idx(self) -> int {
        self.0 as int
    }
}

/// Named relations plus registered queries.  Relations mutate over time;
/// compiled queries are append-only.
pub struct Database {
    relations: Vec<(Symbol, Relation)>,
    queries: Vec<CompiledQuery>,
}

impl Database {
    /// The named relations, in declaration order.
    pub closed spec fn rels(self) -> Seq<(Symbol, Relation)> {
        self.relations@
    }

    /// The registered queries, in registration order.
    pub closed spec fn qs(self) -> Seq<CompiledQuery> {
        self.queries@
    }

    /// The declared names, in declaration order.
    pub open spec fn rel_names(self) -> Seq<Symbol> {
        self.rels().map(|_i: int, p: (Symbol, Relation)| p.0)
    }

    /// Whether `s` names a declared relation.
    pub open spec fn has_rel(self, s: Symbol) -> bool {
        seq_has(self.rel_names(), s)
    }

    /// Where `s` stands in the declaration list.
    pub open spec fn rel_idx(self, s: Symbol) -> int {
        choose|i: int| 0 <= i < self.rels().len() && self.rels()[i].0 == s
    }

    /// The relation declared under `s`.
    pub open spec fn rel_of(self, s: Symbol) -> Relation {
        self.rels()[self.rel_idx(s)].1
    }

    /// The tuples currently stored under `s`.
    pub open spec fn rel_rows(self, s: Symbol) -> Seq<Seq<Value>> {
        self.rel_of(s).rows()
    }

    /// Names are distinct, every relation is well formed, and every compiled
    /// query is well formed.
    pub open spec fn wf(self) -> bool {
        &&& forall|i: int, j: int|
            0 <= i < j < self.rels().len() ==> (#[trigger] self.rels()[i]).0 != (
            #[trigger] self.rels()[j]).0
        &&& forall|i: int| 0 <= i < self.rels().len() ==> (#[trigger] self.rels()[i]).1.wf()
        &&& forall|i: int| 0 <= i < self.qs().len() ==> (#[trigger] self.qs()[i]).wf()
    }

    /// An empty database.
    pub fn new() -> (r: Database)
        ensures
            r.wf(),
            r.rels().len() == 0,
            r.qs().len() == 0,
    {
        Database { relations: Vec::new(), queries: Vec::new() }
    }

    /// Where `s` stands in the declaration list, if anywhere.
    fn find_rel(&self, s: Symbol) -> (r: Option<usize>)
        ensures
            match r {
                Some(i) => 0 <= i < self.rels().len() && self.rels()[i as int].0 == s,
                None => !self.has_rel(s),
            },
    {
        let n = self.relations.len();
        let mut i: usize = 0;
        while i < n
            invariant
                i <= n,
                n == self.rels().len(),
                forall|k: int| 0 <= k < i ==> (#[trigger] self.rels()[k]).0 != s,
            decreases n - i,
        {
            if self.relations[i].0 == s {
                return Some(i);
            }
            i += 1;
        }
        proof {
            assert(forall|k: int|
                0 <= k < self.rel_names().len() ==> (#[trigger] self.rel_names()[k]) != s);
        }
        None
    }

    /// Declares an empty relation under `symbol`; fails when the name is
    /// taken.
    pub fn add_relation(&mut self, symbol: Symbol, arity: usize) -> (r: Result<(), Error>)
        requires
            old(self).wf(),
        ensures
            final(self).wf(),
            final(self).qs() == old(self).qs(),
            match r {
                Ok(_) => !old(self).has_rel(symbol) && final(self).has_rel(symbol) && final(self).rel_names() == old(self).rel_names().push(symbol) && final(self).rel_of(
                    symbol,
                ).wf() && final(self).rel_of(symbol).rows().len() == 0 && final(self).rel_of(
                    symbol,
                ).width() == arity && forall|s2: Symbol|
                    s2 != symbol && old(self).has_rel(s2) ==> final(self).has_rel(s2) && final(self).rel_of(s2) == old(self).rel_of(s2),
                Err(e) => e == Error::DuplicateRelation(symbol) && old(self).has_rel(symbol) && *final(self) == *old(self),
            },
    {
        match self.find_rel(symbol) {
            Some(i) => {
                proof {
                    assert(self.rel_names()[i as int] == symbol);
                }
                Err(Error::DuplicateRelation(symbol))
            },
            None => {
                let fresh = Relation::new(arity);
                let ghost freshg = fresh;
                self.relations.push((symbol, fresh));
                proof {
                    let b = old(self).rels();
                    let a = self.rels();
                    assert(a.last() == (symbol, freshg));
                    assert(a.last().0 == symbol);
                    assert(a.last().1 == freshg);
                    assert(self.rel_names() =~= old(self).rel_names().push(symbol));
                    assert forall|u: int, w2: int| 0 <= u < w2 < a.len() implies (
                    #[trigger] a[u]).0 != (#[trigger] a[w2]).0 by {
                        if w2 == a.len() - 1 {
                            assert(old(self).rel_names()[u] == a[u].0);
                        }
                    }
                    assert forall|u: int| 0 <= u < self.rels().len() implies (
                    #[trigger] self.rels()[u]).1.wf() by {
                        if u < b.len() {
                            assert(self.rels()[u] == b[u]);
                            assert(b[u].1.wf());
                        } else {
                            assert(self.rels()[u] == a.last());
                        }
                    }
                    assert forall|u: int, w2: int|
                        0 <= u < w2 < self.rels().len() implies (#[trigger] self.rels()[u]).0 != (
                        #[trigger] self.rels()[w2]).0 by {
                        if w2 == a.len() - 1 {
                            assert(old(self).rel_names()[u] == a[u].0);
                        }
                    }
                    assert(self.qs() == old(self).qs());
                    assert forall|u: int| 0 <= u < self.qs().len() implies (
                    #[trigger] self.qs()[u]).wf() by {
                        assert(self.qs()[u] == old(self).qs()[u]);
                        assert(old(self).qs()[u].wf());
                    }
                    assert(self.wf());
                    lemma_rel_idx_unique(*self, symbol, a.len() - 1);
                    assert forall|s2: Symbol|
                        s2 != symbol && old(self).has_rel(s2) implies #[trigger] self.has_rel(s2)
                        && self.rel_of(s2) == old(self).rel_of(s2) by {
                        let k = choose|k: int|
                            0 <= k < b.len() && (#[trigger] old(self).rel_names()[k]) == s2;
                        assert(a[k].0 == s2);
                        assert(self.rel_names()[k] == s2);
                        lemma_rel_idx_unique(*self, s2, k);
                        lemma_rel_idx_unique(*old(self), s2, k);
                    }
                }
                Ok(())
            },
        }
    }

    /// The relation declared under `symbol`; fails when there is none.
    pub fn get_relation(&self, symbol: Symbol) -> (r: Result<&Relation, Error>)
        requires
            self.wf(),
        ensures
            match r {
                Ok(rel) => self.has_rel(symbol) && *rel == self.rel_of(symbol),
                Err(e) => e == Error::NoSuchRelation(symbol) && !self.has_rel(symbol),
            },
    {
        match self.find_rel(symbol) {
            Some(i) => {
                proof {
                    lemma_rel_idx_unique(*self, symbol, i as int);
                }
                Ok(&self.relations[i].1)
            },
            None => Err(Error::NoSuchRelation(symbol)),
        }
    }

    /// Removes and returns the relation declared under `symbol`; fails when
    /// there is none.  Registered queries are unaffected.
    pub fn remove_relation(&mut self, symbol: Symbol) -> (r: Result<Relation, Error>)
        requires
            old(self).wf(),
        ensures
            final(self).wf(),
            final(self).qs() == old(self).qs(),
            match r {
                Ok(rel) => old(self).has_rel(symbol) && rel == old(self).rel_of(symbol) && !final(self).has_rel(symbol) && forall|s2: Symbol|
                    s2 != symbol ==> final(self).has_rel(s2) == old(self).has_rel(s2) && (old(self).has_rel(s2) ==> final(self).rel_of(s2) == old(self).rel_of(s2)),
                Err(e) => e == Error::NoSuchRelation(symbol) && !old(self).has_rel(symbol) && *final(self) == *old(self),
            },
    {
        match self.find_rel(symbol) {
            Some(i) => {
                proof {
                    lemma_rel_idx_unique(*old(self), symbol, i as int);
                }
                let pair = self.relations.remove(i);
                proof {
                    lemma_remove_rel(old(self).rels(), self.rels(), i as int, *old(self), *self);
                }
                Ok(pair.1)
            },
            None => Err(Error::NoSuchRelation(symbol)),
        }
    }

    /// Inserts `tuple` into the relation named `symbol`; fails fast on an
    /// undeclared name or a width mismatch, leaving everything unchanged.
    pub fn insert_tuple(&mut self, symbol: Symbol, tuple: &[Value]) -> (r: Result<(), Error>)
        requires
            old(self).wf(),
        ensures
            final(self).wf(),
            final(self).qs() == old(self).qs(),
            final(self).rel_names() == old(self).rel_names(),
            match r {
                Ok(_) => old(self).has_rel(symbol) && tuple@.len() == old(self).rel_of(
                    symbol,
                ).width() && final(self).rel_of(symbol).rows() == spec_insert(
                    old(self).rel_of(symbol).rows(),
                    tuple@,
                ) && final(self).rel_of(symbol).width() == old(self).rel_of(symbol).width() && forall|
                    s2: Symbol,
                |
                    s2 != symbol && old(self).has_rel(s2) ==> final(self).rel_of(s2) == old(self).rel_of(s2),
                Err(e) => *final(self) == *old(self) && (e == Error::NoSuchRelation(symbol) && !old(self).has_rel(symbol) || e == Error::ArityMismatch(symbol) && old(self).has_rel(symbol)
                    && tuple@.len() != old(self).rel_of(symbol).width()),
            },
    {
        match self.find_rel(symbol) {
            Some(i) => {
                proof {
                    lemma_rel_idx_unique(*old(self), symbol, i as int);
                }
                if tuple.len() != self.relations[i].1.arity() {
                    return Err(Error::ArityMismatch(symbol));
                }
                self.relations[i].1.insert(tuple);
                proof {
                    lemma_update_rel(old(self).rels(), self.rels(), i as int, *old(self), *self);
                }
                Ok(())
            },
            None => Err(Error::NoSuchRelation(symbol)),
        }
    }

    /// Inserts every `width`-wide chunk of `flat` into the relation named
    /// `symbol`; fails fast on an undeclared name or a buffer that does not
    /// divide into tuples, leaving everything unchanged.
    pub fn insert_flat(&mut self, symbol: Symbol, flat: &[Value]) -> (r: Result<(), Error>)
        requires
            old(self).wf(),
        ensures
            final(self).wf(),
            final(self).qs() == old(self).qs(),
            final(self).rel_names() == old(self).rel_names(),
            match r {
                Ok(_) => old(self).has_rel(symbol) && old(self).rel_of(symbol).width() >= 1 && flat@.len() as int
                    % old(self).rel_of(symbol).width() == 0 && final(self).rel_of(symbol).rows()
                    == spec_insert_chunks(
                    old(self).rel_of(symbol).rows(),
                    flat@,
                    old(self).rel_of(symbol).width(),
                ) && final(self).rel_of(symbol).width() == old(self).rel_of(symbol).width()
                    && forall|s2: Symbol|
                    s2 != symbol && old(self).has_rel(s2) ==> final(self).rel_of(s2) == old(
                        self,
                    ).rel_of(s2),
                Err(e) => *final(self) == *old(self) && (e == Error::NoSuchRelation(symbol)
                    && !old(self).has_rel(symbol) || e == Error::ArityMismatch(symbol) && old(
                    self,
                ).has_rel(symbol) && (old(self).rel_of(symbol).width() < 1 || flat@.len() as int
                    % old(self).rel_of(symbol).width() != 0)),
            },
    {
        match self.find_rel(symbol) {
            Some(i) => {
                proof {
                    lemma_rel_idx_unique(*old(self), symbol, i as int);
                }
                let w = self.relations[i].1.arity();
                if w < 1 || flat.len() % w != 0 {
                    return Err(Error::ArityMismatch(symbol));
                }
                self.relations[i].1.insert_many(flat);
                proof {
                    lemma_update_rel(old(self).rels(), self.rels(), i as int, *old(self), *self);
                }
                Ok(())
            },
            None => Err(Error::NoSuchRelation(symbol)),
        }
    }

    /// Compiles `query` and registers it under a fresh handle; handles are
    /// indices minted in increasing order and never reused.
    pub fn add_query(&mut self, query: Query) -> (h: QueryHandle)
        requires
            old(self).wf(),
        ensures
            final(self).wf(),
            final(self).rels() == old(self).rels(),
            final(self).qs().len() == old(self).qs().len() + 1,
            forall|k: int| 0 <= k < old(self).qs().len() ==> final(self).qs()[k] == old(self).qs()[k],
            h.idx() == old(self).qs().len(),
            final(self).qs()[h.idx()].wf(),
            final(self).qs()[h.idx()].atoms() == atoms_view(query.atoms@),
    {
        let ghost qa = query.atoms@;
        let h = QueryHandle(self.queries.len());
        let cq = CompiledQuery::new(&*self, query);
        self.queries.push(cq);
        proof {
            assert forall|i: int| 0 <= i < self.qs().len() implies (#[trigger] self.qs()[i]).wf() by {
                if i < old(self).qs().len() {
                    assert(self.qs()[i] == old(self).qs()[i]);
                } else {
                    assert(self.qs()[i] == self.qs().last());
                }
            }
            assert(self.rels() == old(self).rels());
            assert forall|i: int| 0 <= i < self.rels().len() implies (
            #[trigger] self.rels()[i]).1.wf() by {
                assert(self.rels()[i] == old(self).rels()[i]);
                assert(old(self).rels()[i].1.wf());
            }
            assert forall|i: int, j: int|
                0 <= i < j < self.rels().len() implies (#[trigger] self.rels()[i]).0 != (
                #[trigger] self.rels()[j]).0 by {
                assert(self.rels()[i] == old(self).rels()[i]);
                assert(self.rels()[j] == old(self).rels()[j]);
            }
        }
        h
    }

    /// Runs the compiled query `handle` against the live relation contents;
    /// fails on a foreign handle or an undeclared relation.
    pub fn eval_query(&self, handle: QueryHandle) -> (r: Result<Vec<Vec<Value>>, Error>)
        requires
            self.wf(),
        ensures
            match r {
                Ok(out) => 0 <= handle.idx() < self.qs().len() && eval_ok(
                    *self,
                    self.qs()[handle.idx()],
                    rows_view(out@),
                ),
                Err(e) => e == Error::UnknownHandle && !(0 <= handle.idx() < self.qs().len()) || (0
                    <= handle.idx() < self.qs().len() && exists|j: int|
                    0 <= j < self.qs()[handle.idx()].atoms().len() && !self.has_rel(
                        (#[trigger] self.qs()[handle.idx()].atoms()[j]).0,
                    ) && e == Error::NoSuchRelation(self.qs()[handle.idx()].atoms()[j].0)),
            },
    {
        if handle.0 >= self.queries.len() {
            return Err(Error::UnknownHandle);
        }
        proof {
            assert(self.queries@[handle.0 as int] == self.qs()[handle.idx()]);
            assert(self.qs()[handle.idx()].wf());
        }
        self.queries[handle.0].eval(self)
    }

    /// Where `var` stands in the global variable order of query `handle`.
    pub fn get_index(&self, handle: QueryHandle, var: Symbol) -> (r: Result<usize, Error>)
        requires
            self.wf(),
        ensures
            match r {
                Ok(i) => 0 <= handle.idx() < self.qs().len() && i < self.qs()[handle.idx()].vars().len()
                    && self.qs()[handle.idx()].vars()[i as int] == var,
                Err(e) => e == Error::UnknownHandle && !(0 <= handle.idx() < self.qs().len()) || (0
                    <= handle.idx() < self.qs().len() && e == Error::UnknownVariable(var)
                    && !seq_has(self.qs()[handle.idx()].vars(), var)),
            },
    {
        if handle.0 >= self.queries.len() {
            return Err(Error::UnknownHandle);
        }
        proof {
            assert(self.queries@[handle.0 as int] == self.qs()[handle.idx()]);
        }
        self.queries[handle.0].get_index(var)
    }

    /// Where each of `vars` stands in the global variable order of query
    /// `handle`; fails rather than return any index for an unbound variable.
    pub fn get_indexes(&self, handle: QueryHandle, vars: &[Symbol]) -> (r: Result<
        Vec<usize>,
        Error,
    >)
        requires
            self.wf(),
        ensures
            match r {
                Ok(idxs) => 0 <= handle.idx() < self.qs().len() && idxs@.len() == vars@.len()
                    && forall|i: int|
                    0 <= i < vars@.len() ==> (#[trigger] idxs@[i]) < self.qs()[handle.idx()].vars().len()
                        && self.qs()[handle.idx()].vars()[idxs@[i] as int] == vars@[i],
                Err(e) => e == Error::UnknownHandle && !(0 <= handle.idx() < self.qs().len()) || (0
                    <= handle.idx() < self.qs().len() && exists|i: int|
                    0 <= i < vars@.len() && e == Error::UnknownVariable(#[trigger] vars@[i])
                        && !seq_has(self.qs()[handle.idx()].vars(), vars@[i])),
            },
    {
        if handle.0 >= self.queries.len() {
            return Err(Error::UnknownHandle);
        }
        let n = vars.len();
        let mut idxs: Vec<usize> = Vec::new();
        let mut i: usize = 0;
        while i < n
            invariant
                i <= n,
                n == vars@.len(),
                0 <= handle.idx() < self.qs().len(),
                handle.idx() == handle.0 as int,
                self.wf(),
                idxs@.len() == i,
                forall|k: int|
                    0 <= k < i ==> (#[trigger] idxs@[k]) < self.qs()[handle.idx()].vars().len()
                        && self.qs()[handle.idx()].vars()[idxs@[k] as int] == vars@[k],
            decreases n - i,
        {
            match self.queries[handle.0].get_index(vars[i]) {
                Ok(p) => {
                    idxs.push(p);
                },
                Err(e) => {
                    return Err(e);
                },
            }
            i += 1;
        }
        Ok(idxs)
    }

    /// Every substitution of query `handle`, flattened into one buffer.
    pub fn collect(&self, handle: QueryHandle) -> (r: Result<Vec<Value>, Error>)
        requires
            self.wf(),
        ensures
            match r {
                Ok(flat) => 0 <= handle.idx() < self.qs().len() && exists|out: Seq<Seq<Value>>|
                    #[trigger] eval_ok(*self, self.qs()[handle.idx()], out) && flat@ == flat_of(
                        out,
                    ),
                Err(e) => e == Error::UnknownHandle && !(0 <= handle.idx() < self.qs().len()) || (0
                    <= handle.idx() < self.qs().len() && exists|j: int|
                    0 <= j < self.qs()[handle.idx()].atoms().len() && !self.has_rel(
                        (#[trigger] self.qs()[handle.idx()].atoms()[j]).0,
                    ) && e == Error::NoSuchRelation(self.qs()[handle.idx()].atoms()[j].0)),
            },
    {
        let mut vec: Vec<Value> = Vec::new();
        match self.collect_into(handle, &mut vec) {
            Ok(_) => Ok(vec),
            Err(e) => Err(e),
        }
    }

    /// Like [`Database::collect`], appending to a caller's buffer.
    pub fn collect_into(&self, handle: QueryHandle, vec: &mut Vec<Value>) -> (r: Result<(), Error>)
        requires
            self.wf(),
        ensures
            match r {
                Ok(_) => 0 <= handle.idx() < self.qs().len() && exists|out: Seq<Seq<Value>>|
                    #[trigger] eval_ok(*self, self.qs()[handle.idx()], out) && final(vec)@ == old(
                        vec,
                    )@ + flat_of(out),
                Err(e) => *final(vec) == *old(vec) && (e == Error::UnknownHandle && !(0 <= handle.idx() < self.qs().len()) || (0
                    <= handle.idx() < self.qs().len() && exists|j: int|
                    0 <= j < self.qs()[handle.idx()].atoms().len() && !self.has_rel(
                        (#[trigger] self.qs()[handle.idx()].atoms()[j]).0,
                    ) && e == Error::NoSuchRelation(self.qs()[handle.idx()].atoms()[j].0))),
            },
    {
        let out = match self.eval_query(handle) {
            Ok(out) => out,
            Err(e) => {
                return Err(e);
            },
        };
        let ghost rows = rows_view(out@);
        let n = out.len();
        let mut p: usize = 0;
        proof {
            assert(rows.take(0) =~= Seq::<Seq<Value>>::empty());
        }
        while p < n
            invariant
                p <= n,
                n == out@.len(),
                rows == rows_view(out@),
                vec@ == old(vec)@ + flat_of(rows.take(p as int)),
            decreases n - p,
        {
            let row = &out[p];
            let w = row.len();
            let mut k: usize = 0;
            while k < w
                invariant
                    k <= w,
                    w == row@.len(),
                    vec@ == old(vec)@ + flat_of(rows.take(p as int)) + row@.subrange(0, k as int),
                decreases w - k,
            {
                vec.push(row[k]);
                proof {
                    assert(vec@ =~= old(vec)@ + flat_of(rows.take(p as int)) + row@.subrange(
                        0,
                        k + 1 as int,
                    ));
                }
                k += 1;
            }
            proof {
                assert(rows.take(p + 1 as int).drop_last() =~= rows.take(p as int));
                assert(rows.take(p + 1 as int).last() == row@);
                assert(row@.subrange(0, w as int) =~= row@);
                assert(flat_of(rows.take(p + 1 as int)) == flat_of(rows.take(p as int)) + row@);
                assert(vec@ =~= old(vec)@ + flat_of(rows.take(p + 1 as int)));
            }
            p += 1;
        }
        proof {
            assert(rows.take(n as int) =~= rows);
        }
        Ok(())
    }

    /// How many tuples the relation named `symbol` holds.
    pub fn rel_len(&self, symbol: Symbol) -> (r: Result<usize, Error>)
        requires
            self.wf(),
        ensures
            match r {
                Ok(n) => self.has_rel(symbol) && n == self.rel_of(symbol).rows().len(),
                Err(e) => e == Error::NoSuchRelation(symbol) && !self.has_rel(symbol),
            },
    {
        match self.get_relation(symbol) {
            Ok(rel) => Ok(rel.len()),
            Err(e) => Err(e),
        }
    }
}

impl Default for Database {
    /// An empty database.
    fn default() -> (r: Database)
        ensures
            r.wf(),
            r.rels().len() == 0,
            r.qs().len() == 0,
    {
        Database::new()
    }
}

/// A list of substitutions flattened into one buffer, front to back.
pub open spec fn flat_of(rows: Seq<Seq<Value>>) -> Seq<Value>
    decreases rows.len(),
{
    if rows.len() == 0 {
        Seq::empty()
    } else {
        flat_of(rows.drop_last()) + rows.last()
    }
}

/// Idempotent insertion: inserting a tuple twice leaves exactly the state
/// one insertion gives — the same tuples, in the same order.
pub proof fn lemma_insert_idempotent(rows: Seq<Seq<Value>>, t: Seq<Value>)
    ensures
        spec_insert(spec_insert(rows, t), t) == spec_insert(rows, t),
{
    assert(seq_has(spec_insert(rows, t), t)) by {
        if seq_has(rows, t) {
            let i = choose|i: int| 0 <= i < rows.len() && rows[i] == t;
            assert(spec_insert(rows, t)[i] == t);
        } else {
            assert(spec_insert(rows, t)[rows.len() as int] == t);
        }
    }
}

/// The total number of stored tuples across a list of relations.
pub open spec fn rels_size(s: Seq<(Symbol, Relation)>) -> int
    decreases s.len(),
{
    if s.len() == 0 {
        0
    } else {
        rels_size(s.drop_last()) + s.last().1.rows().len()
    }
}

/// The total number of stored tuples in a database.
pub open spec fn total_size(db: Database) -> int {
    rels_size(db.rels())
}

/// A stored tuple count never exceeds the machine's index range.
pub proof fn lemma_rel_size_bound(rel: Relation)
    ensures
        rel.rows().len() <= usize::MAX,
{
    vstd::std_specs::vec::axiom_spec_len(&rel.tuples);
}

/// The total count is bounded by the number of relations times the index
/// range.
pub proof fn lemma_total_size_bound(s: Seq<(Symbol, Relation)>)
    ensures
        0 <= rels_size(s) <= s.len() * usize::MAX,
    decreases s.len(),
{
    if s.len() == 0 {
    } else {
        lemma_total_size_bound(s.drop_last());
        lemma_rel_size_bound(s.last().1);
        assert(s.len() * usize::MAX == (s.len() - 1) * usize::MAX + usize::MAX)
            by (nonlinear_arith);
    }
}

/// Relation lists with pointwise equal counts have equal totals.
pub proof fn lemma_rels_size_congruent(s1: Seq<(Symbol, Relation)>, s2: Seq<(Symbol, Relation)>)
    requires
        s1.len() == s2.len(),
        forall|k: int| 0 <= k < s1.len() ==> (#[trigger] s1[k]).1.rows().len() == (#[trigger] s2[k]).1.rows().len(),
    ensures
        rels_size(s1) == rels_size(s2),
    decreases s1.len(),
{
    if s1.len() > 0 {
        assert(forall|k: int|
            0 <= k < s1.drop_last().len() ==> (#[trigger] s1.drop_last()[k]).1.rows().len() == (
            #[trigger] s2.drop_last()[k]).1.rows().len()) by {
            assert(forall|k: int|
                0 <= k < s1.len() - 1 ==> s1.drop_last()[k] == s1[k] && s2.drop_last()[k] == s2[k]);
        }
        lemma_rels_size_congruent(s1.drop_last(), s2.drop_last());
        assert(s1.last().1.rows().len() == s2.last().1.rows().len()) by {
            assert(s1[s1.len() - 1] == s1.last());
            assert(s2[s2.len() - 1] == s2.last());
        }
    }
}

/// A change confined to one entry moves the total by that entry's change.
pub proof fn lemma_rels_size_pointwise(
    s1: Seq<(Symbol, Relation)>,
    s2: Seq<(Symbol, Relation)>,
    k0: int,
)
    requires
        s1.len() == s2.len(),
        0 <= k0 < s1.len(),
        forall|k: int|
            0 <= k < s1.len() && k != k0 ==> (#[trigger] s1[k]).1.rows().len() == (
            #[trigger] s2[k]).1.rows().len(),
    ensures
        rels_size(s2) - rels_size(s1) == s2[k0].1.rows().len() - s1[k0].1.rows().len(),
    decreases s1.len(),
{
    assert(forall|k: int|
        0 <= k < s1.len() - 1 ==> s1.drop_last()[k] == s1[k] && s2.drop_last()[k] == s2[k]);
    if k0 == s1.len() - 1 {
        lemma_rels_size_congruent(s1.drop_last(), s2.drop_last());
        assert(s1[k0] == s1.last());
        assert(s2[k0] == s2.last());
    } else {
        lemma_rels_size_pointwise(s1.drop_last(), s2.drop_last(), k0);
        assert(s1[s1.len() - 1].1.rows().len() == s2[s2.len() - 1].1.rows().len());
        assert(s1.last() == s1[s1.len() - 1]);
        assert(s2.last() == s2[s2.len() - 1]);
    }
}

/// Databases with equal names agree entry by entry with their lookups.
pub proof fn lemma_rel_at_index(db: Database, k: int)
    requires
        db.wf(),
        0 <= k < db.rels().len(),
    ensures
        db.has_rel(db.rels()[k].0),
        db.rel_of(db.rels()[k].0) == db.rels()[k].1,
    {
    lemma_rel_idx_unique(db, db.rels()[k].0, k);
}

/// Pointwise at-most counts give an at-most total.
pub proof fn lemma_rels_size_mono(s1: Seq<(Symbol, Relation)>, s2: Seq<(Symbol, Relation)>)
    requires
        s1.len() == s2.len(),
        forall|k: int|
            0 <= k < s1.len() ==> (#[trigger] s1[k]).1.rows().len() <= (#[trigger] s2[k]).1.rows().len(),
    ensures
        rels_size(s1) <= rels_size(s2),
    decreases s1.len(),
{
    if s1.len() > 0 {
        assert(forall|k: int|
            0 <= k < s1.len() - 1 ==> s1.drop_last()[k] == s1[k] && s2.drop_last()[k] == s2[k]);
        lemma_rels_size_mono(s1.drop_last(), s2.drop_last());
        assert(s1[s1.len() - 1] == s1.last());
        assert(s2[s2.len() - 1] == s2.last());
    }
}

/// Pointwise monotone counts with an unchanged total are unchanged counts.
pub proof fn lemma_rels_size_equal(s1: Seq<(Symbol, Relation)>, s2: Seq<(Symbol, Relation)>)
    requires
        s1.len() == s2.len(),
        forall|k: int|
            0 <= k < s1.len() ==> (#[trigger] s1[k]).1.rows().len() <= (#[trigger] s2[k]).1.rows().len(),
        rels_size(s1) == rels_size(s2),
    ensures
        forall|k: int|
            0 <= k < s1.len() ==> (#[trigger] s1[k]).1.rows().len() == (#[trigger] s2[k]).1.rows().len(),
    decreases s1.len(),
{
    if s1.len() > 0 {
        assert(forall|k: int|
            0 <= k < s1.len() - 1 ==> s1.drop_last()[k] == s1[k] && s2.drop_last()[k] == s2[k]);
        lemma_rels_size_mono(s1.drop_last(), s2.drop_last());
        assert(s1[s1.len() - 1] == s1.last());
        assert(s2[s2.len() - 1] == s2.last());
        lemma_rels_size_equal(s1.drop_last(), s2.drop_last());
        assert forall|k: int|
            0 <= k < s1.len() implies (#[trigger] s1[k]).1.rows().len() == (
        #[trigger] s2[k]).1.rows().len() by {
            if k < s1.len() - 1 {
                assert(s1.drop_last()[k].1.rows().len() == s2.drop_last()[k].1.rows().len());
            }
        }
    }
}

/// A found index is the chosen one: names are distinct.
pub proof fn lemma_rel_idx_unique(db: Database, symbol: Symbol, i: int)
    requires
        db.wf(),
        0 <= i < db.rels().len(),
        db.rels()[i].0 == symbol,
    ensures
        db.has_rel(symbol),
        db.rel_idx(symbol) == i,
        db.rel_of(symbol) == db.rels()[i].1,
{
    assert(db.rel_names()[i] == symbol);
    let j = db.rel_idx(symbol);
    assert(0 <= j < db.rels().len() && db.rels()[j].0 == symbol);
    if i < j {
        assert(db.rels()[i].0 != db.rels()[j].0);
    } else if j < i {
        assert(db.rels()[j].0 != db.rels()[i].0);
    }
}

/// Removing one entry keeps the others' lookups intact.
proof fn lemma_remove_rel(
    before: Seq<(Symbol, Relation)>,
    after: Seq<(Symbol, Relation)>,
    i: int,
    dbb: Database,
    dba: Database,
)
    requires
        dbb.wf(),
        dbb.rels() == before,
        dba.rels() == after,
        dba.qs() == dbb.qs(),
        0 <= i < before.len(),
        after == before.subrange(0, i) + before.subrange(i + 1, before.len() as int),
    ensures
        dba.wf(),
        !dba.has_rel(before[i].0),
        forall|s2: Symbol|
            s2 != before[i].0 ==> dba.has_rel(s2) == dbb.has_rel(s2) && (dbb.has_rel(s2)
                ==> dba.rel_of(s2) == dbb.rel_of(s2)),
{
    assert(forall|k: int|
        0 <= k < after.len() ==> #[trigger] after[k] == (if k < i {
            before[k]
        } else {
            before[k + 1]
        }));
    assert forall|s2: Symbol| s2 != before[i].0 implies dba.has_rel(s2) == dbb.has_rel(s2) && (
    dbb.has_rel(s2) ==> dba.rel_of(s2) == dbb.rel_of(s2)) by {
        if dbb.has_rel(s2) {
            let k = choose|k: int| 0 <= k < before.len() && (#[trigger] dbb.rel_names()[k]) == s2;
            assert(before[k].0 == s2);
            assert(k != i);
            if k < i {
                assert(after[k].0 == s2);
                assert(dba.rel_names()[k] == s2);
            } else {
                assert(after[k - 1].0 == s2);
                assert(dba.rel_names()[k - 1] == s2);
            }
            let ka = choose|p: int| 0 <= p < after.len() && (#[trigger] after[p]).0 == s2;
            lemma_rel_idx_unique(dba, s2, ka);
            let kb = dbb.rel_idx(s2);
            lemma_rel_idx_unique(dbb, s2, k);
            assert(after[ka] == (if ka < i {
                before[ka]
            } else {
                before[ka + 1]
            }));
            if ka < i {
                lemma_rel_idx_unique(dbb, s2, ka);
            } else {
                lemma_rel_idx_unique(dbb, s2, ka + 1);
            }
        } else {
            if dba.has_rel(s2) {
                let p = choose|p: int| 0 <= p < after.len() && (#[trigger] dba.rel_names()[p])
                    == s2;
                assert(after[p].0 == s2);
                if p < i {
                    assert(dbb.rel_names()[p] == s2);
                } else {
                    assert(dbb.rel_names()[p + 1] == s2);
                }
            }
        }
    }
    if dba.has_rel(before[i].0) {
        let bi = before[i].0;
        let p = choose|p: int| 0 <= p < after.len() && (#[trigger] dba.rel_names()[p]) == bi;
        assert(after[p].0 == before[i].0);
        if p < i {
            assert(before[p].0 != before[i].0);
        } else {
            assert(before[i].0 != before[p + 1].0);
        }
    }
}

/// Updating one entry in place keeps the others' lookups intact.
proof fn lemma_update_rel(
    before: Seq<(Symbol, Relation)>,
    after: Seq<(Symbol, Relation)>,
    i: int,
    dbb: Database,
    dba: Database,
)
    requires
        dbb.wf(),
        dbb.rels() == before,
        dba.rels() == after,
        dba.qs() == dbb.qs(),
        0 <= i < before.len(),
        after.len() == before.len(),
        forall|k: int| 0 <= k < before.len() && k != i ==> after[k] == before[k],
        after[i].0 == before[i].0,
        after[i].1.wf(),
    ensures
        dba.rel_names() == dbb.rel_names(),
        dba.wf(),
        dba.rel_idx(before[i].0) == i,
        dba.rel_of(before[i].0) == after[i].1,
        forall|s2: Symbol|
            s2 != before[i].0 && dbb.has_rel(s2) ==> dba.has_rel(s2) && dba.rel_of(s2)
                == dbb.rel_of(s2),
{
    assert(dba.rel_names() =~= dbb.rel_names());
    assert(forall|k: int| 0 <= k < after.len() ==> (#[trigger] after[k]).0 == before[k].0);
    lemma_rel_idx_unique(dba, before[i].0, i);
    assert forall|s2: Symbol| s2 != before[i].0 && dbb.has_rel(s2) implies dba.has_rel(s2)
        && dba.rel_of(s2) == dbb.rel_of(s2) by {
        let k = choose|k: int| 0 <= k < before.len() && (#[trigger] dbb.rel_names()[k]) == s2;
        assert(before[k].0 == s2);
        assert(k != i);
        assert(after[k].0 == s2);
        assert(dba.rel_names()[k] == s2);
        lemma_rel_idx_unique(dba, s2, k);
        lemma_rel_idx_unique(dbb, s2, k);
    }
}

} // verus!
