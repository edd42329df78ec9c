//! An in-memory Datalog evaluation engine: named, fixed-arity relations of
//! interned constants, conjunctive queries evaluated by a worst-case-optimal
//! multiway join, and a naive fixpoint driver that fires rules until no
//! relation grows.

pub mod ast;
pub mod db;
pub mod util;

use vstd::prelude::*;

use ast::{
    atoms_view, term_is_value, term_value, terms_have_var, Atom, Directive, Error, Program, Rule,
    Term, Value,
};
use db::gj::{all_rows_sat, eval_ok, query_rels, rows_view, seq_has};
use db::{
    lemma_rel_idx_unique, lemma_rels_size_pointwise, lemma_total_size_bound, spec_insert,
    spec_insert_chunks, total_size, Database, QueryHandle, Relation,
};
use util::Symbol;

verus! {

/// Whether every term is a constant.
pub open spec fn terms_ground(terms: Seq<Term>) -> bool {
    forall|k: int| 0 <= k < terms.len() ==> term_is_value(#[trigger] terms[k])
}

/// The constants of a ground argument list.
pub open spec fn ground_values(terms: Seq<Term>) -> Seq<Value> {
    terms.map(|_i: int, t: Term| term_value(t))
}

/// Two declared relations hold identical tuple sets.
pub open spec fn same_rows(db: Database, a: Symbol, b: Symbol) -> bool {
    forall|t: Seq<Value>| #[trigger] seq_has(db.rel_rows(a), t) == seq_has(db.rel_rows(b), t)
}

/// Monotone growth: the same names and queries, every relation keeping its
/// width and its tuples, in order, possibly gaining new ones at the end.
pub open spec fn grows_to(d1: Database, d2: Database) -> bool {
    &&& d2.rel_names() == d1.rel_names()
    &&& d2.qs() == d1.qs()
    &&& forall|s: Symbol|
        d1.has_rel(s) ==> (#[trigger] d1.rel_of(s)).rows().is_prefix_of(d2.rel_of(s).rows())
            && d2.rel_of(s).width() == d1.rel_of(s).width()
}

/// A prefix keeps every tuple it already had.
pub proof fn lemma_prefix_has<A>(a: Seq<A>, b: Seq<A>, x: A)
    requires
        a.is_prefix_of(b),
        seq_has(a, x),
    ensures
        seq_has(b, x),
{
    let i = choose|i: int| 0 <= i < a.len() && a[i] == x;
    assert(b[i] == x);
}

/// Being a prefix composes.
pub proof fn lemma_prefix_trans<A>(a: Seq<A>, b: Seq<A>, c: Seq<A>)
    requires
        a.is_prefix_of(b),
        b.is_prefix_of(c),
    ensures
        a.is_prefix_of(c),
{
    assert(forall|i: int| 0 <= i < a.len() ==> a[i] == b[i] && b[i] == c[i]);
}

/// Growth composes.
pub proof fn lemma_grows_trans(d1: Database, d2: Database, d3: Database)
    requires
        grows_to(d1, d2),
        grows_to(d2, d3),
    ensures
        grows_to(d1, d3),
{
    assert forall|s: Symbol| d1.has_rel(s) implies (#[trigger] d1.rel_of(s)).rows().is_prefix_of(
        d3.rel_of(s).rows(),
    ) && d3.rel_of(s).width() == d1.rel_of(s).width() by {
        assert(d2.has_rel(s));
        lemma_prefix_trans(d1.rel_of(s).rows(), d2.rel_of(s).rows(), d3.rel_of(s).rows());
    }
}

/// Chunked insertion only appends.
pub proof fn lemma_chunks_prefix(rows: Seq<Seq<Value>>, flat: Seq<Value>, w: int)
    ensures
        rows.is_prefix_of(spec_insert_chunks(rows, flat, w)),
    decreases flat.len(),
{
    if flat.len() == 0 || w < 1 || flat.len() < w {
    } else {
        lemma_prefix_of_insert(rows, flat.take(w));
        lemma_chunks_prefix(spec_insert(rows, flat.take(w)), flat.skip(w), w);
        lemma_prefix_trans(
            rows,
            spec_insert(rows, flat.take(w)),
            spec_insert_chunks(spec_insert(rows, flat.take(w)), flat.skip(w), w),
        );
    }
}

/// Inserting appends at most one tuple and always leaves the tuple present.
pub proof fn lemma_prefix_of_insert(rows: Seq<Seq<Value>>, t: Seq<Value>)
    ensures
        rows.is_prefix_of(spec_insert(rows, t)),
        seq_has(spec_insert(rows, t), t),
        rows.len() <= spec_insert(rows, t).len() <= rows.len() + 1,
{
    if !seq_has(rows, t) {
        assert(spec_insert(rows, t)[rows.len() as int] == t);
    }
}

/// Well-formedness carries across database changes that keep the queries.
pub proof fn lemma_wf_preserved(c1: DatalogContext, c2: DatalogContext)
    requires
        c1.wf(),
        c2.db_view().wf(),
        c2.rules_view() == c1.rules_view(),
        c2.db_view().qs() == c1.db_view().qs(),
    ensures
        c2.wf(),
{
    assert forall|k: int| 0 <= k < c2.rules_view().len() implies 0 <= (
    #[trigger] c2.rules_view()[k]).1.idx() < c2.db_view().qs().len() && c2.db_view().qs()[c2.rules_view()[k].1.idx()].atoms()
        == atoms_view(c2.rules_view()[k].0.body.atoms@) by {
        assert(c2.rules_view()[k] == c1.rules_view()[k]);
        assert(c1.db_view().qs()[c1.rules_view()[k].1.idx()].atoms() == atoms_view(
            c1.rules_view()[k].0.body.atoms@,
        ));
        assert(c2.db_view().qs()[c1.rules_view()[k].1.idx()] == c1.db_view().qs()[c1.rules_view()[k].1.idx()]);
    }
}

/// Growth that adds no tuple overall changes no relation at all.
pub proof fn lemma_zero_growth_unchanged(d1: Database, d2: Database)
    requires
        d1.wf(),
        d2.wf(),
        grows_to(d1, d2),
        total_size(d2) == total_size(d1),
    ensures
        forall|s: Symbol| d1.has_rel(s) ==> #[trigger] d2.rel_rows(s) == d1.rel_rows(s),
{
    let s1 = d1.rels();
    let s2 = d2.rels();
    assert(s1.len() == s2.len()) by {
        assert(d1.rel_names().len() == s1.len());
        assert(d2.rel_names().len() == s2.len());
    }
    assert forall|k: int| 0 <= k < s1.len() implies (#[trigger] s1[k]).1.rows().len() <= (
    #[trigger] s2[k]).1.rows().len() by {
        db::lemma_rel_at_index(d1, k);
        db::lemma_rel_at_index(d2, k);
        assert(d1.rel_names()[k] == s1[k].0);
        assert(d2.rel_names()[k] == s2[k].0);
        assert(s2[k].0 == s1[k].0);
        assert(d1.rel_of(s1[k].0).rows().is_prefix_of(d2.rel_of(s1[k].0).rows()));
    }
    db::lemma_rels_size_equal(s1, s2);
    assert forall|s: Symbol| d1.has_rel(s) implies #[trigger] d2.rel_rows(s) == d1.rel_rows(
        s,
    ) by {
        let k = choose|k: int| 0 <= k < d1.rel_names().len() && (#[trigger] d1.rel_names()[k]) == s;
        assert(s1[k].0 == s);
        db::lemma_rel_idx_unique(d1, s, k);
        assert(d2.rel_names()[k] == s);
        db::lemma_rel_idx_unique(d2, s, k);
        assert(d1.rel_rows(s).is_prefix_of(d2.rel_rows(s)));
        assert(d1.rel_rows(s).len() == d2.rel_rows(s).len());
        assert(d1.rel_rows(s) =~= d2.rel_rows(s));
    }
}

/// The tuple a substitution hands a rule's head: position `z` holds the value
/// the assignment gives the head's `z`-th variable.  False unless the head is
/// a single all-variable atom over the compiled order.
pub open spec fn head_match(
    q: db::CompiledQuery,
    rule: Rule,
    full: Seq<Value>,
    tuple: Seq<Value>,
) -> bool {
    &&& rule.head@.len() == 1
    &&& tuple.len() == rule.head@[0].terms@.len()
    &&& forall|z: int|
        0 <= z < tuple.len() ==> match #[trigger] rule.head@[0].terms@[z] {
            Term::Variable(x) => exists|i: int|
                0 <= i < q.vars().len() && q.vars()[i] == x && #[trigger] full[i] == tuple[z],
            Term::Value(_) => false,
        }
}

/// Saturation: every tuple any rule can derive from the current contents is
/// already stored, so a full pass adds nothing.
pub open spec fn saturated(ctx: DatalogContext) -> bool {
    forall|k: int|
        0 <= k < ctx.rules_view().len() ==> saturated_rule(ctx, #[trigger] ctx.rules_view()[k])
}

/// Saturation of one rule: each satisfying substitution's head tuple is
/// already in the head relation.
pub open spec fn saturated_rule(ctx: DatalogContext, rk: (Rule, QueryHandle)) -> bool {
    forall|full: Seq<Value>, tuple: Seq<Value>|
        full.len() == ctx.db_view().qs()[rk.1.idx()].vars().len() && (forall|j: int|
            0 <= j < ctx.db_view().qs()[rk.1.idx()].atoms().len() ==> ctx.db_view().has_rel(
                (#[trigger] ctx.db_view().qs()[rk.1.idx()].atoms()[j]).0,
            )) && all_rows_sat(
            query_rels(ctx.db_view(), ctx.db_view().qs()[rk.1.idx()].atoms()),
            ctx.db_view().qs()[rk.1.idx()].atoms(),
            ctx.db_view().qs()[rk.1.idx()].vars(),
            full,
        ) && #[trigger] head_match(ctx.db_view().qs()[rk.1.idx()], rk.0, full, tuple)
            ==> ctx.db_view().has_rel(rk.0.head@[0].relation) && seq_has(
            ctx.db_view().rel_rows(rk.0.head@[0].relation),
            tuple,
        )
}

/// Saturation only reads the stored tuples, the queries and the rules, so it
/// carries across contexts that agree on them.
pub proof fn lemma_saturated_congruent(c1: DatalogContext, c2: DatalogContext)
    requires
        c1.wf(),
        saturated(c1),
        c2.rules_view() == c1.rules_view(),
        c2.db_view().qs() == c1.db_view().qs(),
        c2.db_view().rel_names() == c1.db_view().rel_names(),
        forall|s: Symbol| c1.db_view().has_rel(s) ==> #[trigger] c2.db_view().rel_rows(s) == c1.db_view().rel_rows(s),
    ensures
        saturated(c2),
{
    assert forall|k: int|
        0 <= k < c2.rules_view().len() implies saturated_rule(c2, #[trigger] c2.rules_view()[k]) by {
        assert(c2.rules_view()[k] == c1.rules_view()[k]);
        let rk = c1.rules_view()[k];
        assert(saturated_rule(c1, rk));
        let q = c1.db_view().qs()[rk.1.idx()];
        assert(c2.db_view().qs()[rk.1.idx()] == q);
        assert forall|full: Seq<Value>, tuple: Seq<Value>|
            full.len() == q.vars().len() && (forall|j: int|
                0 <= j < q.atoms().len() ==> c2.db_view().has_rel(
                    (#[trigger] q.atoms()[j]).0,
                )) && all_rows_sat(
                query_rels(c2.db_view(), q.atoms()),
                q.atoms(),
                q.vars(),
                full,
            ) && #[trigger] head_match(q, rk.0, full, tuple) implies c2.db_view().has_rel(
            rk.0.head@[0].relation,
        ) && seq_has(c2.db_view().rel_rows(rk.0.head@[0].relation), tuple) by {
            assert(query_rels(c2.db_view(), q.atoms()) =~= query_rels(c1.db_view(), q.atoms()))
                by {
                assert forall|j: int|
                    0 <= j < q.atoms().len() implies query_rels(c2.db_view(), q.atoms())[j]
                    == query_rels(c1.db_view(), q.atoms())[j] by {
                    assert(c2.db_view().has_rel(q.atoms()[j].0));
                    assert(c1.db_view().has_rel(q.atoms()[j].0));
                }
            }
            assert(all_rows_sat(query_rels(c1.db_view(), q.atoms()), q.atoms(), q.vars(), full));
            assert(c1.db_view().has_rel(rk.0.head@[0].relation) && seq_has(
                c1.db_view().rel_rows(rk.0.head@[0].relation),
                tuple,
            ));
        }
    }
}

/// One registered rule is fully usable against the context: its head is one
/// all-variable atom whose variables the compiled body binds, its head
/// relation is declared with the head's width, and every body relation is
/// declared.
pub open spec fn rule_ok(ctx: DatalogContext, k: int) -> bool {
    &&& ctx.rules_view()[k].0.head@.len() == 1
    &&& forall|z: int|
        0 <= z < ctx.rules_view()[k].0.head@[0].terms@.len() ==> match #[trigger] ctx.rules_view()[k].0.head@[0].terms@[z] {
            Term::Variable(x) => seq_has(
                ctx.db_view().qs()[ctx.rules_view()[k].1.idx()].vars(),
                x,
            ),
            Term::Value(_) => false,
        }
    &&& ctx.db_view().has_rel(ctx.rules_view()[k].0.head@[0].relation)
    &&& ctx.db_view().rel_of(ctx.rules_view()[k].0.head@[0].relation).width()
        == ctx.rules_view()[k].0.head@[0].terms@.len()
    &&& forall|j: int|
        0 <= j < ctx.db_view().qs()[ctx.rules_view()[k].1.idx()].atoms().len()
            ==> ctx.db_view().has_rel(
            (#[trigger] ctx.db_view().qs()[ctx.rules_view()[k].1.idx()].atoms()[j]).0,
        )
}

/// The configuration fault a pass's error names: each error variant points at
/// a real defect among the registered rules, never at thin air.
pub open spec fn config_fault(ctx: DatalogContext, e: Error) -> bool {
    match e {
        Error::BadRuleHead => exists|k: int|
            0 <= k < ctx.rules_view().len() && ((#[trigger] ctx.rules_view()[k]).0.head@.len() != 1
                || exists|z: int|
                0 <= z < ctx.rules_view()[k].0.head@[0].terms@.len() && term_is_value(
                    #[trigger] ctx.rules_view()[k].0.head@[0].terms@[z],
                )),
        Error::UnknownVariable(x) => exists|k: int, z: int|
            0 <= k < ctx.rules_view().len() && ctx.rules_view()[k].0.head@.len() == 1 && 0 <= z
                < ctx.rules_view()[k].0.head@[0].terms@.len() && (
            #[trigger] ctx.rules_view()[k].0.head@[0].terms@[z]) == Term::Variable(x) && !seq_has(
                ctx.db_view().qs()[ctx.rules_view()[k].1.idx()].vars(),
                x,
            ),
        Error::NoSuchRelation(s) => !ctx.db_view().has_rel(s) && (exists|k: int|
            0 <= k < ctx.rules_view().len() && (#[trigger] ctx.rules_view()[k]).0.head@.len() == 1
                && ctx.rules_view()[k].0.head@[0].relation == s || exists|k: int, j: int|
            0 <= k < ctx.rules_view().len() && 0 <= j
                < ctx.db_view().qs()[ctx.rules_view()[k].1.idx()].atoms().len() && (
            #[trigger] ctx.db_view().qs()[ctx.rules_view()[k].1.idx()].atoms()[j]).0 == s),
        Error::ArityMismatch(s) => ctx.db_view().has_rel(s) && exists|k: int|
            0 <= k < ctx.rules_view().len() && (#[trigger] ctx.rules_view()[k]).0.head@.len() == 1
                && ctx.rules_view()[k].0.head@[0].relation == s && ctx.db_view().rel_of(s).width()
                != ctx.rules_view()[k].0.head@[0].terms@.len(),
        _ => false,
    }
}

/// A tuple a rule derives: the head projection of a substitution that
/// satisfies the rule's body against the context's contents.
pub open spec fn derived_tuple(c0: DatalogContext, s: Symbol, t: Seq<Value>) -> bool {
    exists|k: int, full: Seq<Value>|
        0 <= k < c0.rules_view().len() && c0.rules_view()[k].0.head@[0].relation == s && full.len()
            == c0.db_view().qs()[c0.rules_view()[k].1.idx()].vars().len() && all_rows_sat(
            query_rels(c0.db_view(), c0.db_view().qs()[c0.rules_view()[k].1.idx()].atoms()),
            c0.db_view().qs()[c0.rules_view()[k].1.idx()].atoms(),
            c0.db_view().qs()[c0.rules_view()[k].1.idx()].vars(),
            full,
        ) && #[trigger] head_match(
            c0.db_view().qs()[c0.rules_view()[k].1.idx()],
            c0.rules_view()[k].0,
            full,
            t,
        )
}

/// Every tuple of `d2` beyond `c0`'s contents is one some rule derives from
/// `c0`'s contents.
pub open spec fn only_derived(c0: DatalogContext, d2: Database) -> bool {
    forall|s: Symbol, p: int|
        c0.db_view().has_rel(s) && c0.db_view().rel_rows(s).len() <= p < d2.rel_rows(s).len()
            ==> derived_tuple(c0, s, #[trigger] d2.rel_rows(s)[p])
}

/// Every tuple any rule derives from `c0`'s contents is stored in `d2`.
pub open spec fn derivations_stored(c0: DatalogContext, d2: Database) -> bool {
    forall|k: int, full: Seq<Value>, tuple: Seq<Value>|
        0 <= k < c0.rules_view().len() && full.len() == c0.db_view().qs()[c0.rules_view()[k].1.idx()].vars().len()
            && all_rows_sat(
            query_rels(c0.db_view(), c0.db_view().qs()[c0.rules_view()[k].1.idx()].atoms()),
            c0.db_view().qs()[c0.rules_view()[k].1.idx()].atoms(),
            c0.db_view().qs()[c0.rules_view()[k].1.idx()].vars(),
            full,
        ) && #[trigger] head_match(
            c0.db_view().qs()[c0.rules_view()[k].1.idx()],
            c0.rules_view()[k].0,
            full,
            tuple,
        ) ==> seq_has(d2.rel_rows(c0.rules_view()[k].0.head@[0].relation), tuple)
}

/// Satisfaction only needs some row, so extra rows never break it.
pub proof fn lemma_rows_sat_monotone(
    rows1: Seq<Seq<Value>>,
    rows2: Seq<Seq<Value>>,
    terms: Seq<Term>,
    vars: Seq<Symbol>,
    vals: Seq<Value>,
)
    requires
        rows1.is_prefix_of(rows2),
        db::gj::rows_sat(rows1, terms, vars, vals),
    ensures
        db::gj::rows_sat(rows2, terms, vars, vals),
{
    let i = choose|i: int|
        0 <= i < rows1.len() && db::gj::tuple_matches(#[trigger] rows1[i], terms, vars, vals);
    assert(rows2[i] == rows1[i]);
}

/// Configuration faults only read the rules, the compiled queries, the
/// declared names and their widths, so they carry across growth.
pub proof fn lemma_fault_congruent(c1: DatalogContext, c2: DatalogContext, e: Error)
    requires
        c2.rules_view() == c1.rules_view(),
        c2.db_view().qs() == c1.db_view().qs(),
        c2.db_view().rel_names() == c1.db_view().rel_names(),
        forall|s: Symbol|
            c1.db_view().has_rel(s) ==> #[trigger] c2.db_view().rel_of(s).width()
                == c1.db_view().rel_of(s).width(),
        config_fault(c2, e),
    ensures
        config_fault(c1, e),
{
    match e {
        Error::NoSuchRelation(sy) => {
            assert(!c1.db_view().has_rel(sy));
        },
        Error::ArityMismatch(sy) => {
            assert(c1.db_view().has_rel(sy));
            assert(c1.db_view().rel_of(sy).width() == c2.db_view().rel_of(sy).width());
        },
        _ => {},
    }
}

/// Rule usability likewise carries across growth, in both directions.
pub proof fn lemma_rule_ok_congruent(c1: DatalogContext, c2: DatalogContext, k: int)
    requires
        c2.rules_view() == c1.rules_view(),
        c2.db_view().qs() == c1.db_view().qs(),
        c2.db_view().rel_names() == c1.db_view().rel_names(),
        forall|s: Symbol|
            c1.db_view().has_rel(s) ==> #[trigger] c2.db_view().rel_of(s).width()
                == c1.db_view().rel_of(s).width(),
        0 <= k < c1.rules_view().len(),
        rule_ok(c2, k),
    ensures
        rule_ok(c1, k),
{
    assert(c1.db_view().has_rel(c1.rules_view()[k].0.head@[0].relation));
}

/// A tuple derivable from a smaller state is derivable from any monotone
/// extension of it, as long as the rules stay usable.
pub proof fn lemma_derived_monotone(c1: DatalogContext, c2: DatalogContext, s: Symbol, t: Seq<Value>)
    requires
        c2.rules_view() == c1.rules_view(),
        grows_to(c1.db_view(), c2.db_view()),
        forall|k: int| 0 <= k < c1.rules_view().len() ==> rule_ok(c1, k),
        derived_tuple(c1, s, t),
    ensures
        derived_tuple(c2, s, t),
{
    let (kw, fw) = choose|k: int, full: Seq<Value>|
        0 <= k < c1.rules_view().len() && c1.rules_view()[k].0.head@[0].relation == s && full.len()
            == c1.db_view().qs()[c1.rules_view()[k].1.idx()].vars().len() && all_rows_sat(
            query_rels(c1.db_view(), c1.db_view().qs()[c1.rules_view()[k].1.idx()].atoms()),
            c1.db_view().qs()[c1.rules_view()[k].1.idx()].atoms(),
            c1.db_view().qs()[c1.rules_view()[k].1.idx()].vars(),
            full,
        ) && #[trigger] head_match(
            c1.db_view().qs()[c1.rules_view()[k].1.idx()],
            c1.rules_view()[k].0,
            full,
            t,
        );
    let q = c1.db_view().qs()[c1.rules_view()[kw].1.idx()];
    assert(rule_ok(c1, kw));
    assert forall|j: int| 0 <= j < q.atoms().len() implies db::gj::rows_sat(
        query_rels(c2.db_view(), q.atoms())[j],
        (#[trigger] q.atoms()[j]).1,
        q.vars(),
        fw,
    ) by {
        assert(c1.db_view().has_rel(q.atoms()[j].0));
        assert(db::gj::rows_sat(
            query_rels(c1.db_view(), q.atoms())[j],
            q.atoms()[j].1,
            q.vars(),
            fw,
        ));
        lemma_rows_sat_monotone(
            c1.db_view().rel_rows(q.atoms()[j].0),
            c2.db_view().rel_rows(q.atoms()[j].0),
            q.atoms()[j].1,
            q.vars(),
            fw,
        );
    }
    assert(all_rows_sat(query_rels(c2.db_view(), q.atoms()), q.atoms(), q.vars(), fw));
    assert(c2.db_view().qs()[c2.rules_view()[kw].1.idx()] == q);
    assert(head_match(
        c2.db_view().qs()[c2.rules_view()[kw].1.idx()],
        c2.rules_view()[kw].0,
        fw,
        t,
    ));
}

/// A head that the driver must reject: not a single atom, or a constant term.
pub open spec fn rule_shape_bad(r: Rule) -> bool {
    r.head@.len() != 1 || exists|z: int|
        0 <= z < r.head@[0].terms@.len() && term_is_value(#[trigger] r.head@[0].terms@[z])
}

/// The rule's single head atom names `s`.
pub open spec fn rule_head_names(r: Rule, s: Symbol) -> bool {
    r.head@.len() == 1 && r.head@[0].relation == s
}

/// The rule's single head atom mentions the variable `x`.
pub open spec fn rule_head_var(r: Rule, x: Symbol) -> bool {
    r.head@.len() == 1 && exists|z: int|
        0 <= z < r.head@[0].terms@.len() && (#[trigger] r.head@[0].terms@[z]) == Term::Variable(x)
}

/// Some atom of the rule's body names `s`.
pub open spec fn rule_body_names(r: Rule, s: Symbol) -> bool {
    exists|j: int| 0 <= j < r.body.atoms@.len() && (#[trigger] r.body.atoms@[j]).relation == s
}

/// Some atom of the rule's body mentions the variable `x`.
pub open spec fn rule_body_has_var(r: Rule, x: Symbol) -> bool {
    exists|j: int|
        0 <= j < r.body.atoms@.len() && terms_have_var((#[trigger] r.body.atoms@[j]).terms@, x)
}

/// The rule's head width disagrees with the width the load declares for `s`:
/// the pre-existing relation's width, or the declaring schema's column count.
pub open spec fn head_width_clash(
    r: Rule,
    c0: DatalogContext,
    rels0: Seq<ast::Relation>,
    s: Symbol,
) -> bool {
    c0.db_view().has_rel(s) && r.head@[0].terms@.len() != c0.db_view().rel_of(s).width() || exists|
        j: int,
    |
        0 <= j < rels0.len() && (#[trigger] rels0[j]).symbol == s && r.head@[0].terms@.len()
            != rels0[j].schema.columns().len()
}

/// The declared names of a list of relation declarations.
pub open spec fn rel_syms(rs: Seq<ast::Relation>) -> Seq<Symbol> {
    rs.map(|_i: int, r: ast::Relation| r.symbol)
}

/// What a whole-program error points at: each variant demands the defect it
/// names really be there — a clashing declaration, a non-ground fact, a
/// malformed or unbound or misdeclared rule head, a name declared by neither
/// the context nor the program, a genuine width clash.
pub open spec fn program_fault(
    c0: DatalogContext,
    rels0: Seq<ast::Relation>,
    rules0: Seq<Rule>,
    facts: Seq<Atom>,
    directives: Seq<Directive>,
    e: Error,
) -> bool {
    match e {
        Error::DuplicateRelation(s) => (exists|i: int|
            0 <= i < rels0.len() && (#[trigger] rels0[i]).symbol == s) && (
        c0.db_view().has_rel(s) || exists|i: int, j: int|
            0 <= i < j < rels0.len() && (#[trigger] rels0[i]).symbol == s && (
            #[trigger] rels0[j]).symbol == s),
        Error::NonGroundFact(s) => exists|i: int|
            0 <= i < facts.len() && (#[trigger] facts[i]).relation == s && !terms_ground(
                facts[i].terms@,
            ),
        Error::BadRuleHead => (exists|k: int|
            0 <= k < c0.rules_view().len() && rule_shape_bad((#[trigger] c0.rules_view()[k]).0))
            || (exists|i: int|
            0 <= i < rules0.len() && rule_shape_bad(#[trigger] rules0[i])),
        Error::UnknownVariable(x) => (exists|k: int|
            0 <= k < c0.rules_view().len() && rule_head_var((#[trigger] c0.rules_view()[k]).0, x)
                && !rule_body_has_var(c0.rules_view()[k].0, x)) || (exists|i: int|
            0 <= i < rules0.len() && rule_head_var(#[trigger] rules0[i], x) && !rule_body_has_var(
                rules0[i],
                x,
            )),
        Error::NoSuchRelation(s) => !c0.db_view().has_rel(s) && !(exists|i: int|
            0 <= i < rels0.len() && (#[trigger] rels0[i]).symbol == s) && ((exists|i: int|
            0 <= i < facts.len() && (#[trigger] facts[i]).relation == s) || (exists|
            k: int,
        |
            0 <= k < c0.rules_view().len() && (rule_head_names((#[trigger] c0.rules_view()[k]).0, s)
                || rule_body_names(c0.rules_view()[k].0, s))) || (exists|i: int|
            0 <= i < rules0.len() && (rule_head_names(#[trigger] rules0[i], s)
                || rule_body_names(rules0[i], s))) || (exists|i: int|
            0 <= i < directives.len() && match #[trigger] directives[i] {
                Directive::AssertEq(a, b) => a == s || b == s,
            })),
        Error::ArityMismatch(s) => (exists|i: int|
            0 <= i < facts.len() && (#[trigger] facts[i]).relation == s && (c0.db_view().has_rel(s)
                && facts[i].terms@.len() != c0.db_view().rel_of(s).width() || exists|j: int|
                0 <= j < rels0.len() && (#[trigger] rels0[j]).symbol == s && facts[i].terms@.len()
                    != rels0[j].schema.columns().len())) || (exists|k: int|
            0 <= k < c0.rules_view().len() && rule_head_names((#[trigger] c0.rules_view()[k]).0, s)
                && head_width_clash(c0.rules_view()[k].0, c0, rels0, s)) || (exists|i: int|
            0 <= i < rules0.len() && rule_head_names(#[trigger] rules0[i], s) && head_width_clash(
                rules0[i],
                c0,
                rels0,
                s,
            )),
        Error::AssertNotEqual(a, b) => exists|i: int|
            0 <= i < directives.len() && (#[trigger] directives[i]) == Directive::AssertEq(a, b),
        _ => false,
    }
}

/// A name the fixed database lacks was declared by neither the context nor
/// the program.
proof fn lemma_undeclared_in_fixed(
    c0: DatalogContext,
    rels0: Seq<ast::Relation>,
    cfix: DatalogContext,
    fixed_names: Seq<Symbol>,
    s: Symbol,
)
    requires
        !cfix.db_view().has_rel(s),
        cfix.db_view().rel_names() == fixed_names,
        fixed_names =~= c0.db_view().rel_names() + rel_syms(rels0),
    ensures
        !c0.db_view().has_rel(s),
        !(exists|i: int| 0 <= i < rels0.len() && (#[trigger] rels0[i]).symbol == s),
{
    let nn0 = c0.db_view().rel_names().len() as int;
    if c0.db_view().has_rel(s) {
        let p = choose|p: int|
            0 <= p < c0.db_view().rel_names().len() && (#[trigger] c0.db_view().rel_names()[p])
                == s;
        assert(cfix.db_view().rel_names()[p] == s);
    }
    if exists|i: int| 0 <= i < rels0.len() && (#[trigger] rels0[i]).symbol == s {
        let i = choose|i: int| 0 <= i < rels0.len() && (#[trigger] rels0[i]).symbol == s;
        assert(rel_syms(rels0)[i] == s);
        assert(cfix.db_view().rel_names()[nn0 + i] == s);
    }
}

/// A configuration fault of the loaded context is a fault of the program or
/// of the context it was loaded into.
proof fn lemma_program_fault_from_config(
    c0: DatalogContext,
    centry: DatalogContext,
    rels0: Seq<ast::Relation>,
    rules0: Seq<Rule>,
    facts: Seq<Atom>,
    directives: Seq<Directive>,
    e: Error,
)
    requires
        centry.wf(),
        config_fault(centry, e),
        centry.rules_view().len() == c0.rules_view().len() + rules0.len(),
        forall|k: int|
            0 <= k < c0.rules_view().len() ==> #[trigger] centry.rules_view()[k]
                == c0.rules_view()[k],
        forall|i: int|
            0 <= i < rules0.len() ==> (#[trigger] centry.rules_view()[c0.rules_view().len() + i]).0
                == rules0[i],
        centry.db_view().rel_names() == c0.db_view().rel_names() + rel_syms(rels0),
        forall|s2: Symbol|
            c0.db_view().has_rel(s2) ==> #[trigger] centry.db_view().rel_of(s2).width()
                == c0.db_view().rel_of(s2).width(),
        forall|i: int|
            0 <= i < rels0.len() ==> centry.db_view().has_rel((#[trigger] rels0[i]).symbol)
                && centry.db_view().rel_of(rels0[i].symbol).width() == rels0[i].schema.columns().len(),
    ensures
        program_fault(c0, rels0, rules0, facts, directives, e),
{
    let n0 = c0.rules_view().len() as int;
    let nn0 = c0.db_view().rel_names().len() as int;
    assert(centry.db_view().rel_names().len() == nn0 + rels0.len());
    // a name declared in neither place is undeclared in the loaded context,
    // and the converse
    assert forall|s2: Symbol|
        !c0.db_view().has_rel(s2) && !(exists|i: int|
            0 <= i < rels0.len() && (#[trigger] rels0[i]).symbol == s2) implies !centry.db_view().has_rel(
        s2,
    ) by {
        if centry.db_view().has_rel(s2) {
            let p = choose|p: int|
                0 <= p < centry.db_view().rel_names().len() && (
                #[trigger] centry.db_view().rel_names()[p]) == s2;
            if p < nn0 {
                assert(c0.db_view().rel_names()[p] == s2);
            } else {
                assert(rel_syms(rels0)[p - nn0] == s2);
                assert(rels0[p - nn0].symbol == s2);
            }
        }
    }
    assert forall|s2: Symbol| centry.db_view().has_rel(s2) implies c0.db_view().has_rel(s2) || (
    exists|i: int| 0 <= i < rels0.len() && (#[trigger] rels0[i]).symbol == s2) by {
        let p = choose|p: int|
            0 <= p < centry.db_view().rel_names().len() && (
            #[trigger] centry.db_view().rel_names()[p]) == s2;
        if p < nn0 {
            assert(c0.db_view().rel_names()[p] == s2);
        } else {
            assert(rel_syms(rels0)[p - nn0] == s2);
            assert(rels0[p - nn0].symbol == s2);
        }
    }
    match e {
        Error::BadRuleHead => {
            let k = choose|k: int|
                0 <= k < centry.rules_view().len() && rule_shape_bad(
                    (#[trigger] centry.rules_view()[k]).0,
                );
            if k < n0 {
                assert(rule_shape_bad(c0.rules_view()[k].0));
            } else {
                assert(centry.rules_view()[n0 + (k - n0)].0 == rules0[k - n0]);
                assert(rule_shape_bad(rules0[k - n0]));
            }
        },
        Error::UnknownVariable(x) => {
            let (k, z) = choose|k: int, z: int|
                0 <= k < centry.rules_view().len() && centry.rules_view()[k].0.head@.len() == 1 && 0
                    <= z < centry.rules_view()[k].0.head@[0].terms@.len() && (
                #[trigger] centry.rules_view()[k].0.head@[0].terms@[z]) == Term::Variable(x)
                    && !seq_has(
                    centry.db_view().qs()[centry.rules_view()[k].1.idx()].vars(),
                    x,
                );
            assert(rule_head_var(centry.rules_view()[k].0, x));
            assert(!rule_body_has_var(centry.rules_view()[k].0, x)) by {
                if rule_body_has_var(centry.rules_view()[k].0, x) {
                    let j = choose|j: int|
                        0 <= j < centry.rules_view()[k].0.body.atoms@.len() && terms_have_var(
                            (#[trigger] centry.rules_view()[k].0.body.atoms@[j]).terms@,
                            x,
                        );
                    let q = centry.db_view().qs()[centry.rules_view()[k].1.idx()];
                    assert(q.atoms() == atoms_view(centry.rules_view()[k].0.body.atoms@));
                    assert(q.atoms()[j] == ast::atom_view(centry.rules_view()[k].0.body.atoms@[j]));
                    assert(q.wf());
                    let z2 = choose|z2: int|
                        0 <= z2 < centry.rules_view()[k].0.body.atoms@[j].terms@.len() && (
                        centry.rules_view()[k].0.body.atoms@[j].terms@)[z2] == Term::Variable(x);
                    assert(db::gj::vars_cover_terms(q.vars(), q.atoms()[j].1));
                    assert(q.vars().contains(x));
                    let w = choose|w: int| 0 <= w < q.vars().len() && q.vars()[w] == x;
                    assert(seq_has(q.vars(), x));
                }
            }
            if k < n0 {
                assert(rule_head_var(c0.rules_view()[k].0, x));
                assert(!rule_body_has_var(c0.rules_view()[k].0, x));
            } else {
                assert(centry.rules_view()[n0 + (k - n0)].0 == rules0[k - n0]);
                assert(rule_head_var(rules0[k - n0], x));
                assert(!rule_body_has_var(rules0[k - n0], x));
            }
        },
        Error::NoSuchRelation(sy) => {
            assert(!centry.db_view().has_rel(sy));
            assert(!c0.db_view().has_rel(sy) && !(exists|i: int|
                0 <= i < rels0.len() && (#[trigger] rels0[i]).symbol == sy)) by {
                if c0.db_view().has_rel(sy) {
                    let p = choose|p: int|
                        0 <= p < c0.db_view().rel_names().len() && (
                        #[trigger] c0.db_view().rel_names()[p]) == sy;
                    assert(centry.db_view().rel_names()[p] == sy);
                }
                if exists|i: int| 0 <= i < rels0.len() && (#[trigger] rels0[i]).symbol == sy {
                    let i = choose|i: int|
                        0 <= i < rels0.len() && (#[trigger] rels0[i]).symbol == sy;
                    assert(centry.db_view().has_rel(rels0[i].symbol));
                }
            }
            if exists|k: int|
                0 <= k < centry.rules_view().len() && (#[trigger] centry.rules_view()[k]).0.head@.len()
                    == 1 && centry.rules_view()[k].0.head@[0].relation == sy {
                let k = choose|k: int|
                    0 <= k < centry.rules_view().len() && (#[trigger] centry.rules_view()[k]).0.head@.len()
                        == 1 && centry.rules_view()[k].0.head@[0].relation == sy;
                assert(rule_head_names(centry.rules_view()[k].0, sy));
                if k < n0 {
                    assert(rule_head_names(c0.rules_view()[k].0, sy));
                } else {
                    assert(centry.rules_view()[n0 + (k - n0)].0 == rules0[k - n0]);
                    assert(rule_head_names(rules0[k - n0], sy));
                }
            } else {
                let (k, j) = choose|k: int, j: int|
                    0 <= k < centry.rules_view().len() && 0 <= j
                        < centry.db_view().qs()[centry.rules_view()[k].1.idx()].atoms().len() && (
                    #[trigger] centry.db_view().qs()[centry.rules_view()[k].1.idx()].atoms()[j]).0
                        == sy;
                assert(centry.db_view().qs()[centry.rules_view()[k].1.idx()].atoms()
                    == atoms_view(centry.rules_view()[k].0.body.atoms@));
                assert(atoms_view(centry.rules_view()[k].0.body.atoms@)[j] == ast::atom_view(
                    centry.rules_view()[k].0.body.atoms@[j],
                ));
                assert(centry.rules_view()[k].0.body.atoms@[j].relation == sy);
                assert(rule_body_names(centry.rules_view()[k].0, sy));
                if k < n0 {
                    assert(rule_body_names(c0.rules_view()[k].0, sy));
                } else {
                    assert(centry.rules_view()[n0 + (k - n0)].0 == rules0[k - n0]);
                    assert(rule_body_names(rules0[k - n0], sy));
                }
            }
        },
        Error::ArityMismatch(sy) => {
            let k = choose|k: int|
                0 <= k < centry.rules_view().len() && (#[trigger] centry.rules_view()[k]).0.head@.len()
                    == 1 && centry.rules_view()[k].0.head@[0].relation == sy
                    && centry.db_view().rel_of(sy).width()
                    != centry.rules_view()[k].0.head@[0].terms@.len();
            assert(rule_head_names(centry.rules_view()[k].0, sy));
            assert(head_width_clash(centry.rules_view()[k].0, c0, rels0, sy)) by {
                assert(centry.db_view().has_rel(sy));
                if c0.db_view().has_rel(sy) {
                    assert(centry.db_view().rel_of(sy).width() == c0.db_view().rel_of(sy).width());
                } else {
                    let i = choose|i: int|
                        0 <= i < rels0.len() && (#[trigger] rels0[i]).symbol == sy;
                    assert(centry.db_view().rel_of(sy).width() == rels0[i].schema.columns().len());
                }
            }
            if k < n0 {
                assert(rule_head_names(c0.rules_view()[k].0, sy));
                assert(head_width_clash(c0.rules_view()[k].0, c0, rels0, sy));
            } else {
                assert(centry.rules_view()[n0 + (k - n0)].0 == rules0[k - n0]);
                assert(rule_head_names(rules0[k - n0], sy));
                assert(head_width_clash(rules0[k - n0], c0, rels0, sy));
            }
        },
        _ => {},
    }
}

/// A chain of full passes: each context keeps the rules, grows the database
/// monotonically, and adds only tuples some rule derives from the state
/// before.  Whatever stands at the end of such a chain is derivable from its
/// start in finitely many passes — no self-justified tuple can enter.
pub open spec fn pass_chain(chain: Seq<DatalogContext>) -> bool {
    forall|i: int|
        0 <= i < chain.len() - 1 ==> (#[trigger] chain[i + 1]).rules_view() == chain[i].rules_view()
            && grows_to(chain[i].db_view(), chain[i + 1].db_view()) && only_derived(
            chain[i],
            chain[i + 1].db_view(),
        )
}

/// The facts of a program set-inserted into one relation's rows, in program
/// order: the baseline contents a run starts from.
pub open spec fn spec_insert_facts(rows: Seq<Seq<Value>>, facts: Seq<Atom>, s: Symbol) -> Seq<
    Seq<Value>,
>
    decreases facts.len(),
{
    if facts.len() == 0 {
        rows
    } else if facts.last().relation == s {
        spec_insert(
            spec_insert_facts(rows, facts.drop_last(), s),
            ground_values(facts.last().terms@),
        )
    } else {
        spec_insert_facts(rows, facts.drop_last(), s)
    }
}

/// Inserting facts only appends.
pub proof fn lemma_insert_facts_prefix(rows: Seq<Seq<Value>>, facts: Seq<Atom>, s: Symbol)
    ensures
        rows.is_prefix_of(spec_insert_facts(rows, facts, s)),
    decreases facts.len(),
{
    if facts.len() > 0 {
        lemma_insert_facts_prefix(rows, facts.drop_last(), s);
        if facts.last().relation == s {
            lemma_prefix_of_insert(
                spec_insert_facts(rows, facts.drop_last(), s),
                ground_values(facts.last().terms@),
            );
            lemma_prefix_trans(
                rows,
                spec_insert_facts(rows, facts.drop_last(), s),
                spec_insert_facts(rows, facts, s),
            );
        }
    }
}

/// The fixpoint driver: a database plus the rules bound to their compiled
/// bodies.  Populate it, then run it to saturation.
pub struct DatalogContext {
    db: Database,
    rules: Vec<(Rule, QueryHandle)>,
}

impl DatalogContext {
    /// The owned database.
    pub closed spec fn db_view(self) -> Database {
        self.db
    }

    /// The registered rules with their body handles, in registration order.
    pub closed spec fn rules_view(self) -> Seq<(Rule, QueryHandle)> {
        self.rules@
    }

    /// The database is well formed and every rule's handle points at the
    /// compilation of that rule's body.
    pub open spec fn wf(self) -> bool {
        &&& self.db_view().wf()
        &&& forall|k: int|
            0 <= k < self.rules_view().len() ==> 0 <= (#[trigger] self.rules_view()[k]).1.idx()
                < self.db_view().qs().len() && self.db_view().qs()[self.rules_view()[k].1.idx()].atoms()
                == atoms_view(self.rules_view()[k].0.body.atoms@)
    }

    /// An empty context.
    pub fn new() -> (r: DatalogContext)
        ensures
            r.wf(),
            r.rules_view().len() == 0,
            r.db_view().rels().len() == 0,
            r.db_view().qs().len() == 0,
    {
        DatalogContext { db: Database::new(), rules: Vec::new() }
    }

    /// Registers a rule: compiles its body immediately and remembers the
    /// handle.  The rule's head is not validated until it fires.
    pub fn add_rule(&mut self, rule: Rule)
        requires
            old(self).wf(),
        ensures
            final(self).wf(),
            final(self).db_view().rels() == old(self).db_view().rels(),
            final(self).rules_view().len() == old(self).rules_view().len() + 1,
            forall|k: int|
                0 <= k < old(self).rules_view().len() ==> final(self).rules_view()[k] == old(self).rules_view()[k],
            final(self).rules_view().last().0 == rule,
    {
        let body = rule.body.duplicate();
        let h = self.db.add_query(body);
        self.rules.push((rule, h));
        proof {
            assert forall|k: int| 0 <= k < self.rules_view().len() implies 0 <= (
            #[trigger] self.rules_view()[k]).1.idx() < self.db_view().qs().len()
                && self.db_view().qs()[self.rules_view()[k].1.idx()].atoms() == atoms_view(
                self.rules_view()[k].0.body.atoms@,
            ) by {
                if k < old(self).rules_view().len() {
                    assert(self.rules_view()[k] == old(self).rules_view()[k]);
                    assert(self.db_view().qs()[self.rules_view()[k].1.idx()] == old(self).db_view().qs()[self.rules_view()[k].1.idx()]);
                } else {
                    assert(self.rules_view()[k] == self.rules_view().last());
                }
            }
        }
    }

    /// Inserts a ground atom as a tuple; fails fast on a variable, an
    /// undeclared relation, or a width mismatch.
    #[verifier::loop_isolation(false)]
    pub fn add_fact(&mut self, fact: &Atom) -> (r: Result<(), Error>)
        requires
            old(self).wf(),
        ensures
            final(self).wf(),
            final(self).rules_view() == old(self).rules_view(),
            grows_to(old(self).db_view(), final(self).db_view()),
            match r {
                Ok(_) => terms_ground(fact.terms@) && old(self).db_view().has_rel(fact.relation)
                    && fact.terms@.len() == old(self).db_view().rel_of(fact.relation).width()
                    && final(self).db_view().rel_rows(fact.relation) == spec_insert(
                    old(self).db_view().rel_rows(fact.relation),
                    ground_values(fact.terms@),
                ) && seq_has(
                    final(self).db_view().rel_rows(fact.relation),
                    ground_values(fact.terms@),
                ) && forall|s2: Symbol|
                    s2 != fact.relation && old(self).db_view().has_rel(s2) ==> final(self).db_view().rel_of(s2) == old(self).db_view().rel_of(s2),
                Err(e) => *final(self) == *old(self) && (e == Error::NonGroundFact(fact.relation)
                    && !terms_ground(fact.terms@) || terms_ground(fact.terms@) && (e
                    == Error::NoSuchRelation(fact.relation) && !old(self).db_view().has_rel(
                    fact.relation,
                ) || e == Error::ArityMismatch(fact.relation) && old(self).db_view().has_rel(
                    fact.relation,
                ) && fact.terms@.len() != old(self).db_view().rel_of(fact.relation).width())),
            },
    {
        let nt = fact.terms.len();
        let mut values: Vec<Value> = Vec::new();
        let mut i: usize = 0;
        while i < nt
            invariant
                i <= nt,
                nt == fact.terms@.len(),
                values@ =~= ground_values(fact.terms@.take(i as int)),
                forall|q: int| 0 <= q < i ==> term_is_value(#[trigger] fact.terms@[q]),
            decreases nt - i,
        {
            match &fact.terms[i] {
                Term::Value(v) => {
                    values.push(*v);
                    proof {
                        assert(values@ =~= ground_values(fact.terms@.take(i + 1 as int)));
                    }
                },
                Term::Variable(_) => {
                    return Err(Error::NonGroundFact(fact.relation));
                },
            }
            i += 1;
        }
        proof {
            assert(fact.terms@.take(nt as int) =~= fact.terms@);
            assert(values@ =~= ground_values(fact.terms@));
            assert(terms_ground(fact.terms@));
        }
        let r = self.db.insert_tuple(fact.relation, values.as_slice());
        proof {
            lemma_wf_preserved(*old(self), *self);
            if r is Ok {
                lemma_prefix_of_insert(
                    old(self).db_view().rel_rows(fact.relation),
                    ground_values(fact.terms@),
                );
            }
        }
        r
    }

    /// Declares an empty relation with the declaration's name and arity.
    pub fn add_relation(&mut self, relation: ast::Relation) -> (r: Result<(), Error>)
        requires
            old(self).wf(),
        ensures
            final(self).wf(),
            final(self).rules_view() == old(self).rules_view(),
            final(self).db_view().qs() == old(self).db_view().qs(),
            match r {
                Ok(_) => !old(self).db_view().has_rel(relation.symbol) && final(self).db_view().has_rel(relation.symbol) && final(self).db_view().rel_of(
                    relation.symbol,
                ).rows().len() == 0 && final(self).db_view().rel_of(relation.symbol).width()
                    == relation.schema.columns().len() && final(self).db_view().rel_names() == old(self).db_view().rel_names().push(relation.symbol) && forall|s2: Symbol|
                    s2 != relation.symbol && old(self).db_view().has_rel(s2) ==> final(self).db_view().has_rel(s2) && final(self).db_view().rel_of(s2) == old(self).db_view().rel_of(s2),
                Err(e) => e == Error::DuplicateRelation(relation.symbol) && old(self).db_view().has_rel(relation.symbol) && *final(self) == *old(self),
            },
    {
        let arity = relation.schema.len();
        let r = self.db.add_relation(relation.symbol, arity);
        proof {
            lemma_wf_preserved(*old(self), *self);
        }
        r
    }

    /// Inserts every `arity`-wide chunk of a flat buffer into a relation.
    #[verifier::loop_isolation(false)]
    pub fn insert_many(&mut self, relation: Symbol, tuples: &[Value]) -> (r: Result<(), Error>)
        requires
            old(self).wf(),
        ensures
            final(self).wf(),
            final(self).rules_view() == old(self).rules_view(),
            grows_to(old(self).db_view(), final(self).db_view()),
            match r {
                Ok(_) => old(self).db_view().has_rel(relation) && old(self).db_view().rel_of(
                    relation,
                ).width() >= 1 && tuples@.len() as int % old(self).db_view().rel_of(
                    relation,
                ).width() == 0 && final(self).db_view().rel_rows(relation) == spec_insert_chunks(
                    old(self).db_view().rel_rows(relation),
                    tuples@,
                    old(self).db_view().rel_of(relation).width(),
                ) && forall|s2: Symbol|
                    s2 != relation && old(self).db_view().has_rel(s2) ==> final(self).db_view().rel_of(s2) == old(self).db_view().rel_of(s2),
                Err(e) => *final(self) == *old(self) && (e == Error::NoSuchRelation(relation)
                    && !old(self).db_view().has_rel(relation) || e == Error::ArityMismatch(
                    relation,
                ) && old(self).db_view().has_rel(relation) && (old(self).db_view().rel_of(
                    relation,
                ).width() < 1 || tuples@.len() as int % old(self).db_view().rel_of(
                    relation,
                ).width() != 0)),
            },
    {
        let r = self.db.insert_flat(relation, tuples);
        proof {
            lemma_wf_preserved(*old(self), *self);
            if r is Ok {
                lemma_chunks_prefix(
                    old(self).db_view().rel_rows(relation),
                    tuples@,
                    old(self).db_view().rel_of(relation).width(),
                );
            }
        }
        r
    }

    /// The current tuples of a relation, each as a fixed-size array; fails on
    /// an undeclared name or the wrong arity.  Extraction hands the tuples
    /// back as values rather than driving a caller's callback over them:
    /// Verus does not accept closures that capture mutably, which such a
    /// callback would need to accumulate anything.
    #[verifier::loop_isolation(false)]
    pub fn collect<const N: usize>(&self, relation: Symbol) -> (r: Result<Vec<[Value; N]>, Error>)
        requires
            self.wf(),
        ensures
            match r {
                Ok(rows) => self.db_view().has_rel(relation) && self.db_view().rel_of(
                    relation,
                ).width() == N && rows@.len() == self.db_view().rel_rows(relation).len() && forall|
                    p: int,
                |
                    0 <= p < rows@.len() ==> (#[trigger] rows@[p])@ == self.db_view().rel_rows(
                        relation,
                    )[p],
                Err(e) => e == Error::NoSuchRelation(relation) && !self.db_view().has_rel(relation)
                    || e == Error::ArityMismatch(relation) && self.db_view().has_rel(relation)
                    && self.db_view().rel_of(relation).width() != N,
            },
    {
        let rel = match self.db.get_relation(relation) {
            Ok(rel) => rel,
            Err(e) => {
                return Err(e);
            },
        };
        if rel.arity() != N {
            return Err(Error::ArityMismatch(relation));
        }
        let n = rel.len();
        let mut rows: Vec<[Value; N]> = Vec::new();
        let mut i: usize = 0;
        while i < n
            invariant
                i <= n,
                n == rel.rows().len(),
                rel.wf(),
                rel.width() == N,
                rows@.len() == i,
                forall|p: int| 0 <= p < i ==> (#[trigger] rows@[p])@ == rel.rows()[p],
            decreases n - i,
        {
            let row = rel.row_at(i);
            let w = row.len();
            let mut copy: Vec<Value> = Vec::new();
            let mut k: usize = 0;
            while k < w
                invariant
                    k <= w,
                    w == row@.len(),
                    copy@ =~= row@.subrange(0, k as int),
                decreases w - k,
            {
                copy.push(row[k]);
                proof {
                    assert(copy@ =~= row@.subrange(0, k + 1 as int));
                }
                k += 1;
            }
            proof {
                assert(copy@ =~= row@);
            }
            rows.push(vec_to_array(copy));
            i += 1;
        }
        Ok(rows)
    }

    /// One full pass: evaluates every rule body against the current database,
    /// then projects each substitution onto the rule's head variables and
    /// inserts the resulting tuples.  Returns how many distinct tuples were
    /// new.  A malformed rule head or a dangling reference fails the pass.
    #[verifier::loop_isolation(false)]
    pub fn step(&mut self) -> (r: Result<usize, Error>)
        requires
            old(self).wf(),
        ensures
            final(self).wf(),
            final(self).rules_view() == old(self).rules_view(),
            grows_to(old(self).db_view(), final(self).db_view()),
            match r {
                Ok(n) => n == total_size(final(self).db_view()) - total_size(old(self).db_view())
                    && (n == 0 ==> forall|s: Symbol|
                    old(self).db_view().has_rel(s) ==> #[trigger] final(self).db_view().rel_rows(s)
                        == old(self).db_view().rel_rows(s)) && (saturated(*old(self)) ==> n == 0)
                    && (n == 0 ==> saturated(*old(self))) && (forall|k: int|
                    0 <= k < old(self).rules_view().len() ==> rule_ok(*old(self), k))
                    && derivations_stored(*old(self), final(self).db_view()) && only_derived(
                    *old(self),
                    final(self).db_view(),
                ) && (forall|s: Symbol|
                    old(self).db_view().has_rel(s) && (forall|k: int|
                        0 <= k < old(self).rules_view().len() ==> !((
                        #[trigger] old(self).rules_view()[k]).0.head@.len() == 1 && old(self).rules_view()[k].0.head@[0].relation == s)) ==> #[trigger] final(self).db_view().rel_rows(s) == old(self).db_view().rel_rows(s)),
                Err(e) => config_fault(*old(self), e) || e == Error::CountOverflow && total_size(
                    final(self).db_view(),
                ) > usize::MAX,
            },
    {
        let ghost selfold = *old(self);
        let nr = self.rules.len();
        // evaluate every body against the same snapshot, as one batch
        let mut all_substs: Vec<Vec<Vec<Value>>> = Vec::new();
        let mut k: usize = 0;
        while k < nr
            invariant
                k <= nr,
                nr == self.rules_view().len(),
                all_substs@.len() == k,
                forall|kk: int|
                    0 <= kk < k ==> eval_ok(
                        self.db_view(),
                        self.db_view().qs()[self.rules_view()[kk].1.idx()],
                        rows_view((#[trigger] all_substs@[kk])@),
                    ),
            decreases nr - k,
        {
            let qh = self.rules[k].1;
            proof {
                assert(qh == self.rules_view()[k as int].1);
                assert(0 <= qh.idx() < self.db_view().qs().len());
            }
            match self.db.eval_query(qh) {
                Ok(s) => {
                    all_substs.push(s);
                },
                Err(e) => {
                    proof {
                        assert(*self == selfold);
                        let jj = choose|j: int|
                            0 <= j < self.db_view().qs()[qh.idx()].atoms().len()
                                && !self.db_view().has_rel(
                                (#[trigger] self.db_view().qs()[qh.idx()].atoms()[j]).0,
                            ) && e == Error::NoSuchRelation(
                                self.db_view().qs()[qh.idx()].atoms()[j].0,
                            );
                        assert(config_fault(selfold, e));
                    }
                    return Err(e);
                },
            }
            k += 1;
        }
        // project and insert, rule by rule
        let mut additions: usize = 0;
        let mut k2: usize = 0;
        while k2 < nr
            invariant
                k2 <= nr,
                nr == self.rules_view().len(),
                all_substs@.len() == nr,
                self.wf(),
                self.rules_view() == old(self).rules_view(),
                grows_to(old(self).db_view(), self.db_view()),
                additions == total_size(self.db_view()) - total_size(old(self).db_view()),
                forall|kk: int|
                    0 <= kk < nr ==> eval_ok(
                        old(self).db_view(),
                        old(self).db_view().qs()[self.rules_view()[kk].1.idx()],
                        rows_view((#[trigger] all_substs@[kk])@),
                    ),
                selfold == *old(self),
                forall|kk: int|
                    0 <= kk < k2 ==> selfold.db_view().has_rel(
                        (#[trigger] self.rules_view()[kk]).0.head@[0].relation,
                    ),
                forall|kk: int, full: Seq<Value>, tuple: Seq<Value>|
                    0 <= kk < k2 && seq_has(rows_view(all_substs@[kk]@), full) && #[trigger] head_match(
                        selfold.db_view().qs()[self.rules_view()[kk].1.idx()],
                        self.rules_view()[kk].0,
                        full,
                        tuple,
                    ) ==> seq_has(
                        self.db_view().rel_rows(self.rules_view()[kk].0.head@[0].relation),
                        tuple,
                    ),
                saturated(selfold) ==> total_size(self.db_view()) == total_size(
                    selfold.db_view(),
                ),
                forall|kk: int| 0 <= kk < k2 ==> rule_ok(selfold, kk),
                only_derived(selfold, self.db_view()),
            decreases nr - k2,
        {
            let qh = self.rules[k2].1;
            let ghost q = self.db_view().qs()[qh.idx()];
            if self.rules[k2].0.head.len() != 1 {
                proof {
                    assert(selfold.rules_view()[k2 as int].0.head@.len() != 1);
                    assert(config_fault(selfold, Error::BadRuleHead));
                }
                return Err(Error::BadRuleHead);
            }
            // the head must be all variables
            let nt = self.rules[k2].0.head[0].terms.len();
            let mut vars: Vec<Symbol> = Vec::new();
            let mut i: usize = 0;
            while i < nt
                invariant
                    i <= nt,
                    nt == self.rules_view()[k2 as int].0.head@[0].terms@.len(),
                    vars@.len() == i,
                    forall|z: int|
                        0 <= z < i ==> self.rules_view()[k2 as int].0.head@[0].terms@[z]
                            == Term::Variable(#[trigger] vars@[z]),
                decreases nt - i,
            {
                match &self.rules[k2].0.head[0].terms[i] {
                    Term::Variable(v) => {
                        vars.push(*v);
                    },
                    Term::Value(_) => {
                        proof {
                            assert(term_is_value(
                                selfold.rules_view()[k2 as int].0.head@[0].terms@[i as int],
                            ));
                            assert(config_fault(selfold, Error::BadRuleHead));
                        }
                        return Err(Error::BadRuleHead);
                    },
                }
                i += 1;
            }
            proof {
                assert(qh == self.rules_view()[k2 as int].1);
                assert(0 <= qh.idx() < self.db_view().qs().len());
            }
            let idxs = match self.db.get_indexes(qh, vars.as_slice()) {
                Ok(x) => x,
                Err(e) => {
                    proof {
                        assert(self.db_view().qs() == selfold.db_view().qs());
                        let ii = choose|i: int|
                            0 <= i < vars@.len() && e == Error::UnknownVariable(
                                #[trigger] vars@[i],
                            ) && !seq_has(self.db_view().qs()[qh.idx()].vars(), vars@[i]);
                        assert(selfold.rules_view()[k2 as int].0.head@[0].terms@[ii]
                            == Term::Variable(vars@[ii]));
                        assert(config_fault(selfold, e));
                    }
                    return Err(e);
                },
            };
            let rel_sym = self.rules[k2].0.head[0].relation;
            proof {
                assert(rel_sym == selfold.rules_view()[k2 as int].0.head@[0].relation);
            }
            let w = match self.db.get_relation(rel_sym) {
                Ok(rel) => rel.arity(),
                Err(e) => {
                    proof {
                        assert(!selfold.db_view().has_rel(rel_sym));
                        assert(config_fault(selfold, e));
                    }
                    return Err(e);
                },
            };
            if w != idxs.len() {
                proof {
                    assert(selfold.db_view().has_rel(rel_sym));
                    assert(self.db_view().rel_of(rel_sym).width() == selfold.db_view().rel_of(
                        rel_sym,
                    ).width());
                    assert(selfold.db_view().rel_of(rel_sym).width()
                        != selfold.rules_view()[k2 as int].0.head@[0].terms@.len());
                    assert(config_fault(selfold, Error::ArityMismatch(rel_sym)));
                }
                return Err(Error::ArityMismatch(rel_sym));
            }
            let before = match self.db.rel_len(rel_sym) {
                Ok(n) => n,
                Err(e) => {
                    proof {
                        assert(false);
                    }
                    return Err(e);
                },
            };
            let ghost dbb = self.db_view();
            let substs = &all_substs[k2];
            let ns = substs.len();
            proof {
                assert(qh == self.rules_view()[k2 as int].1);
                assert(self.db_view().qs() == old(self).db_view().qs());
                assert(q == old(self).db_view().qs()[qh.idx()]);
                assert(eval_ok(
                    old(self).db_view(),
                    q,
                    rows_view(all_substs@[k2 as int]@),
                ));
                assert forall|pp: int|
                    0 <= pp < substs@.len() implies (#[trigger] substs@[pp])@.len()
                    == q.vars().len() by {
                    assert(rows_view(all_substs@[k2 as int]@)[pp] == substs@[pp]@);
                }
            }
            let mut p: usize = 0;
            while p < ns
                invariant
                    p <= ns,
                    ns == substs@.len(),
                    substs@ == all_substs@[k2 as int]@,
                    self.wf(),
                    dbb.wf(),
                    dbb.has_rel(rel_sym),
                    dbb.rel_of(rel_sym).width() == w,
                    w == idxs@.len(),
                    forall|z: int| 0 <= z < idxs@.len() ==> (#[trigger] idxs@[z]) < q.vars().len(),
                    forall|pp: int|
                        0 <= pp < substs@.len() ==> (#[trigger] substs@[pp])@.len()
                            == q.vars().len(),
                    self.rules_view() == old(self).rules_view(),
                    self.db_view().rel_names() == dbb.rel_names(),
                    self.db_view().qs() == dbb.qs(),
                    self.db_view().has_rel(rel_sym),
                    self.db_view().rel_of(rel_sym).width() == w,
                    dbb.rel_of(rel_sym).rows().is_prefix_of(self.db_view().rel_of(rel_sym).rows()),
                    forall|s2: Symbol|
                        s2 != rel_sym && dbb.has_rel(s2) ==> #[trigger] self.db_view().rel_of(s2)
                            == dbb.rel_of(s2),
                    grows_to(selfold.db_view(), self.db_view()),
                    rel_sym == self.rules_view()[k2 as int].0.head@[0].relation,
                    self.rules_view()[k2 as int].0.head@.len() == 1,
                    q.wf(),
                    vars@.len() == self.rules_view()[k2 as int].0.head@[0].terms@.len(),
                    forall|z: int|
                        0 <= z < vars@.len() ==> self.rules_view()[k2 as int].0.head@[0].terms@[z]
                            == Term::Variable(#[trigger] vars@[z]),
                    forall|z: int|
                        0 <= z < idxs@.len() ==> q.vars()[(#[trigger] idxs@[z]) as int]
                            == vars@[z],
                    forall|kk: int, full: Seq<Value>, tuple: Seq<Value>|
                        0 <= kk < k2 && seq_has(rows_view(all_substs@[kk]@), full)
                            && #[trigger] head_match(
                            selfold.db_view().qs()[self.rules_view()[kk].1.idx()],
                            self.rules_view()[kk].0,
                            full,
                            tuple,
                        ) ==> seq_has(
                            self.db_view().rel_rows(self.rules_view()[kk].0.head@[0].relation),
                            tuple,
                        ),
                    forall|pp: int, tuple: Seq<Value>|
                        0 <= pp < p && #[trigger] head_match(
                            q,
                            self.rules_view()[k2 as int].0,
                            substs@[pp]@,
                            tuple,
                        ) ==> seq_has(self.db_view().rel_rows(rel_sym), tuple),
                    saturated(selfold) ==> self.db_view().rel_of(rel_sym).rows() == dbb.rel_of(
                        rel_sym,
                    ).rows(),
                    only_derived(selfold, self.db_view()),
                decreases ns - p,
            {
                let row = &substs[p];
                let ni = idxs.len();
                let mut tuple: Vec<Value> = Vec::new();
                let mut z: usize = 0;
                while z < ni
                    invariant
                        z <= ni,
                        ni == idxs@.len(),
                        row@ == substs@[p as int]@,
                        p < substs@.len(),
                        forall|zz: int|
                            0 <= zz < idxs@.len() ==> (#[trigger] idxs@[zz]) < q.vars().len(),
                        row@.len() == q.vars().len(),
                        tuple@.len() == z,
                        forall|zz: int|
                            0 <= zz < z ==> #[trigger] tuple@[zz] == row@[idxs@[zz] as int],
                    decreases ni - z,
                {
                    tuple.push(row[idxs[z]]);
                    z += 1;
                }
                let ghost dmid = self.db_view();
                let ghost cmid = *self;
                match self.db.insert_tuple(rel_sym, tuple.as_slice()) {
                    Ok(_) => {},
                    Err(e) => {
                        proof {
                            assert(false);
                        }
                        return Err(e);
                    },
                }
                proof {
                    lemma_wf_preserved(cmid, *self);
                    lemma_prefix_of_insert(dmid.rel_of(rel_sym).rows(), tuple@);
                    lemma_prefix_trans(
                        dbb.rel_of(rel_sym).rows(),
                        dmid.rel_of(rel_sym).rows(),
                        self.db_view().rel_of(rel_sym).rows(),
                    );
                    let rulev = self.rules_view()[k2 as int].0;
                    let full = substs@[p as int]@;
                    assert(full == row@);
                    // the inserted tuple is exactly what the head demands
                    assert(head_match(q, rulev, full, tuple@)) by {
                        assert forall|z: int|
                            0 <= z < tuple@.len() implies match #[trigger] rulev.head@[0].terms@[z] {
                            Term::Variable(x) => exists|i: int|
                                0 <= i < q.vars().len() && q.vars()[i] == x && #[trigger] full[i]
                                    == tuple@[z],
                            Term::Value(_) => false,
                        } by {
                            assert(rulev.head@[0].terms@[z] == Term::Variable(vars@[z]));
                            let i = idxs@[z] as int;
                            assert(0 <= i < q.vars().len() && q.vars()[i] == vars@[z] && full[i]
                                == tuple@[z]);
                        }
                    }
                    // and the only tuple it can demand
                    assert forall|tuple2: Seq<Value>|
                        head_match(q, rulev, full, tuple2) implies tuple2 == tuple@ by {
                        assert forall|z: int|
                            0 <= z < tuple2.len() implies tuple2[z] == tuple@[z] by {
                            assert(rulev.head@[0].terms@[z] == Term::Variable(vars@[z]));
                            let i2 = choose|i: int|
                                0 <= i < q.vars().len() && q.vars()[i] == vars@[z] && #[trigger] full[i]
                                    == tuple2[z];
                            let i1 = idxs@[z] as int;
                            if i1 < i2 {
                                assert(q.vars()[i1] != q.vars()[i2]);
                            } else if i2 < i1 {
                                assert(q.vars()[i2] != q.vars()[i1]);
                            }
                        }
                        assert(tuple2 =~= tuple@);
                    }
                    assert(seq_has(self.db_view().rel_rows(rel_sym), tuple@)) by {
                        assert(self.db_view().rel_rows(rel_sym) == spec_insert(
                            dmid.rel_rows(rel_sym),
                            tuple@,
                        ));
                    }
                    // this rule's earlier substitutions stay covered
                    assert forall|pp: int, tuple2: Seq<Value>|
                        0 <= pp < p + 1 && #[trigger] head_match(
                            q,
                            self.rules_view()[k2 as int].0,
                            substs@[pp]@,
                            tuple2,
                        ) implies seq_has(self.db_view().rel_rows(rel_sym), tuple2) by {
                        if pp < p {
                            assert(seq_has(dmid.rel_rows(rel_sym), tuple2));
                            lemma_prefix_has(
                                dmid.rel_rows(rel_sym),
                                self.db_view().rel_rows(rel_sym),
                                tuple2,
                            );
                        } else {
                            assert(tuple2 == tuple@);
                        }
                    }
                    // earlier rules' coverage survives the growth
                    assert forall|kk: int, full2: Seq<Value>, tuple2: Seq<Value>|
                        0 <= kk < k2 && seq_has(rows_view(all_substs@[kk]@), full2)
                            && #[trigger] head_match(
                            selfold.db_view().qs()[self.rules_view()[kk].1.idx()],
                            self.rules_view()[kk].0,
                            full2,
                            tuple2,
                        ) implies seq_has(
                        self.db_view().rel_rows(self.rules_view()[kk].0.head@[0].relation),
                        tuple2,
                    ) by {
                        let hs = self.rules_view()[kk].0.head@[0].relation;
                        assert(seq_has(dmid.rel_rows(hs), tuple2));
                        if hs == rel_sym {
                            lemma_prefix_has(
                                dmid.rel_rows(rel_sym),
                                self.db_view().rel_rows(rel_sym),
                                tuple2,
                            );
                        } else {
                            assert(selfold.db_view().has_rel(hs));
                            assert(dmid.has_rel(hs));
                            assert(self.db_view().rel_of(hs) == dmid.rel_of(hs));
                        }
                    }
                    // the substitution satisfies the body against the
                    // snapshot the pass evaluated
                    assert(self.rules_view()[k2 as int] == selfold.rules_view()[k2 as int]);
                    let qold = selfold.db_view().qs()[selfold.rules_view()[k2 as int].1.idx()];
                    assert(qold == q);
                    assert(eval_ok(selfold.db_view(), q, rows_view(all_substs@[k2 as int]@)));
                    assert(rows_view(all_substs@[k2 as int]@)[p as int] == full);
                    assert(all_rows_sat(
                        query_rels(selfold.db_view(), q.atoms()),
                        q.atoms(),
                        q.vars(),
                        full,
                    ));
                    assert(rel_sym == selfold.rules_view()[k2 as int].0.head@[0].relation);
                    assert(derived_tuple(selfold, rel_sym, tuple@)) by {
                        assert(full.len() == selfold.db_view().qs()[selfold.rules_view()[
                            k2 as int
                        ].1.idx()].vars().len());
                        assert(all_rows_sat(
                            query_rels(
                                selfold.db_view(),
                                selfold.db_view().qs()[selfold.rules_view()[k2 as int].1.idx()].atoms(),
                            ),
                            selfold.db_view().qs()[selfold.rules_view()[k2 as int].1.idx()].atoms(),
                            selfold.db_view().qs()[selfold.rules_view()[k2 as int].1.idx()].vars(),
                            full,
                        ));
                        assert(head_match(
                            selfold.db_view().qs()[selfold.rules_view()[k2 as int].1.idx()],
                            selfold.rules_view()[k2 as int].0,
                            full,
                            tuple@,
                        ));
                    }
                    // everything beyond the old contents is a derived tuple
                    assert forall|s2: Symbol, pp: int|
                        selfold.db_view().has_rel(s2) && selfold.db_view().rel_rows(s2).len() <= pp
                            < self.db_view().rel_rows(s2).len() implies derived_tuple(
                        selfold,
                        s2,
                        #[trigger] self.db_view().rel_rows(s2)[pp],
                    ) by {
                        if s2 == rel_sym {
                            assert(self.db_view().rel_rows(rel_sym) == spec_insert(
                                dmid.rel_rows(rel_sym),
                                tuple@,
                            ));
                            if pp < dmid.rel_rows(rel_sym).len() {
                                assert(dmid.has_rel(s2));
                                assert(self.db_view().rel_rows(s2)[pp] == dmid.rel_rows(s2)[pp]);
                            } else {
                                assert(self.db_view().rel_rows(s2)[pp] == tuple@);
                            }
                        } else {
                            assert(dmid.has_rel(s2));
                            assert(self.db_view().rel_of(s2) == dmid.rel_of(s2));
                            assert(self.db_view().rel_rows(s2)[pp] == dmid.rel_rows(s2)[pp]);
                        }
                    }
                    // under saturation the tuple was already there
                    if saturated(selfold) {
                        assert(saturated_rule(selfold, selfold.rules_view()[k2 as int]));
                        assert(selfold.db_view().has_rel(rulev.head@[0].relation) && seq_has(
                            selfold.db_view().rel_rows(rulev.head@[0].relation),
                            tuple@,
                        ));
                        assert(rulev.head@[0].relation == rel_sym);
                        lemma_prefix_has(
                            selfold.db_view().rel_rows(rel_sym),
                            dbb.rel_rows(rel_sym),
                            tuple@,
                        );
                        assert(dmid.rel_rows(rel_sym) == dbb.rel_rows(rel_sym));
                        assert(seq_has(dmid.rel_rows(rel_sym), tuple@));
                        assert(self.db_view().rel_rows(rel_sym) == dmid.rel_rows(rel_sym));
                    }
                }
                p += 1;
            }
            let after = match self.db.rel_len(rel_sym) {
                Ok(n) => n,
                Err(e) => {
                    proof {
                        assert(false);
                    }
                    return Err(e);
                },
            };
            proof {
                assert(after >= before);
            }
            let delta = after - before;
            proof {
                lemma_size_change(dbb, self.db_view(), rel_sym);
                lemma_grows_trans(old(self).db_view(), dbb, self.db_view());
                // this rule is now covered for every substitution
                assert forall|full: Seq<Value>, tuple: Seq<Value>|
                    seq_has(rows_view(all_substs@[k2 as int]@), full) && #[trigger] head_match(
                        selfold.db_view().qs()[self.rules_view()[k2 as int].1.idx()],
                        self.rules_view()[k2 as int].0,
                        full,
                        tuple,
                    ) implies seq_has(self.db_view().rel_rows(rel_sym), tuple) by {
                    let pp = choose|pp: int|
                        0 <= pp < rows_view(all_substs@[k2 as int]@).len() && rows_view(
                            all_substs@[k2 as int]@,
                        )[pp] == full;
                    assert(substs@[pp]@ == full);
                    assert(selfold.db_view().qs()[self.rules_view()[k2 as int].1.idx()] == q);
                }
                assert(selfold.db_view().has_rel(rel_sym)) by {
                    assert(self.db_view().rel_names() == selfold.db_view().rel_names());
                }
            }
            if additions > usize::MAX - delta {
                proof {
                    lemma_total_size_bound(selfold.db_view().rels());
                    assert(total_size(self.db_view()) > usize::MAX);
                }
                return Err(Error::CountOverflow);
            }
            additions += delta;
            proof {
                // this rule passed every configuration check
                assert(rule_ok(selfold, k2 as int)) by {
                    assert(selfold.rules_view()[k2 as int].0.head@.len() == 1);
                    assert forall|z: int|
                        0 <= z < selfold.rules_view()[k2 as int].0.head@[0].terms@.len() implies match
                        #[trigger] selfold.rules_view()[k2 as int].0.head@[0].terms@[z] {
                        Term::Variable(x) => seq_has(
                            selfold.db_view().qs()[selfold.rules_view()[k2 as int].1.idx()].vars(),
                            x,
                        ),
                        Term::Value(_) => false,
                    } by {
                        assert(selfold.rules_view()[k2 as int].0.head@[0].terms@[z]
                            == Term::Variable(vars@[z]));
                        assert(q.vars()[idxs@[z] as int] == vars@[z]);
                        assert(seq_has(q.vars(), vars@[z]));
                    }
                    assert(selfold.db_view().has_rel(rel_sym));
                    assert(selfold.db_view().rel_of(rel_sym).width() == w);
                    assert(eval_ok(
                        selfold.db_view(),
                        q,
                        rows_view(all_substs@[k2 as int]@),
                    ));
                }
            }
            k2 += 1;
        }
        proof {
            // everything derivable from the entry snapshot is now stored
            assert forall|k: int, full: Seq<Value>, tuple: Seq<Value>|
                0 <= k < selfold.rules_view().len() && full.len()
                    == selfold.db_view().qs()[selfold.rules_view()[k].1.idx()].vars().len()
                    && all_rows_sat(
                    query_rels(
                        selfold.db_view(),
                        selfold.db_view().qs()[selfold.rules_view()[k].1.idx()].atoms(),
                    ),
                    selfold.db_view().qs()[selfold.rules_view()[k].1.idx()].atoms(),
                    selfold.db_view().qs()[selfold.rules_view()[k].1.idx()].vars(),
                    full,
                ) && #[trigger] head_match(
                    selfold.db_view().qs()[selfold.rules_view()[k].1.idx()],
                    selfold.rules_view()[k].0,
                    full,
                    tuple,
                ) implies seq_has(
                self.db_view().rel_rows(selfold.rules_view()[k].0.head@[0].relation),
                tuple,
            ) by {
                assert(eval_ok(
                    selfold.db_view(),
                    selfold.db_view().qs()[selfold.rules_view()[k].1.idx()],
                    rows_view(all_substs@[k]@),
                ));
                assert(seq_has(rows_view(all_substs@[k]@), full));
                assert(self.rules_view()[k] == selfold.rules_view()[k]);
            }
            assert(derivations_stored(selfold, self.db_view()));
            // relations that head no rule were never touched
            assert forall|s: Symbol|
                selfold.db_view().has_rel(s) && (forall|k: int|
                    0 <= k < selfold.rules_view().len() ==> !((
                    #[trigger] selfold.rules_view()[k]).0.head@.len() == 1
                        && selfold.rules_view()[k].0.head@[0].relation == s))
                implies #[trigger] self.db_view().rel_rows(s) == selfold.db_view().rel_rows(
                s,
            ) by {
                if self.db_view().rel_rows(s).len() > selfold.db_view().rel_rows(s).len() {
                    let pp = selfold.db_view().rel_rows(s).len() as int;
                    assert(derived_tuple(selfold, s, self.db_view().rel_rows(s)[pp]));
                    let (kw, fw) = choose|k: int, full: Seq<Value>|
                        0 <= k < selfold.rules_view().len() && selfold.rules_view()[k].0.head@[0].relation
                            == s && full.len()
                            == selfold.db_view().qs()[selfold.rules_view()[k].1.idx()].vars().len()
                            && all_rows_sat(
                            query_rels(
                                selfold.db_view(),
                                selfold.db_view().qs()[selfold.rules_view()[k].1.idx()].atoms(),
                            ),
                            selfold.db_view().qs()[selfold.rules_view()[k].1.idx()].atoms(),
                            selfold.db_view().qs()[selfold.rules_view()[k].1.idx()].vars(),
                            full,
                        ) && #[trigger] head_match(
                            selfold.db_view().qs()[selfold.rules_view()[k].1.idx()],
                            selfold.rules_view()[k].0,
                            full,
                            self.db_view().rel_rows(s)[pp],
                        );
                    assert(selfold.rules_view()[kw].0.head@.len() == 1);
                }
                assert(selfold.db_view().rel_rows(s).is_prefix_of(self.db_view().rel_rows(s)));
                assert(self.db_view().rel_rows(s) =~= selfold.db_view().rel_rows(s));
            }
            if additions == 0 {
                lemma_zero_growth_unchanged(old(self).db_view(), self.db_view());
                // nothing grew, so everything derivable was already present
                assert forall|k: int|
                    0 <= k < selfold.rules_view().len() implies saturated_rule(
                    selfold,
                    #[trigger] selfold.rules_view()[k],
                ) by {
                    let rk = selfold.rules_view()[k];
                    let q2 = selfold.db_view().qs()[rk.1.idx()];
                    assert forall|full: Seq<Value>, tuple: Seq<Value>|
                        full.len() == q2.vars().len() && (forall|j: int|
                            0 <= j < q2.atoms().len() ==> selfold.db_view().has_rel(
                                (#[trigger] q2.atoms()[j]).0,
                            )) && all_rows_sat(
                            query_rels(selfold.db_view(), q2.atoms()),
                            q2.atoms(),
                            q2.vars(),
                            full,
                        ) && #[trigger] head_match(q2, rk.0, full, tuple) implies selfold.db_view().has_rel(
                        rk.0.head@[0].relation,
                    ) && seq_has(selfold.db_view().rel_rows(rk.0.head@[0].relation), tuple) by {
                        assert(eval_ok(
                            selfold.db_view(),
                            q2,
                            rows_view(all_substs@[k]@),
                        ));
                        assert(seq_has(rows_view(all_substs@[k]@), full));
                        assert(self.rules_view()[k] == rk);
                        assert(seq_has(
                            self.db_view().rel_rows(rk.0.head@[0].relation),
                            tuple,
                        ));
                        assert(selfold.db_view().has_rel(rk.0.head@[0].relation));
                        assert(self.db_view().rel_rows(rk.0.head@[0].relation)
                            == selfold.db_view().rel_rows(rk.0.head@[0].relation));
                    }
                }
                assert(saturated(selfold));
            }
        }
        Ok(additions)
    }

    /// Repeats [`DatalogContext::step`] until a pass adds nothing; returns
    /// the total number of distinct new tuples inserted across all passes.
    /// It is zero on an already-saturated context.
    #[verifier::loop_isolation(false)]
    pub fn run(&mut self) -> (r: Result<usize, Error>)
        requires
            old(self).wf(),
        ensures
            final(self).wf(),
            final(self).rules_view() == old(self).rules_view(),
            grows_to(old(self).db_view(), final(self).db_view()),
            match r {
                Ok(n) => n == total_size(final(self).db_view()) - total_size(old(self).db_view())
                    && (n == 0 ==> forall|s: Symbol|
                    old(self).db_view().has_rel(s) ==> #[trigger] final(self).db_view().rel_rows(s)
                        == old(self).db_view().rel_rows(s)) && saturated(*final(self)) && (
                saturated(*old(self)) ==> n == 0) && (forall|k: int|
                    0 <= k < old(self).rules_view().len() ==> rule_ok(*old(self), k)) && (forall|
                    s: Symbol,
                    p: int,
                |
                    old(self).db_view().has_rel(s) && old(self).db_view().rel_rows(s).len() <= p
                        < final(self).db_view().rel_rows(s).len() ==> derived_tuple(
                        *final(self),
                        s,
                        #[trigger] final(self).db_view().rel_rows(s)[p],
                    )) && (exists|chain: Seq<DatalogContext>|
                    #[trigger] pass_chain(chain) && chain.len() >= 1 && chain[0] == *old(self)
                        && chain.last() == *final(self)),
                Err(e) => config_fault(*old(self), e) || e == Error::CountOverflow && total_size(
                    final(self).db_view(),
                ) > usize::MAX,
            },
    {
        let mut additions: usize = 0;
        let ghost mut chain: Seq<DatalogContext> = seq![*old(self)];
        proof {
            lemma_total_size_bound(self.db_view().rels());
        }
        loop
            invariant
                chain.len() >= 1,
                chain[0] == *old(self),
                chain.last() == *self,
                pass_chain(chain),
                self.wf(),
                self.rules_view() == old(self).rules_view(),
                grows_to(old(self).db_view(), self.db_view()),
                additions == total_size(self.db_view()) - total_size(old(self).db_view()),
                total_size(self.db_view()) <= self.db_view().rels().len() * usize::MAX,
                saturated(*old(self)) ==> additions == 0,
                forall|s: Symbol, p: int|
                    old(self).db_view().has_rel(s) && old(self).db_view().rel_rows(s).len() <= p
                        < self.db_view().rel_rows(s).len() ==> derived_tuple(
                        *self,
                        s,
                        #[trigger] self.db_view().rel_rows(s)[p],
                    ),
            decreases self.db_view().rels().len() * usize::MAX - total_size(self.db_view()),
        {
            let ghost dprev = self.db_view();
            let ghost cprev = *self;
            proof {
                if saturated(*old(self)) {
                    lemma_zero_growth_unchanged(old(self).db_view(), self.db_view());
                    lemma_saturated_congruent(*old(self), cprev);
                }
            }
            let new = match self.step() {
                Ok(n) => n,
                Err(e) => {
                    proof {
                        if config_fault(cprev, e) {
                            lemma_fault_congruent(*old(self), cprev, e);
                        }
                        lemma_grows_trans(old(self).db_view(), dprev, self.db_view());
                    }
                    return Err(e);
                },
            };
            proof {
                lemma_grows_trans(old(self).db_view(), dprev, self.db_view());
                lemma_total_size_bound(self.db_view().rels());
                assert(self.db_view().rels().len() == dprev.rels().len()) by {
                    assert(self.db_view().rel_names().len() == dprev.rel_names().len());
                }
                // extend the pass chain by this pass
                let prev_chain = chain;
                chain = chain.push(*self);
                assert(chain.last() == *self);
                assert(chain[0] == *old(self)) by {
                    assert(chain[0] == prev_chain[0]);
                }
                assert(pass_chain(chain)) by {
                    assert forall|i: int|
                        0 <= i < chain.len() - 1 implies (#[trigger] chain[i + 1]).rules_view()
                        == chain[i].rules_view() && grows_to(
                        chain[i].db_view(),
                        chain[i + 1].db_view(),
                    ) && only_derived(chain[i], chain[i + 1].db_view()) by {
                        if i < chain.len() - 2 {
                            assert(chain[i] == prev_chain[i]);
                            assert(chain[i + 1] == prev_chain[i + 1]);
                        } else {
                            assert(chain[i] == cprev);
                            assert(chain[i + 1] == *self);
                            assert(only_derived(cprev, self.db_view()));
                        }
                    }
                }
                // the pass succeeded, so every rule is usable
                assert forall|k: int|
                    0 <= k < old(self).rules_view().len() implies rule_ok(*old(self), k) by {
                    assert(rule_ok(cprev, k));
                    lemma_rule_ok_congruent(*old(self), cprev, k);
                }
                // lift the derivation pedigree of every new tuple to the new
                // state
                assert forall|s: Symbol, p: int|
                    old(self).db_view().has_rel(s) && old(self).db_view().rel_rows(s).len() <= p
                        < self.db_view().rel_rows(s).len() implies derived_tuple(
                    *self,
                    s,
                    #[trigger] self.db_view().rel_rows(s)[p],
                ) by {
                    assert(cprev.db_view().has_rel(s));
                    if p < cprev.db_view().rel_rows(s).len() {
                        assert(self.db_view().rel_rows(s)[p] == cprev.db_view().rel_rows(s)[p]);
                        assert(derived_tuple(cprev, s, cprev.db_view().rel_rows(s)[p]));
                        lemma_derived_monotone(cprev, *self, s, cprev.db_view().rel_rows(s)[p]);
                    } else {
                        assert(derived_tuple(cprev, s, self.db_view().rel_rows(s)[p]));
                        lemma_derived_monotone(cprev, *self, s, self.db_view().rel_rows(s)[p]);
                    }
                }
            }
            if new == 0 {
                proof {
                    if additions == 0 {
                        lemma_zero_growth_unchanged(old(self).db_view(), self.db_view());
                    }
                    // the last pass added nothing, so the final state is
                    // saturated
                    assert(saturated(cprev));
                    lemma_saturated_congruent(cprev, *self);
                }
                return Ok(additions);
            }
            if additions > usize::MAX - new {
                proof {
                    lemma_total_size_bound(old(self).db_view().rels());
                    assert(total_size(self.db_view()) > usize::MAX);
                }
                return Err(Error::CountOverflow);
            }
            additions += new;
        }
    }

    /// Installs a whole program — declarations, rules, facts, in that order —
    /// runs it to fixpoint, then checks each directive exactly once.  On
    /// success every declaration, rule and fact is installed, the database is
    /// saturated, and every assert-equal directive holds; every failure names
    /// a defect of the program or of the context it was loaded into.
    #[verifier::loop_isolation(false)]
    pub fn eval(&mut self, prog: Program) -> (r: Result<(), Error>)
        requires
            old(self).wf(),
        ensures
            final(self).wf(),
            r is Ok ==> forall|i: int|
                0 <= i < prog.relations@.len() ==> final(self).db_view().has_rel(
                    (#[trigger] prog.relations@[i]).symbol,
                ) && final(self).db_view().rel_of(prog.relations@[i].symbol).width()
                    == prog.relations@[i].schema.columns().len(),
            r is Ok ==> final(self).rules_view().len() == old(self).rules_view().len()
                + prog.rules@.len() && (forall|k: int|
                0 <= k < old(self).rules_view().len() ==> final(self).rules_view()[k] == old(self).rules_view()[k]) && (forall|i: int|
                0 <= i < prog.rules@.len() ==> (#[trigger] final(self).rules_view()[old(self).rules_view().len() + i]).0 == prog.rules@[i]),
            r is Ok ==> forall|i: int|
                0 <= i < prog.facts@.len() ==> terms_ground((#[trigger] prog.facts@[i]).terms@)
                    && final(self).db_view().has_rel(prog.facts@[i].relation) && seq_has(
                    final(self).db_view().rel_rows(prog.facts@[i].relation),
                    ground_values(prog.facts@[i].terms@),
                ),
            r is Ok ==> saturated(*final(self)),
            r is Ok ==> old(self).db_view().rel_names().is_prefix_of(
                final(self).db_view().rel_names(),
            ) && forall|s: Symbol|
                #[trigger] old(self).db_view().has_rel(s) ==> final(self).db_view().has_rel(s)
                    && final(self).db_view().rel_of(s).width() == old(self).db_view().rel_of(
                    s,
                ).width() && old(self).db_view().rel_rows(s).is_prefix_of(
                    final(self).db_view().rel_rows(s),
                ),
            r is Ok ==> exists|chain: Seq<DatalogContext>|
                #[trigger] pass_chain(chain) && chain.len() >= 1 && chain.last() == *final(self)
                    && chain[0].rules_view() == final(self).rules_view()
                    && chain[0].db_view().rel_names() == final(self).db_view().rel_names() && (
                forall|s: Symbol|
                    #[trigger] old(self).db_view().has_rel(s) ==> chain[0].db_view().rel_rows(s)
                        == spec_insert_facts(
                        old(self).db_view().rel_rows(s),
                        prog.facts@,
                        s,
                    )) && (forall|i: int|
                    0 <= i < prog.relations@.len() && !old(self).db_view().has_rel(
                        (#[trigger] prog.relations@[i]).symbol,
                    ) ==> chain[0].db_view().rel_rows(prog.relations@[i].symbol)
                        == spec_insert_facts(
                        Seq::<Seq<Value>>::empty(),
                        prog.facts@,
                        prog.relations@[i].symbol,
                    )),
            r is Ok ==> forall|i: int|
                0 <= i < prog.directives@.len() ==> match #[trigger] prog.directives@[i] {
                    Directive::AssertEq(a, b) => final(self).db_view().has_rel(a) && final(self).db_view().has_rel(b) && same_rows(final(self).db_view(), a, b),
                },
            match r {
                Ok(_) => true,
                Err(e) => match e {
                    Error::AssertNotEqual(a, b) => final(self).db_view().has_rel(a) && final(self).db_view().has_rel(b) && !same_rows(final(self).db_view(), a, b),
                    _ => true,
                },
            },
            match r {
                Ok(_) => true,
                Err(e) => program_fault(
                    *old(self),
                    prog.relations@,
                    prog.rules@,
                    prog.facts@,
                    prog.directives@,
                    e,
                ) || e == Error::CountOverflow && total_size(final(self).db_view()) > usize::MAX,
            },
    {
        let ghost rels0 = prog.relations@;
        let ghost rules0 = prog.rules@;
        let ghost facts = prog.facts@;
        let ghost directives = prog.directives@;
        let mut prog = prog;
        while prog.relations.len() > 0
            invariant
                self.wf(),
                self.rules_view() == old(self).rules_view(),
                self.db_view().qs() == old(self).db_view().qs(),
                rules0 == prog.rules@,
                facts == prog.facts@,
                directives == prog.directives@,
                prog.relations@ =~= rels0.skip(rels0.len() - prog.relations@.len()),
                prog.relations@.len() <= rels0.len(),
                self.db_view().rel_names() =~= old(self).db_view().rel_names() + rel_syms(
                    rels0.take(rels0.len() - prog.relations@.len()),
                ),
                forall|s2: Symbol|
                    #[trigger] old(self).db_view().has_rel(s2) ==> self.db_view().has_rel(s2)
                        && self.db_view().rel_of(s2) == old(self).db_view().rel_of(s2),
                forall|i: int|
                    0 <= i < rels0.len() - prog.relations@.len() ==> self.db_view().has_rel(
                        (#[trigger] rels0[i]).symbol,
                    ) && self.db_view().rel_of(rels0[i].symbol).width() == rels0[i].schema.columns().len()
                        && self.db_view().rel_rows(rels0[i].symbol).len() == 0,
            decreases prog.relations@.len(),
        {
            let ghost done = rels0.len() - prog.relations@.len();
            let rel = prog.relations.remove(0);
            proof {
                assert(rel == rels0[done]);
                assert(prog.relations@ =~= rels0.skip(done + 1));
            }
            let ghost dprev = *self;
            match self.add_relation(rel) {
                Ok(_) => {
                    proof {
                        assert forall|s2: Symbol|
                            old(self).db_view().has_rel(s2) implies self.db_view().has_rel(s2)
                            && #[trigger] self.db_view().rel_of(s2).width() == old(self).db_view().rel_of(s2).width() by {
                            assert(dprev.db_view().has_rel(s2));
                            assert(s2 != rels0[done].symbol);
                            assert(self.db_view().has_rel(s2) && self.db_view().rel_of(s2)
                                == dprev.db_view().rel_of(s2));
                            assert(dprev.db_view().rel_of(s2) == old(self).db_view().rel_of(s2));
                        }
                        assert(self.db_view().rel_names() =~= old(self).db_view().rel_names()
                            + rel_syms(rels0.take(done + 1))) by {
                            assert(rel_syms(rels0.take(done + 1)) =~= rel_syms(
                                rels0.take(done),
                            ).push(rels0[done].symbol));
                        }
                        assert forall|i: int|
                            0 <= i < done + 1 implies self.db_view().has_rel(
                            (#[trigger] rels0[i]).symbol,
                        ) && self.db_view().rel_of(rels0[i].symbol).width()
                            == rels0[i].schema.columns().len() && self.db_view().rel_rows(
                            rels0[i].symbol,
                        ).len() == 0 by {
                            if i < done {
                                if rels0[i].symbol == rels0[done].symbol {
                                    assert(dprev.db_view().has_rel(rels0[done].symbol));
                                    assert(false);
                                }
                            }
                        }
                    }
                },
                Err(e) => {
                    proof {
                        assert(e == Error::DuplicateRelation(rels0[done].symbol));
                        assert(dprev.db_view().has_rel(rels0[done].symbol));
                        if !old(self).db_view().has_rel(rels0[done].symbol) {
                            let nprev = old(self).db_view().rel_names().len() as int;
                            let p = choose|p: int|
                                0 <= p < dprev.db_view().rel_names().len() && (
                                #[trigger] dprev.db_view().rel_names()[p]) == rels0[done].symbol;
                            assert(p >= nprev) by {
                                if p < nprev {
                                    assert(old(self).db_view().rel_names()[p] == rels0[
                                        done
                                    ].symbol);
                                }
                            }
                            assert(rel_syms(rels0.take(done))[p - nprev] == rels0[done].symbol);
                            assert(rels0[p - nprev].symbol == rels0[done].symbol);
                        }
                        assert(program_fault(*old(self), rels0, rules0, facts, directives, e));
                    }
                    return Err(e);
                },
            }
        }
        let ghost centry_names = self.db_view().rel_names();
        while prog.rules.len() > 0
            invariant
                self.wf(),
                facts == prog.facts@,
                directives == prog.directives@,
                prog.rules@ =~= rules0.skip(rules0.len() - prog.rules@.len()),
                prog.rules@.len() <= rules0.len(),
                self.db_view().rel_names() == centry_names,
                centry_names =~= old(self).db_view().rel_names() + rel_syms(rels0),
                forall|s2: Symbol|
                    #[trigger] old(self).db_view().has_rel(s2) ==> self.db_view().has_rel(s2)
                        && self.db_view().rel_of(s2) == old(self).db_view().rel_of(s2),
                forall|i: int|
                    0 <= i < rels0.len() ==> self.db_view().has_rel((#[trigger] rels0[i]).symbol)
                        && self.db_view().rel_of(rels0[i].symbol).width() == rels0[i].schema.columns().len()
                        && self.db_view().rel_rows(rels0[i].symbol).len() == 0,
                self.rules_view().len() == old(self).rules_view().len() + rules0.len()
                    - prog.rules@.len(),
                forall|k: int|
                    0 <= k < old(self).rules_view().len() ==> self.rules_view()[k] == old(self).rules_view()[k],
                forall|i: int|
                    0 <= i < rules0.len() - prog.rules@.len() ==> (#[trigger] self.rules_view()[old(self).rules_view().len() + i]).0 == rules0[i],
            decreases prog.rules@.len(),
        {
            let ghost done = rules0.len() - prog.rules@.len();
            let rule = prog.rules.remove(0);
            proof {
                assert(rule == rules0[done]);
                assert(prog.rules@ =~= rules0.skip(done + 1));
            }
            self.add_rule(rule);
            proof {
                assert(self.rules_view().last().0 == rules0[done]);
            }
        }
        let ghost rules_done = self.rules_view();
        let nf = prog.facts.len();
        let mut i: usize = 0;
        while i < nf
            invariant
                i <= nf,
                nf == facts.len(),
                facts == prog.facts@,
                directives == prog.directives@,
                self.wf(),
                self.rules_view() == rules_done,
                self.db_view().rel_names() == centry_names,
                centry_names =~= old(self).db_view().rel_names() + rel_syms(rels0),
                forall|s2: Symbol|
                    #[trigger] old(self).db_view().has_rel(s2) ==> self.db_view().has_rel(s2)
                        && self.db_view().rel_of(s2).width() == old(self).db_view().rel_of(
                        s2,
                    ).width() && self.db_view().rel_rows(s2) == spec_insert_facts(
                        old(self).db_view().rel_rows(s2),
                        facts.take(i as int),
                        s2,
                    ),
                forall|i2: int|
                    0 <= i2 < rels0.len() ==> self.db_view().has_rel((#[trigger] rels0[i2]).symbol)
                        && self.db_view().rel_of(rels0[i2].symbol).width() == rels0[i2].schema.columns().len()
                        && (!old(self).db_view().has_rel(rels0[i2].symbol)
                        ==> self.db_view().rel_rows(rels0[i2].symbol) == spec_insert_facts(
                        Seq::<Seq<Value>>::empty(),
                        facts.take(i as int),
                        rels0[i2].symbol,
                    )),
                forall|z: int|
                    0 <= z < i ==> terms_ground((#[trigger] facts[z]).terms@)
                        && self.db_view().has_rel(facts[z].relation) && seq_has(
                        self.db_view().rel_rows(facts[z].relation),
                        ground_values(facts[z].terms@),
                    ),
            decreases nf - i,
        {
            let ghost dprev = self.db_view();
            match self.add_fact(&prog.facts[i]) {
                Ok(_) => {},
                Err(e) => {
                    proof {
                        assert(facts[i as int].relation == prog.facts@[i as int].relation);
                        let fs = facts[i as int].relation;
                        match e {
                            Error::NoSuchRelation(_) => {
                                assert(!self.db_view().has_rel(fs));
                                assert(!old(self).db_view().has_rel(fs)) by {
                                    if old(self).db_view().has_rel(fs) {
                                        assert(self.db_view().has_rel(fs));
                                    }
                                }
                                assert(!(exists|j: int|
                                    0 <= j < rels0.len() && (#[trigger] rels0[j]).symbol
                                        == fs)) by {
                                    if exists|j: int|
                                        0 <= j < rels0.len() && (#[trigger] rels0[j]).symbol
                                            == fs {
                                        let j = choose|j: int|
                                            0 <= j < rels0.len() && (#[trigger] rels0[j]).symbol
                                                == fs;
                                        assert(self.db_view().has_rel(rels0[j].symbol));
                                    }
                                }
                            },
                            Error::ArityMismatch(_) => {
                                assert(self.db_view().has_rel(fs));
                                assert(facts[i as int].terms@.len() != self.db_view().rel_of(
                                    fs,
                                ).width());
                                if old(self).db_view().has_rel(fs) {
                                    assert(self.db_view().rel_of(fs).width() == old(
                                        self,
                                    ).db_view().rel_of(fs).width());
                                } else {
                                    let p = choose|p: int|
                                        0 <= p < self.db_view().rel_names().len() && (
                                        #[trigger] self.db_view().rel_names()[p]) == fs;
                                    let nn0 = old(self).db_view().rel_names().len() as int;
                                    assert(p >= nn0) by {
                                        if p < nn0 {
                                            assert(old(self).db_view().rel_names()[p] == fs);
                                        }
                                    }
                                    assert(rel_syms(rels0)[p - nn0] == fs);
                                    assert(rels0[p - nn0].symbol == fs);
                                    assert(self.db_view().rel_of(fs).width() == rels0[p
                                        - nn0].schema.columns().len());
                                }
                            },
                            _ => {},
                        }
                        assert(program_fault(*old(self), rels0, rules0, facts, directives, e));
                    }
                    return Err(e);
                },
            }
            proof {
                assert forall|z: int|
                    0 <= z < i + 1 implies terms_ground((#[trigger] facts[z]).terms@)
                    && self.db_view().has_rel(facts[z].relation) && seq_has(
                    self.db_view().rel_rows(facts[z].relation),
                    ground_values(facts[z].terms@),
                ) by {
                    if z < i {
                        lemma_prefix_has(
                            dprev.rel_rows(facts[z].relation),
                            self.db_view().rel_rows(facts[z].relation),
                            ground_values(facts[z].terms@),
                        );
                    }
                }
                // the baseline bookkeeping follows the one inserted fact
                assert(facts.take(i + 1 as int).drop_last() =~= facts.take(i as int));
                assert(facts.take(i + 1 as int).last() == facts[i as int]);
                let fs = facts[i as int].relation;
                assert forall|s2: Symbol|
                    #[trigger] old(self).db_view().has_rel(s2) implies self.db_view().rel_rows(s2)
                    == spec_insert_facts(
                    old(self).db_view().rel_rows(s2),
                    facts.take(i + 1 as int),
                    s2,
                ) by {
                    if s2 == fs {
                        assert(self.db_view().rel_rows(fs) == spec_insert(
                            dprev.rel_rows(fs),
                            ground_values(facts[i as int].terms@),
                        ));
                    } else {
                        assert(self.db_view().rel_of(s2) == dprev.rel_of(s2));
                    }
                }
                assert forall|i2: int|
                    0 <= i2 < rels0.len() && !old(self).db_view().has_rel(
                        (#[trigger] rels0[i2]).symbol,
                    ) implies self.db_view().rel_rows(rels0[i2].symbol) == spec_insert_facts(
                    Seq::<Seq<Value>>::empty(),
                    facts.take(i + 1 as int),
                    rels0[i2].symbol,
                ) by {
                    if rels0[i2].symbol == fs {
                        assert(self.db_view().rel_rows(fs) == spec_insert(
                            dprev.rel_rows(fs),
                            ground_values(facts[i as int].terms@),
                        ));
                    } else {
                        assert(self.db_view().rel_of(rels0[i2].symbol) == dprev.rel_of(
                            rels0[i2].symbol,
                        ));
                    }
                }
            }
            i += 1;
        }
        let ghost centry = *self;
        match self.run() {
            Ok(_) => {},
            Err(e) => {
                proof {
                    if config_fault(centry, e) {
                        assert(centry.db_view().rel_names() == old(self).db_view().rel_names()
                            + rel_syms(rels0)) by {
                            assert(centry.db_view().rel_names() =~= old(self).db_view().rel_names()
                                + rel_syms(rels0));
                        }
                        lemma_program_fault_from_config(
                            *old(self),
                            centry,
                            rels0,
                            rules0,
                            facts,
                            directives,
                            e,
                        );
                    } else {
                        assert(e == Error::CountOverflow);
                    }
                }
                return Err(e);
            },
        }
        proof {
            assert forall|z: int|
                0 <= z < nf implies terms_ground((#[trigger] facts[z]).terms@)
                && self.db_view().has_rel(facts[z].relation) && seq_has(
                self.db_view().rel_rows(facts[z].relation),
                ground_values(facts[z].terms@),
            ) by {
                lemma_prefix_has(
                    centry.db_view().rel_rows(facts[z].relation),
                    self.db_view().rel_rows(facts[z].relation),
                    ground_values(facts[z].terms@),
                );
            }
        }
        let ghost cfixed = *self;
        // post-fixpoint directives, exactly once
        let nd = prog.directives.len();
        let mut di: usize = 0;
        while di < nd
            invariant
                di <= nd,
                nd == directives.len(),
                directives == prog.directives@,
                facts == prog.facts@,
                *self == cfixed,
                self.wf(),
                forall|z: int|
                    0 <= z < di ==> match #[trigger] directives[z] {
                        Directive::AssertEq(a, b) => self.db_view().has_rel(a)
                            && self.db_view().has_rel(b) && same_rows(self.db_view(), a, b),
                    },
            decreases nd - di,
        {
            let (a, b) = match &prog.directives[di] {
                Directive::AssertEq(a, b) => (*a, *b),
            };
            proof {
                assert(directives[di as int] == Directive::AssertEq(a, b));
            }
            let ra = match self.db.get_relation(a) {
                Ok(r) => r,
                Err(e) => {
                    proof {
                        lemma_undeclared_in_fixed(*old(self), rels0, *self, centry_names, a);
                        assert(program_fault(*old(self), rels0, rules0, facts, directives, e));
                    }
                    return Err(e);
                },
            };
            let rb = match self.db.get_relation(b) {
                Ok(r) => r,
                Err(e) => {
                    proof {
                        lemma_undeclared_in_fixed(*old(self), rels0, *self, centry_names, b);
                        assert(program_fault(*old(self), rels0, rules0, facts, directives, e));
                    }
                    return Err(e);
                },
            };
            let fwd = rows_subset(ra, rb);
            let bwd = rows_subset(rb, ra);
            if !(fwd && bwd) {
                proof {
                    assert(program_fault(
                        *old(self),
                        rels0,
                        rules0,
                        facts,
                        directives,
                        Error::AssertNotEqual(a, b),
                    ));
                    assert(!same_rows(self.db_view(), a, b)) by {
                        assert(ra.rows() == self.db_view().rel_rows(a));
                        assert(rb.rows() == self.db_view().rel_rows(b));
                        if !fwd {
                            let t = choose|t: Seq<Value>|
                                #[trigger] seq_has(ra.rows(), t) && !seq_has(rb.rows(), t);
                            assert(seq_has(self.db_view().rel_rows(a), t) != seq_has(
                                self.db_view().rel_rows(b),
                                t,
                            ));
                        } else {
                            let t = choose|t: Seq<Value>|
                                #[trigger] seq_has(rb.rows(), t) && !seq_has(ra.rows(), t);
                            assert(seq_has(self.db_view().rel_rows(a), t) != seq_has(
                                self.db_view().rel_rows(b),
                                t,
                            ));
                        }
                    }
                }
                return Err(Error::AssertNotEqual(a, b));
            }
            di += 1;
        }
        proof {
            assert(*self == cfixed);
            assert forall|i2: int|
                0 <= i2 < rels0.len() implies self.db_view().has_rel(
                (#[trigger] rels0[i2]).symbol,
            ) && self.db_view().rel_of(rels0[i2].symbol).width() == rels0[i2].schema.columns().len() by {
                assert(centry.db_view().has_rel(rels0[i2].symbol));
                assert(self.db_view().rel_of(rels0[i2].symbol).width() == centry.db_view().rel_of(
                    rels0[i2].symbol,
                ).width());
            }
            // the entry names come first, the entry tuples survive
            assert(facts.take(nf as int) =~= facts);
            assert(self.db_view().rel_names() == centry_names);
            assert(old(self).db_view().rel_names().is_prefix_of(self.db_view().rel_names())) by {
                assert(old(self).db_view().rel_names() =~= self.db_view().rel_names().subrange(
                    0,
                    old(self).db_view().rel_names().len() as int,
                ));
            }
            assert forall|s2: Symbol|
                #[trigger] old(self).db_view().has_rel(s2) implies self.db_view().has_rel(s2)
                && self.db_view().rel_of(s2).width() == old(self).db_view().rel_of(s2).width()
                && old(self).db_view().rel_rows(s2).is_prefix_of(
                self.db_view().rel_rows(s2),
            ) by {
                assert(centry.db_view().rel_rows(s2) == spec_insert_facts(
                    old(self).db_view().rel_rows(s2),
                    facts,
                    s2,
                ));
                lemma_insert_facts_prefix(old(self).db_view().rel_rows(s2), facts, s2);
                assert(centry.db_view().rel_rows(s2).is_prefix_of(self.db_view().rel_rows(s2)));
                lemma_prefix_trans(
                    old(self).db_view().rel_rows(s2),
                    centry.db_view().rel_rows(s2),
                    self.db_view().rel_rows(s2),
                );
            }
            // hand out the run's pass chain, rooted at the installed state
            let chain = choose|chain: Seq<DatalogContext>|
                #[trigger] pass_chain(chain) && chain.len() >= 1 && chain[0] == centry
                    && chain.last() == cfixed;
            assert(chain.last() == *self);
            assert(chain[0].rules_view() == self.rules_view());
            assert(chain[0].db_view().rel_names() == self.db_view().rel_names());
            assert forall|s2: Symbol|
                #[trigger] old(self).db_view().has_rel(s2) implies chain[0].db_view().rel_rows(s2)
                == spec_insert_facts(old(self).db_view().rel_rows(s2), facts, s2) by {}
            assert forall|i2: int|
                0 <= i2 < rels0.len() && !old(self).db_view().has_rel(
                    (#[trigger] rels0[i2]).symbol,
                ) implies chain[0].db_view().rel_rows(rels0[i2].symbol) == spec_insert_facts(
                Seq::<Seq<Value>>::empty(),
                facts,
                rels0[i2].symbol,
            ) by {}
        }
        Ok(())
    }
}

impl Default for DatalogContext {
    /// An empty context.
    fn default() -> (r: DatalogContext)
        ensures
            r.wf(),
            r.rules_view().len() == 0,
            r.db_view().rels().len() == 0,
            r.db_view().qs().len() == 0,
    {
        DatalogContext::new()
    }
}

/// Whether every tuple of `ra` also stands in `rb`.
fn rows_subset(ra: &Relation, rb: &Relation) -> (r: bool)
    ensures
        r == forall|t: Seq<Value>| #[trigger] seq_has(ra.rows(), t) ==> seq_has(rb.rows(), t),
{
    let n = ra.len();
    let mut i: usize = 0;
    while i < n
        invariant
            i <= n,
            n == ra.rows().len(),
            forall|p: int| 0 <= p < i ==> seq_has(rb.rows(), #[trigger] ra.rows()[p]),
        decreases n - i,
    {
        let row = ra.row_at(i);
        if !rb.contains(row.as_slice()) {
            proof {
                assert(seq_has(ra.rows(), ra.rows()[i as int]));
            }
            return false;
        }
        i += 1;
    }
    proof {
        assert forall|t: Seq<Value>| #[trigger] seq_has(ra.rows(), t) implies seq_has(
            rb.rows(),
            t,
        ) by {
            let p = choose|p: int| 0 <= p < ra.rows().len() && ra.rows()[p] == t;
        }
    }
    true
}

/// The total grows exactly by one relation's growth when only that relation
/// changed.
proof fn lemma_size_change(dbb: Database, dba: Database, symbol: Symbol)
    requires
        dbb.wf(),
        dba.wf(),
        dbb.has_rel(symbol),
        dba.rel_names() == dbb.rel_names(),
        forall|s2: Symbol|
            s2 != symbol && dbb.has_rel(s2) ==> #[trigger] dba.rel_of(s2) == dbb.rel_of(s2),
    ensures
        total_size(dba) - total_size(dbb) == dba.rel_of(symbol).rows().len() - dbb.rel_of(
            symbol,
        ).rows().len(),
{
    let s1 = dbb.rels();
    let s2 = dba.rels();
    assert(s1.len() == s2.len()) by {
        assert(dbb.rel_names().len() == s1.len());
        assert(dba.rel_names().len() == s2.len());
    }
    let k0 = dbb.rel_idx(symbol);
    assert(0 <= k0 < s1.len() && s1[k0].0 == symbol) by {
        let i = choose|i: int|
            0 <= i < dbb.rel_names().len() && (#[trigger] dbb.rel_names()[i]) == symbol;
        assert(s1[i].0 == symbol);
    }
    assert forall|k: int| 0 <= k < s1.len() && k != k0 implies (#[trigger] s1[k]).1.rows().len()
        == (#[trigger] s2[k]).1.rows().len() by {
        assert(dbb.rel_names()[k] == s1[k].0);
        assert(dba.rel_names()[k] == s2[k].0);
        assert(s1[k].0 == s2[k].0);
        assert(s1[k].0 != symbol) by {
            if s1[k].0 == symbol {
                lemma_rel_idx_unique(dbb, symbol, k);
            }
        }
        lemma_rel_idx_unique(dbb, s1[k].0, k);
        lemma_rel_idx_unique(dba, s2[k].0, k);
        assert(dbb.has_rel(s1[k].0));
        assert(dba.rel_of(s1[k].0) == dbb.rel_of(s1[k].0));
    }
    lemma_rels_size_pointwise(s1, s2, k0);
    lemma_rel_idx_unique(dbb, symbol, k0);
    assert(s2[k0].0 == symbol) by {
        assert(dba.rel_names()[k0] == dbb.rel_names()[k0]);
    }
    lemma_rel_idx_unique(dba, symbol, k0);
}

/// Relies on the standard conversion of a vector into an array of the same
/// length: the elements are handed over unchanged.
#[verifier::external_body]
fn vec_to_array<const N: usize>(v: Vec<Value>) -> (r: [Value; N])
    requires
        v@.len() == N,
    ensures
        r@ == v@,
{
    let a: [Value; N] = v.try_into().unwrap();
    a
}

} // verus!
