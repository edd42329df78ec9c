use datastick::ast::{Atom, Error, Query, Term, Type, Value};
use datastick::db::{Database, QueryHandle, Relation};
use datastick::util::{sym, Interner, Symbol};

fn atom(relation: Symbol, terms: Vec<Term>) -> Atom {
    Atom { relation, terms }
}

fn var(s: Symbol) -> Term {
    Term::Variable(s)
}

fn flat(pairs: &[(u64, u64)]) -> Vec<Value> {
    let mut out = Vec::new();
    for &(x, y) in pairs {
        out.push(Value(x));
        out.push(Value(y));
    }
    out
}

fn eval_and_check(db: &Database, handle: QueryHandle, vars: &[Symbol], expected: &[Vec<u64>]) {
    let idxs = db.get_indexes(handle, vars).unwrap();
    let out = db.eval_query(handle).unwrap();
    let mut results: Vec<Vec<u64>> = out
        .iter()
        .map(|t| idxs.iter().map(|&i| t[i].0).collect())
        .collect();
    let mut expected: Vec<Vec<u64>> = expected.to_vec();
    results.sort();
    results.dedup();
    expected.sort();
    expected.dedup();
    assert_eq!(results, expected);
}

#[test]
fn triangle() {
    let mut it = Interner::new();
    let r = sym(&mut it, "R");
    let a = sym(&mut it, "a");
    let b = sym(&mut it, "b");
    let c = sym(&mut it, "c");

    let mut db = Database::default();
    let n = 10;

    let mut tuples = vec![(0, 1), (1, 2), (2, 0)];
    for i in 0..n {
        for j in 0..n {
            if i < j {
                tuples.push((i, j));
            }
        }
    }

    db.add_relation(r, 2).unwrap();
    db.insert_flat(r, &flat(&tuples)).unwrap();
    let q1 = db.add_query(Query {
        atoms: vec![
            atom(r, vec![var(a), var(b)]),
            atom(r, vec![var(b), var(c)]),
            atom(r, vec![var(c), var(a)]),
        ],
    });
    eval_and_check(
        &db,
        q1,
        &[a, b, c],
        &[vec![0, 1, 2], vec![1, 2, 0], vec![2, 0, 1]],
    );
}

#[test]
fn same_var() {
    let mut it = Interner::new();
    let r = sym(&mut it, "R");
    let a = sym(&mut it, "a");
    let b = sym(&mut it, "b");

    let mut db = Database::default();
    db.add_relation(r, 3).unwrap();
    let mut rows = Vec::new();
    for t in [(1, 2, 3), (1, 2, 1), (1, 1, 2), (2, 1, 1)] {
        rows.push(Value(t.0));
        rows.push(Value(t.1));
        rows.push(Value(t.2));
    }
    db.insert_flat(r, &rows).unwrap();

    let q1 = db.add_query(Query {
        atoms: vec![atom(r, vec![var(a), var(a), var(b)])],
    });
    eval_and_check(&db, q1, &[a, b], &[vec![1, 2]]);
}

#[test]
fn query_with_constant_term() {
    let mut it = Interner::new();
    let r = sym(&mut it, "R");
    let x = sym(&mut it, "x");

    let mut db = Database::default();
    db.add_relation(r, 2).unwrap();
    db.insert_flat(r, &flat(&[(1, 7), (2, 7), (3, 8)])).unwrap();

    let q = db.add_query(Query {
        atoms: vec![atom(r, vec![var(x), Term::Value(Value(7))])],
    });
    eval_and_check(&db, q, &[x], &[vec![1], vec![2]]);
}

#[test]
fn unknown_variable_fails() {
    let mut it = Interner::new();
    let r = sym(&mut it, "R");
    let a = sym(&mut it, "a");
    let z = sym(&mut it, "z");

    let mut db = Database::default();
    db.add_relation(r, 1).unwrap();
    let q = db.add_query(Query {
        atoms: vec![atom(r, vec![var(a)])],
    });
    assert_eq!(db.get_indexes(q, &[a, z]), Err(Error::UnknownVariable(z)));
    assert_eq!(db.get_index(q, z), Err(Error::UnknownVariable(z)));
}

#[test]
fn foreign_handle_fails() {
    let mut it = Interner::new();
    let r = sym(&mut it, "R");
    let a = sym(&mut it, "a");

    let mut db1 = Database::default();
    db1.add_relation(r, 1).unwrap();
    let _q1 = db1.add_query(Query {
        atoms: vec![atom(r, vec![var(a)])],
    });

    let mut db2 = Database::default();
    db2.add_relation(r, 1).unwrap();
    let _ = db2.add_query(Query {
        atoms: vec![atom(r, vec![var(a)])],
    });
    let stale = db2.add_query(Query {
        atoms: vec![atom(r, vec![var(a)])],
    });
    // db1 issued only one handle, so db2's second handle is foreign to it
    assert_eq!(db1.eval_query(stale), Err(Error::UnknownHandle));
}

#[test]
fn duplicate_relation_fails() {
    let mut it = Interner::new();
    let r = sym(&mut it, "R");
    let mut db = Database::default();
    db.add_relation(r, 2).unwrap();
    assert_eq!(db.add_relation(r, 2), Err(Error::DuplicateRelation(r)));
}

#[test]
fn removed_relation_is_gone() {
    let mut it = Interner::new();
    let r = sym(&mut it, "R");
    let mut db = Database::default();
    db.add_relation(r, 2).unwrap();
    let rel = db.remove_relation(r).unwrap();
    assert_eq!(rel.len(), 0);
    assert!(db.get_relation(r).is_err());
    assert!(matches!(db.remove_relation(r), Err(Error::NoSuchRelation(_))));
}

#[test]
fn insert_is_idempotent() {
    let mut it = Interner::new();
    let r = sym(&mut it, "R");
    let mut db = Database::default();
    db.add_relation(r, 2).unwrap();
    let t = [Value(4), Value(5)];
    db.insert_tuple(r, &t).unwrap();
    let once = db.rel_len(r).unwrap();
    db.insert_tuple(r, &t).unwrap();
    assert_eq!(db.rel_len(r).unwrap(), once);
    assert_eq!(once, 1);
    assert!(db.get_relation(r).unwrap().contains(&t));
}

#[test]
fn all_constant_atom_checks_membership() {
    let mut it = Interner::new();
    let r = sym(&mut it, "R");

    let mut db = Database::default();
    db.add_relation(r, 2).unwrap();
    db.insert_flat(r, &flat(&[(1, 2)])).unwrap();

    let hit = db.add_query(Query {
        atoms: vec![atom(r, vec![Term::Value(Value(1)), Term::Value(Value(2))])],
    });
    let miss = db.add_query(Query {
        atoms: vec![atom(r, vec![Term::Value(Value(2)), Term::Value(Value(1))])],
    });
    // no variables: the join emits the one empty assignment exactly when the
    // constants are present
    assert_eq!(db.eval_query(hit).unwrap(), vec![Vec::<Value>::new()]);
    assert_eq!(db.eval_query(miss).unwrap(), Vec::<Vec<Value>>::new());
}

#[test]
fn insert_arrays_converts_and_dedups() {
    let mut rel = Relation::new(2);
    rel.insert_arrays(&[[1i32, 2], [1, 2], [3, 4]]);
    assert_eq!(rel.len(), 2);
    assert!(rel.contains(&[1i32.to_value(), 2i32.to_value()]));
    assert!(rel.contains(&[Value(3), Value(4)]));
    assert!(!rel.contains(&[Value(2), Value(1)]));
}
