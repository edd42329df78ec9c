use datastick::ast::{
    Atom, Directive, Error, Program, Query, Relation, Rule, Schema, Term, Type, Value,
};
use datastick::util::{sym, Interner, Symbol};
use datastick::DatalogContext;

fn mkrel(it: &mut Interner, symbol: Symbol, arity: usize) -> Relation {
    let schema = Schema::from_types(it, &vec![<i32 as Type>::type_id(); arity]);
    Relation { symbol, schema }
}

fn var(symbol: Symbol) -> Term {
    Term::Variable(symbol)
}

#[test]
fn simple() {
    let mut it = Interner::new();
    let mut ctx = DatalogContext::default();
    let edge = sym(&mut it, "edge");
    let reachable = sym(&mut it, "reachable");
    let a = sym(&mut it, "a");
    let b = sym(&mut it, "b");
    let c = sym(&mut it, "c");

    let mut edges = vec![];
    for i in [0, 1, 2, 3, 9] {
        edges.push(i.to_value());
        edges.push((i + 1).to_value());
    }

    ctx.add_relation(mkrel(&mut it, edge, 2)).unwrap();
    ctx.add_relation(mkrel(&mut it, reachable, 2)).unwrap();
    ctx.insert_many(edge, &edges).unwrap();

    ctx.add_rule(Rule {
        head: vec![Atom {
            relation: reachable,
            terms: vec![var(a), var(b)],
        }],
        body: Query {
            atoms: vec![Atom {
                relation: edge,
                terms: vec![var(a), var(b)],
            }],
        },
    });

    ctx.add_rule(Rule {
        head: vec![Atom {
            relation: reachable,
            terms: vec![var(a), var(c)],
        }],
        body: Query {
            atoms: vec![
                Atom {
                    relation: edge,
                    terms: vec![var(a), var(b)],
                },
                Atom {
                    relation: reachable,
                    terms: vec![var(b), var(c)],
                },
            ],
        },
    });

    ctx.run().unwrap();

    let mut actual = ctx.collect::<2>(reachable).unwrap();
    println!("{:?}", actual);

    let mut expected = vec![[9.to_value(), 10.to_value()]];
    for i in 0..5 {
        for j in 0..5 {
            if i < j {
                expected.push([i.to_value(), j.to_value()])
            }
        }
    }

    actual.sort();
    actual.dedup();
    expected.sort();
    expected.dedup();
    assert_eq!(expected, actual)
}

fn transitive_closure_context(it: &mut Interner) -> (DatalogContext, Symbol) {
    let mut ctx = DatalogContext::default();
    let edge = sym(it, "edge");
    let reachable = sym(it, "reachable");
    let a = sym(it, "a");
    let b = sym(it, "b");
    let c = sym(it, "c");

    ctx.add_relation(mkrel(it, edge, 2)).unwrap();
    ctx.add_relation(mkrel(it, reachable, 2)).unwrap();
    let mut edges = vec![];
    for (x, y) in [(0u64, 1u64), (1, 2), (2, 3), (3, 4), (9, 10)] {
        edges.push(Value(x));
        edges.push(Value(y));
    }
    ctx.insert_many(edge, &edges).unwrap();
    ctx.add_rule(Rule {
        head: vec![Atom {
            relation: reachable,
            terms: vec![var(a), var(b)],
        }],
        body: Query {
            atoms: vec![Atom {
                relation: edge,
                terms: vec![var(a), var(b)],
            }],
        },
    });
    ctx.add_rule(Rule {
        head: vec![Atom {
            relation: reachable,
            terms: vec![var(a), var(c)],
        }],
        body: Query {
            atoms: vec![
                Atom {
                    relation: edge,
                    terms: vec![var(a), var(b)],
                },
                Atom {
                    relation: reachable,
                    terms: vec![var(b), var(c)],
                },
            ],
        },
    });
    (ctx, reachable)
}

#[test]
fn run_counts_new_tuples_and_second_run_adds_none() {
    let mut it = Interner::new();
    let (mut ctx, reachable) = transitive_closure_context(&mut it);

    let added = ctx.run().unwrap();
    let mut actual = ctx.collect::<2>(reachable).unwrap();
    actual.sort();
    actual.dedup();

    let mut expected = vec![[Value(9), Value(10)]];
    for i in 0u64..5 {
        for j in 0u64..5 {
            if i < j {
                expected.push([Value(i), Value(j)]);
            }
        }
    }
    expected.sort();
    assert_eq!(actual, expected);
    // every derived tuple landed in `reachable`, and each was counted once
    assert_eq!(added, expected.len());

    // a saturated context derives nothing more and is left unchanged
    let again = ctx.run().unwrap();
    assert_eq!(again, 0);
    let mut after = ctx.collect::<2>(reachable).unwrap();
    after.sort();
    after.dedup();
    assert_eq!(after, expected);
}

#[test]
fn run_is_zero_without_rules() {
    let mut it = Interner::new();
    let r = sym(&mut it, "r");
    let mut ctx = DatalogContext::default();
    ctx.add_relation(mkrel(&mut it, r, 1)).unwrap();
    ctx.insert_many(r, &[Value(1)]).unwrap();
    assert_eq!(ctx.run().unwrap(), 0);
}

#[test]
fn fact_errors() {
    let mut it = Interner::new();
    let r = sym(&mut it, "r");
    let missing = sym(&mut it, "missing");
    let x = sym(&mut it, "x");
    let mut ctx = DatalogContext::default();
    ctx.add_relation(mkrel(&mut it, r, 2)).unwrap();

    let non_ground = Atom {
        relation: r,
        terms: vec![Term::Value(Value(1)), Term::Variable(x)],
    };
    assert_eq!(ctx.add_fact(&non_ground), Err(Error::NonGroundFact(r)));

    let undeclared = Atom {
        relation: missing,
        terms: vec![Term::Value(Value(1))],
    };
    assert_eq!(
        ctx.add_fact(&undeclared),
        Err(Error::NoSuchRelation(missing))
    );

    let wrong_width = Atom {
        relation: r,
        terms: vec![Term::Value(Value(1))],
    };
    assert_eq!(ctx.add_fact(&wrong_width), Err(Error::ArityMismatch(r)));

    let ok = Atom {
        relation: r,
        terms: vec![Term::Value(Value(1)), Term::Value(Value(2))],
    };
    assert_eq!(ctx.add_fact(&ok), Ok(()));
}

#[test]
fn duplicate_declaration_fails() {
    let mut it = Interner::new();
    let r = sym(&mut it, "r");
    let mut ctx = DatalogContext::default();
    ctx.add_relation(mkrel(&mut it, r, 1)).unwrap();
    assert_eq!(
        ctx.add_relation(mkrel(&mut it, r, 1)),
        Err(Error::DuplicateRelation(r))
    );
}

#[test]
fn bad_rule_head_fails_step() {
    let mut it = Interner::new();
    let r = sym(&mut it, "r");
    let a = sym(&mut it, "a");
    let mut ctx = DatalogContext::default();
    ctx.add_relation(mkrel(&mut it, r, 1)).unwrap();
    // a constant in the head is a configuration error caught by the pass
    ctx.add_rule(Rule {
        head: vec![Atom {
            relation: r,
            terms: vec![Term::Value(Value(1))],
        }],
        body: Query {
            atoms: vec![Atom {
                relation: r,
                terms: vec![var(a)],
            }],
        },
    });
    assert_eq!(ctx.step(), Err(Error::BadRuleHead));
}

#[test]
fn insert_many_rejects_ragged_buffers() {
    let mut it = Interner::new();
    let r = sym(&mut it, "r");
    let mut ctx = DatalogContext::default();
    ctx.add_relation(mkrel(&mut it, r, 2)).unwrap();
    assert!(ctx.insert_many(r, &[Value(1)]).is_err());
    assert!(ctx.insert_many(r, &[Value(1), Value(2)]).is_ok());
}

#[test]
fn collect_checks_arity() {
    let mut it = Interner::new();
    let r = sym(&mut it, "r");
    let mut ctx = DatalogContext::default();
    ctx.add_relation(mkrel(&mut it, r, 2)).unwrap();
    ctx.insert_many(r, &[Value(1), Value(2)]).unwrap();
    assert_eq!(ctx.collect::<3>(r), Err(Error::ArityMismatch(r)));
    assert_eq!(ctx.collect::<2>(r).unwrap(), vec![[Value(1), Value(2)]]);
}

#[test]
fn eval_program_checks_directives() {
    let mut it = Interner::new();
    let p = sym(&mut it, "p");
    let q = sym(&mut it, "q");
    let x = sym(&mut it, "x");

    // q is p copied by one rule, so the two must end up equal
    let schema_p = mkrel(&mut it, p, 1);
    let schema_q = mkrel(&mut it, q, 1);
    let prog = Program {
        relations: vec![schema_p, schema_q],
        rules: vec![Rule {
            head: vec![Atom {
                relation: q,
                terms: vec![var(x)],
            }],
            body: Query {
                atoms: vec![Atom {
                    relation: p,
                    terms: vec![var(x)],
                }],
            },
        }],
        facts: vec![
            Atom {
                relation: p,
                terms: vec![Term::Value(Value(1))],
            },
            Atom {
                relation: p,
                terms: vec![Term::Value(Value(2))],
            },
        ],
        directives: vec![Directive::AssertEq(p, q)],
    };
    let mut ctx = DatalogContext::default();
    assert_eq!(ctx.eval(prog), Ok(()));
}

#[test]
fn eval_program_reports_unequal_relations() {
    let mut it = Interner::new();
    let p = sym(&mut it, "p");
    let q = sym(&mut it, "q");

    let schema_p = mkrel(&mut it, p, 1);
    let schema_q = mkrel(&mut it, q, 1);
    let prog = Program {
        relations: vec![schema_p, schema_q],
        rules: vec![],
        facts: vec![Atom {
            relation: p,
            terms: vec![Term::Value(Value(1))],
        }],
        directives: vec![Directive::AssertEq(p, q)],
    };
    let mut ctx = DatalogContext::default();
    assert_eq!(ctx.eval(prog), Err(Error::AssertNotEqual(p, q)));
}

#[test]
fn unbound_head_variable_fails_step() {
    let mut it = Interner::new();
    let r = sym(&mut it, "r");
    let a = sym(&mut it, "a");
    let loose = sym(&mut it, "loose");
    let mut ctx = DatalogContext::default();
    ctx.add_relation(mkrel(&mut it, r, 2)).unwrap();
    // the head mentions a variable the body never binds
    ctx.add_rule(Rule {
        head: vec![Atom {
            relation: r,
            terms: vec![var(a), var(loose)],
        }],
        body: Query {
            atoms: vec![Atom {
                relation: r,
                terms: vec![var(a), var(a)],
            }],
        },
    });
    assert_eq!(ctx.step(), Err(Error::UnknownVariable(loose)));
}

#[test]
fn eval_program_rejects_undeclared_directive_name() {
    let mut it = Interner::new();
    let p = sym(&mut it, "p");
    let ghostly = sym(&mut it, "ghostly");
    let prog = Program {
        relations: vec![mkrel(&mut it, p, 1)],
        rules: vec![],
        facts: vec![],
        directives: vec![Directive::AssertEq(p, ghostly)],
    };
    let mut ctx = DatalogContext::default();
    assert_eq!(ctx.eval(prog), Err(Error::NoSuchRelation(ghostly)));
}
