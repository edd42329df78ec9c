use datastick::util::{sym, Interner, Symbol};

#[test]
fn test_symbols() {
    let mut it = Interner::new();
    let foo = Symbol::new(&mut it, "foo");
    let foo2 = Symbol::new(&mut it, &("fo".to_string() + "o"));
    assert_eq!(foo, foo2);
    assert_eq!(it.resolve(foo), "foo");
    assert_eq!(it.resolve(foo2), "foo");
}

#[test]
fn distinct_texts_distinct_symbols() {
    let mut it = Interner::new();
    let a = sym(&mut it, "a");
    let b = sym(&mut it, "b");
    let a2 = sym(&mut it, "a");
    assert_ne!(a, b);
    assert_eq!(a, a2);
    assert_eq!(it.resolve(a), "a");
    assert_eq!(it.resolve(b), "b");
}
