use datastick::ast::{Schema, Type};
use datastick::util::{Interner, Symbol};

#[test]
fn test_schema() {
    let mut it = Interner::new();
    let a = Symbol::new(&mut it, "a");
    let b = Symbol::new(&mut it, "b");

    let s1 = Schema::from_named_types(vec![
        (a, <i32 as Type>::type_id()),
        (b, <i32 as Type>::type_id()),
    ]);
    let s2 = Schema::from_named_types(vec![
        (a, <i32 as Type>::type_id()),
        (b, <i32 as Type>::type_id()),
    ]);
    assert_eq!(s1, s2);

    let s3 = Schema::from_named_types(vec![
        (b, <i32 as Type>::type_id()),
        (a, <i32 as Type>::type_id()),
    ]);
    let s4 = Schema::from_types(
        &mut it,
        &[<i32 as Type>::type_id(), <i32 as Type>::type_id()],
    );
    assert_ne!(s1, s3);
    assert_ne!(s1, s4);

    let s5 = Schema::from_types(
        &mut it,
        &[<i32 as Type>::type_id(), <i32 as Type>::type_id()],
    );
    assert_eq!(s4, s5);
}

#[test]
fn schema_len() {
    let mut it = Interner::new();
    let s = Schema::from_types(&mut it, &[<i32 as Type>::type_id()]);
    assert_eq!(s.len(), 1);
    assert!(!s.is_empty());
    let e = Schema::from_types(&mut it, &[]);
    assert_eq!(e.len(), 0);
    assert!(e.is_empty());
}
