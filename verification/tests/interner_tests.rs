use code_indexing::IDGenerator;

#[test]
fn intern_same_name_returns_same_id() {
    let mut gen = IDGenerator::new();
    let a = gen.id(&"alpha".to_string());
    let b = gen.id(&"alpha".to_string());
    assert_eq!(a, 1);
    assert_eq!(a, b);
}

#[test]
fn intern_ids_strictly_increase_for_first_seen_names() {
    let mut gen = IDGenerator::new();
    let a = gen.id(&"alpha".to_string());
    let b = gen.id(&"beta".to_string());
    let again = gen.id(&"alpha".to_string());
    let c = gen.id(&"gamma".to_string());
    assert_eq!(a, 1);
    assert_eq!(b, 2);
    assert_eq!(again, 1);
    assert_eq!(c, 3);
}

#[test]
fn resolve_returns_the_interned_name() {
    let mut gen = IDGenerator::new();
    let a = gen.id(&"alpha".to_string());
    assert_eq!(gen.name(a), Some(&"alpha".to_string()));
    assert_eq!(gen.name(0), None);
    assert_eq!(gen.name(7), None);
}
