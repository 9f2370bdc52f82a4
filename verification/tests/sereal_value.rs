use chrysalis::sereal::value::SerealSeenTable;
use chrysalis::shared_model::PerlValue;

#[test]
fn offsets_register_then_get() {
    let mut seen = SerealSeenTable::new();
    let a = seen.allocate(PerlValue::Integer(1));
    let b = seen.allocate(PerlValue::Integer(2));
    seen.register(7, a);
    seen.register(9, b);
    assert_eq!(seen.get(7), Some(a));
    assert_eq!(seen.get(9), Some(b));
    assert_eq!(seen.get(8), None);
    seen.register(7, b);
    assert_eq!(seen.get(7), Some(b));
}

#[test]
fn class_offsets_register_then_get() {
    let mut seen = SerealSeenTable::new();
    seen.register_class(3, "Foo".to_string());
    assert_eq!(seen.get_class(3), Some("Foo".to_string()));
    assert_eq!(seen.get_class(4), None);
    seen.register_class(3, "Bar".to_string());
    assert_eq!(seen.get_class(3), Some("Bar".to_string()));
}

#[test]
fn offsets_table_set_replaces_a_node() {
    let mut seen = SerealSeenTable::new();
    let r = seen.allocate(PerlValue::Undef);
    seen.set(r, PerlValue::Yes);
    assert!(matches!(seen.heap().get(r), PerlValue::Yes));
}
