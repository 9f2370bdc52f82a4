use chrysalis::storable::value::{ByteMap, ClassTable, Heap, PerlValue, SeenTable};

#[test]
fn register_returns_sequential_indices() {
    let mut table = SeenTable::new();
    let a = table.allocate(PerlValue::Integer(1));
    let b = table.allocate(PerlValue::Integer(2));
    assert_eq!(table.register(a), 0);
    assert_eq!(table.register(b), 1);
}

#[test]
fn get_returns_the_registered_value() {
    let mut table = SeenTable::new();
    let val = table.allocate(PerlValue::Integer(42));
    let idx = table.register(val);
    let fetched = table.get(idx).unwrap();
    assert_eq!(val, fetched); // the same node, not a copy
    assert!(matches!(table.heap().get(fetched), PerlValue::Integer(42)));
}

#[test]
fn get_out_of_range_returns_none() {
    let table = SeenTable::new();
    assert!(table.get(0).is_none());
}

#[test]
fn shared_registration_preserves_identity() {
    // Register the same value twice: both indices resolve to the same node.
    let mut table = SeenTable::new();
    let val = table.allocate(PerlValue::Integer(42));
    let i = table.register(val);
    let j = table.register(val);
    assert_eq!(table.get(i).unwrap(), table.get(j).unwrap());
}

#[test]
fn allocating_does_not_register() {
    let mut table = SeenTable::default();
    table.allocate(PerlValue::Undef);
    assert_eq!(table.len(), 0);
    assert_eq!(table.heap().len(), 1);
}

#[test]
fn set_replaces_a_node() {
    let mut table = SeenTable::new();
    let r = table.allocate(PerlValue::Undef);
    table.set(r, PerlValue::Integer(9));
    assert!(matches!(table.heap().get(r), PerlValue::Integer(9)));
}

#[test]
fn class_table_registers_in_order() {
    let mut classes = ClassTable::new();
    assert_eq!(classes.register("Animal".to_string()), 0);
    assert_eq!(classes.register("Dog".to_string()), 1);
    assert_eq!(classes.get(0), Some("Animal"));
    assert_eq!(classes.get(1), Some("Dog"));
    assert_eq!(classes.get(2), None);
    assert_eq!(ClassTable::default().get(0), None);
}

#[test]
fn wrap_places_a_value_in_the_heap() {
    let mut heap = Heap::new();
    let a = PerlValue::wrap(&mut heap, PerlValue::Integer(1));
    let b = PerlValue::wrap(&mut heap, PerlValue::Ref(a));
    assert_eq!((a, b), (0, 1));
    assert!(matches!(heap.get(b), PerlValue::Ref(0)));
    assert_eq!(heap.len(), 2);
}

#[test]
fn byte_map_insert_then_get() {
    let mut m: ByteMap<u8> = ByteMap::new();
    m.insert(b"a".to_vec(), 1);
    m.insert(b"b".to_vec(), 2);
    m.insert(b"a".to_vec(), 3);
    assert_eq!(m.len(), 2);
    assert_eq!(m.get(b"a"), Some(3));
    assert_eq!(m.get(b"b"), Some(2));
    assert_eq!(m.get(b"c"), None);
    assert!(m.contains_key(b"b"));
    assert!(!m.contains_key(b"c"));
}
