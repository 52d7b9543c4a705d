use sicht::birelational_map::anyvec_map::BirelationalAnyValueMap;
use sicht::birelational_map::any_value::{AnyValue, ValueKind};
use sicht::birelational_map::BirelationalId;

type TestMap = BirelationalAnyValueMap;

fn text(s: &str) -> AnyValue {
    AnyValue::Str(String::from(s))
}

#[test]
fn birelational_anymap_inserting() {
    let mut map = TestMap::new();
    map.insert(10usize, AnyValue::I32(20));

    let value = map.get(10usize, ValueKind::I32).unwrap()[0].clone();
    assert_eq!(value, AnyValue::I32(20));

    let key = *map.get_value(AnyValue::I32(20)).unwrap()[0];
    assert_eq!(key, 10);
}

#[test]
fn birelational_anymap_inserting_twice() {
    let mut map = TestMap::new();
    map.insert(10usize, AnyValue::I32(20));
    map.insert(10usize, AnyValue::I32(30));

    let value = map.get(10usize, ValueKind::I32).unwrap();
    assert_eq!(*value[0], AnyValue::I32(20));
    assert_eq!(*value[1], AnyValue::I32(30));

    let key = *map.get_value(AnyValue::I32(30)).unwrap()[0];
    assert_eq!(key, 10);

    let key = *map.get_value(AnyValue::I32(20)).unwrap()[0];
    assert_eq!(key, 10);
}

#[test]
fn birelational_anymap_removal() {
    let mut map = TestMap::new();
    map.insert(10usize, AnyValue::I32(20));
    map.insert(10usize, AnyValue::I32(30));

    map.remove(10usize, AnyValue::I32(30));

    let values = map.get(10usize, ValueKind::I32).unwrap();
    assert_eq!(values.len(), 1);
    assert_eq!(*values[0], AnyValue::I32(20));
}

#[test]
fn different_types() {
    let mut map = TestMap::new();
    map.insert(10usize, AnyValue::Usize(20));
    map.insert(10usize, text("hello, world"));
    map.insert(10usize, AnyValue::I32(20));

    let value = map.get(10usize, ValueKind::Str).unwrap();
    assert_eq!(*value[0], text("hello, world"));

    let value = map.get(10usize, ValueKind::I32).unwrap();
    assert_eq!(*value[0], AnyValue::I32(20));

    let value = map.get(10usize, ValueKind::Usize).unwrap();
    assert_eq!(*value[0], AnyValue::Usize(20));

    let value = map.get_value(text("hello, world")).unwrap();
    assert_eq!(*value[0], 10);

    let value = map.get_value(AnyValue::Usize(20)).unwrap();
    assert_eq!(*value[0], 10);

    let value = map.get_value(AnyValue::I32(20)).unwrap();
    assert_eq!(*value[0], 10);
}

#[test]
fn different_types_multiple() {
    let mut map = TestMap::new();
    map.insert(10usize, text("hello, world"));
    map.insert(10usize, text("world, hello"));
    map.insert(10usize, AnyValue::I32(20));
    map.insert(10usize, AnyValue::I32(30));

    let value = map.get(10usize, ValueKind::Str).unwrap();
    assert_eq!(*value[0], text("hello, world"));
    assert_eq!(*value[1], text("world, hello"));

    let value = map.get(10usize, ValueKind::I32).unwrap();
    assert_eq!(*value[0], AnyValue::I32(20));
    assert_eq!(*value[1], AnyValue::I32(30));
}

#[test]
fn mutable_typed_lookup() {
    let mut map = TestMap::new();
    map.insert(10usize, AnyValue::I32(20));
    map.insert(10usize, AnyValue::I32(30));
    map.insert(10usize, text("hello, world"));

    let mut values = map.get_by_id_mut(10usize, ValueKind::I32).unwrap();
    values.set(0, AnyValue::I32(25));
    values.set(1, AnyValue::I32(35));
    drop(values);

    let values = map.get(10usize, ValueKind::I32).unwrap();
    assert_eq!(*values[0], AnyValue::I32(25));
    assert_eq!(*values[1], AnyValue::I32(35));

    let mut strings = map.get_mut(10usize, ValueKind::Str).unwrap();
    strings.set(0, text("changed"));
    drop(strings);

    let strings = map.get(10usize, ValueKind::Str).unwrap();
    assert_eq!(*strings[0], text("changed"));
}

#[test]
fn mutable_keys_and_values_of() {
    let mut map = TestMap::new();
    map.insert(10usize, AnyValue::I32(20));
    map.insert(11usize, AnyValue::I32(30));

    let mut values = map.values_of_mut(ValueKind::I32);
    for i in 0..values.len() {
        if let Some(AnyValue::I32(x)) = values.get(i).cloned() {
            values.set(i, AnyValue::I32(x + 1));
        }
    }
    drop(values);

    let values = map.values_of(ValueKind::I32);
    assert_eq!(*values[0], AnyValue::I32(21));
    assert_eq!(*values[1], AnyValue::I32(31));

    let mut keys = map.keys_mut();
    for i in 0..keys.len() {
        let key = keys.get(i).unwrap();
        keys.set(i, key + 100);
    }
    drop(keys);

    let keys = map.keys();
    assert_eq!(*keys[0], 110);
    assert_eq!(*keys[1], 111);
}

#[test]
fn anymap_unknown_ids_give_none() {
    let mut map = TestMap::default();
    assert!(map.get(1, ValueKind::I32).is_none());
    assert!(map.get_value(AnyValue::I32(1)).is_none());
    map.insert(1, AnyValue::I32(5));
    assert!(map.get(2, ValueKind::I32).is_none());
    assert!(map.get_value(AnyValue::U8(5)).is_none());
    assert_eq!(map.get(1, ValueKind::U8).unwrap().len(), 0);
}

#[test]
fn anymap_same_pair_is_stored_twice() {
    let mut map = TestMap::new();
    map.insert(1, AnyValue::U64(7));
    map.insert(1, AnyValue::U64(7));
    assert_eq!(map.get(1, ValueKind::U64).unwrap().len(), 2);
    assert_eq!(map.get_value(AnyValue::U64(7)).unwrap().len(), 2);
    map.remove(1, AnyValue::U64(7));
    assert_eq!(map.get(1, ValueKind::U64).unwrap().len(), 0);
    assert_eq!(map.get_value(AnyValue::U64(7)).unwrap().len(), 0);
}

#[test]
fn anymap_get_value_matches_kind_and_value() {
    let mut map = TestMap::new();
    map.insert(1, AnyValue::I8(3));
    map.insert(2, AnyValue::I8(4));
    map.insert(3, AnyValue::I8(3));
    map.insert(4, AnyValue::I16(3));
    let keys: Vec<usize> = map.get_value(AnyValue::I8(3)).unwrap().into_iter().copied().collect();
    assert_eq!(keys, vec![1, 3]);
    let keys: Vec<usize> = map.get_value(AnyValue::I16(3)).unwrap().into_iter().copied().collect();
    assert_eq!(keys, vec![4]);
}

#[test]
fn anymap_insert_ref_uses_existing_key() {
    let mut map = TestMap::new();
    map.insert(1, AnyValue::U32(1));
    map.insert_ref(&1, AnyValue::U32(2));
    map.insert_boxed_ref(&1, 77, AnyValue::U32(3));
    map.insert_boxed(2, 77, AnyValue::U32(4));
    let values = map.get(1, ValueKind::U32).unwrap();
    assert_eq!(values.len(), 3);
    assert_eq!(*values[2], AnyValue::U32(3));
    // Value id 77 was given by hand: `get_value` looks under the id of the
    // value's kind and does not see these relations.
    let keys = map.get_value(AnyValue::U32(3)).unwrap();
    assert_eq!(keys.len(), 0);
    assert_eq!(map.keys().len(), 2);
}

#[test]
fn anymap_remove_keeps_other_values_in_order() {
    let mut map = TestMap::new();
    map.insert(1, text("a"));
    map.insert(1, text("b"));
    map.insert(1, text("a"));
    map.insert(1, text("c"));
    map.remove(1, text("a"));
    let values = map.get(1, ValueKind::Str).unwrap();
    assert_eq!(values.len(), 2);
    assert_eq!(*values[0], text("b"));
    assert_eq!(*values[1], text("c"));
}

#[test]
fn anymap_kind_numbers_are_distinct() {
    let all = [
        AnyValue::Isize(0),
        AnyValue::Usize(0),
        AnyValue::I8(0),
        AnyValue::U8(0),
        AnyValue::I16(0),
        AnyValue::U16(0),
        AnyValue::I32(0),
        AnyValue::U32(0),
        AnyValue::I64(0),
        AnyValue::U64(0),
        AnyValue::I128(0),
        AnyValue::U128(0),
        text(""),
    ];
    for (i, v) in all.iter().enumerate() {
        assert_eq!(v.get_id(), i);
    }
    assert_eq!(5usize.get_id(), 5);
    assert!(AnyValue::I32(1).same_as(&AnyValue::I32(1)));
    assert!(!AnyValue::I32(1).same_as(&AnyValue::I64(1)));
    assert!(!text("x").same_as(&text("y")));
}

#[test]
fn anymap_typed_access_refuses_other_kinds() {
    let mut map = TestMap::new();
    map.insert(1, AnyValue::I32(5));
    assert!(map.has_room_for(1));
    let mut values = map.get_mut(1, ValueKind::I32).unwrap();
    assert_eq!(values.len(), 1);
    assert!(!values.set(0, AnyValue::I64(6)));
    assert!(!values.set(1, AnyValue::I32(6)));
    assert!(values.set(0, AnyValue::I32(6)));
    assert_eq!(values.get(0), Some(&AnyValue::I32(6)));
    assert_eq!(values.get(1), None);
    drop(values);
    assert_eq!(*map.get(1, ValueKind::I32).unwrap()[0], AnyValue::I32(6));
}

#[test]
fn anymap_remove_leaves_other_keys_and_values() {
    let mut map = TestMap::new();
    map.insert(1, AnyValue::I32(5));
    map.insert(1, AnyValue::I32(6));
    map.insert(2, AnyValue::I32(5));
    map.insert(1, text("s"));
    map.remove(1, AnyValue::I32(5));
    let values = map.get(1, ValueKind::I32).unwrap();
    assert_eq!(values.len(), 1);
    assert_eq!(*values[0], AnyValue::I32(6));
    assert_eq!(*map.get(1, ValueKind::Str).unwrap()[0], text("s"));
    assert_eq!(*map.get(2, ValueKind::I32).unwrap()[0], AnyValue::I32(5));
    let keys: Vec<usize> = map.get_value(AnyValue::I32(5)).unwrap().into_iter().copied().collect();
    assert_eq!(keys, vec![2]);
    let keys: Vec<usize> = map.get_value(AnyValue::I32(6)).unwrap().into_iter().copied().collect();
    assert_eq!(keys, vec![1]);
}

#[test]
fn anymap_insert_boxed_on_known_key_keeps_stored_key() {
    let mut map = TestMap::new();
    map.insert(1, AnyValue::U8(1));
    let mut keys = map.keys_mut();
    assert!(keys.set(0, 9));
    drop(keys);
    map.insert_boxed(1, 3, AnyValue::U8(2));
    assert_eq!(map.keys().len(), 1);
    assert_eq!(*map.keys()[0], 9);
    assert_eq!(map.get(1, ValueKind::U8).unwrap().len(), 2);
}
