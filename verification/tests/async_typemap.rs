use std::any::TypeId;

use trait_kit::async_typemap::AsyncTypeMap;
use trait_kit::erased::SharedAnyBox;

#[test]
fn async_typemap_insert_then_get_cloned_returns_value() {
    let mut map = AsyncTypeMap::new();
    map.insert(42i32);
    assert_eq!(map.get_cloned::<i32>(), Some(42));
}

#[test]
fn async_typemap_insert_boxed_and_get_by_type_id() {
    let mut map = AsyncTypeMap::new();
    let type_id = TypeId::of::<i32>();
    map.insert_boxed(type_id, SharedAnyBox::new(42i32));
    assert!(map.contains_by_type_id(type_id));
    assert_eq!(map.get_cloned_by_type_id::<i32>(type_id), Some(42));
}

#[test]
fn async_typemap_overwrite_existing_entry() {
    let mut map = AsyncTypeMap::new();
    map.insert(1i32);
    map.insert(2i32);
    assert_eq!(map.get_cloned::<i32>(), Some(2));
}

#[test]
fn async_typemap_get_cloned_returns_none_for_missing_key() {
    let map = AsyncTypeMap::new();
    assert_eq!(map.get_cloned::<i32>(), None);
}

#[test]
fn async_typemap_contains_returns_correct_bool() {
    let mut map = AsyncTypeMap::new();
    assert!(!map.contains::<i32>());
    map.insert(42i32);
    assert!(map.contains::<i32>());
    assert!(!map.contains::<u64>());
}

#[test]
fn async_typemap_contains_by_type_id_returns_false_for_missing() {
    let map = AsyncTypeMap::new();
    let tid = TypeId::of::<i32>();
    assert!(!map.contains_by_type_id(tid));
}

#[test]
fn async_typemap_get_cloned_by_type_id_returns_none_for_wrong_type() {
    let mut map = AsyncTypeMap::new();
    let i32_id = TypeId::of::<i32>();
    map.insert_boxed(i32_id, SharedAnyBox::new(42i32));
    let u64_id = TypeId::of::<u64>();
    assert_eq!(map.get_cloned_by_type_id::<u64>(u64_id), None);
    assert_eq!(map.get_cloned_by_type_id::<u64>(i32_id), None);
}

#[test]
fn async_typemap_len_returns_entry_count() {
    let mut map = AsyncTypeMap::new();
    assert_eq!(map.len(), 0);
    map.insert(1i32);
    assert_eq!(map.len(), 1);
    map.insert("a".to_string());
    assert_eq!(map.len(), 2);
}

#[test]
fn async_typemap_default_creates_empty_map() {
    let map = AsyncTypeMap::default();
    assert_eq!(map.len(), 0);
    assert!(map.get_cloned::<i32>().is_none());
}

#[test]
fn read_by_type_id_returns_some_for_existing() {
    let mut map = AsyncTypeMap::new();
    map.insert(42i32);
    let i32_id = TypeId::of::<i32>();
    let result = map.read_by_type_id::<i32>(i32_id);
    assert!(result.is_some());
    let guard = result.unwrap();
    assert_eq!(*guard, 42);
}

#[test]
fn read_by_type_id_returns_none_for_missing() {
    let map = AsyncTypeMap::new();
    let i32_id = TypeId::of::<i32>();
    let result = map.read_by_type_id::<i32>(i32_id);
    assert!(result.is_none());
}

#[test]
fn read_by_type_id_returns_none_for_wrong_type() {
    let mut map = AsyncTypeMap::new();
    map.insert(42i32);
    let i32_id = TypeId::of::<i32>();
    let result = map.read_by_type_id::<u64>(i32_id);
    assert!(result.is_none());
}

#[test]
fn read_guard_and_reference_are_inseparable() {
    let mut map = AsyncTypeMap::new();
    map.insert(42i32);
    let tid = TypeId::of::<i32>();

    let guard = map.read_by_type_id::<i32>(tid).unwrap();
    assert_eq!(*guard, 42);

    let val_ref: &i32 = &guard;
    assert_eq!(*val_ref, 42);

    drop(guard);
    map.insert(7i32);
    assert_eq!(map.get_cloned::<i32>(), Some(7));
}

#[test]
fn async_typemap_is_send_and_sync() {
    fn assert_send_sync<T: Send + Sync>() {}
    assert_send_sync::<AsyncTypeMap>();
}
