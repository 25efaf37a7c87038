use std::any::TypeId;
use std::rc::Rc;

use trait_kit::erased::AnyBox;
use trait_kit::typemap::TypeMap;

#[test]
fn typemap_insert_then_get_cloned_returns_value() {
    let mut map = TypeMap::new();
    map.insert(42i32);
    assert_eq!(map.get_cloned::<i32>(), Some(42));
}

#[test]
fn no_send_sync_bound_required() {
    let mut map = TypeMap::new();
    let rc = Rc::new(42);
    map.insert(rc.clone());
    assert_eq!(map.get_cloned::<Rc<i32>>(), Some(rc));
}

#[test]
fn typemap_insert_boxed_and_get_by_type_id() {
    let mut map = TypeMap::new();
    let type_id = TypeId::of::<i32>();
    map.insert_boxed(type_id, AnyBox::new(42i32));
    assert!(map.contains_by_type_id(type_id));
    assert_eq!(map.get_cloned_by_type_id::<i32>(type_id), Some(42));
}

#[test]
fn typemap_overwrite_existing_entry() {
    let mut map = TypeMap::new();
    map.insert(1i32);
    map.insert(2i32);
    assert_eq!(map.get_cloned::<i32>(), Some(2));
}

#[test]
fn typemap_get_cloned_returns_none_for_missing_key() {
    let map = TypeMap::new();
    assert_eq!(map.get_cloned::<i32>(), None);
}

#[test]
fn typemap_contains_returns_correct_bool() {
    let mut map = TypeMap::new();
    assert!(!map.contains::<i32>());
    map.insert(42i32);
    assert!(map.contains::<i32>());
    assert!(!map.contains::<u64>());
}

#[test]
fn typemap_len_returns_entry_count() {
    let mut map = TypeMap::new();
    assert_eq!(map.len(), 0);
    map.insert(1i32);
    assert_eq!(map.len(), 1);
    map.insert("a".to_string());
    assert_eq!(map.len(), 2);
}

#[test]
fn typemap_default_creates_empty_map() {
    let map = TypeMap::default();
    assert_eq!(map.len(), 0);
    assert!(map.get_cloned::<i32>().is_none());
}

#[test]
fn typemap_contains_by_type_id_returns_false_for_missing() {
    let map = TypeMap::new();
    let tid = TypeId::of::<i32>();
    assert!(!map.contains_by_type_id(tid));
}

#[test]
fn typemap_get_cloned_by_type_id_returns_none_for_wrong_type() {
    let mut map = TypeMap::new();
    let i32_id = TypeId::of::<i32>();
    map.insert_boxed(i32_id, AnyBox::new(42i32));
    let u64_id = TypeId::of::<u64>();
    assert_eq!(map.get_cloned_by_type_id::<u64>(u64_id), None);
    assert_eq!(map.get_cloned_by_type_id::<u64>(i32_id), None);
}

#[test]
fn typemap_overwrite_keeps_len_and_other_keys() {
    let mut map = TypeMap::new();
    map.insert(1i32);
    map.insert(7u64);
    map.insert(3i32);
    assert_eq!(map.len(), 2);
    assert_eq!(map.get_cloned::<i32>(), Some(3));
    assert_eq!(map.get_cloned::<u64>(), Some(7));
}
