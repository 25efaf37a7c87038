use std::sync::Arc;

use trait_kit::capability_store::CapabilityStore;
use trait_kit::config_store::ConfigStore;
use trait_kit::error::KitError;
use trait_kit::modules::{CapabilityKey, ConfigKey};

struct TestKey;
impl CapabilityKey for TestKey {
    type Capability = dyn Send + Sync;
    const NAME: &'static str = "test_key";
}

struct TestConfig;
impl ConfigKey for TestConfig {
    type Config = i32;
    const NAME: &'static str = "test_config";
}

struct OtherConfig;
impl ConfigKey for OtherConfig {
    type Config = String;
    const NAME: &'static str = "other_config";
}

#[test]
fn capability_store_default_creates_empty_store() {
    let store = CapabilityStore::default();
    assert_eq!(store.len(), 0, "default CapabilityStore should be empty");
}

#[test]
fn provide_inserts_capability() {
    let mut store = CapabilityStore::default();
    assert!(!store.contains::<TestKey>());
    store
        .provide::<TestKey>(Arc::new(42i32) as Arc<dyn Send + Sync>)
        .unwrap();
    assert!(store.contains::<TestKey>());
}

#[test]
fn provide_duplicate_returns_error() {
    let mut store = CapabilityStore::default();
    store
        .provide::<TestKey>(Arc::new(1i32) as Arc<dyn Send + Sync>)
        .unwrap();
    let err = store
        .provide::<TestKey>(Arc::new(2i32) as Arc<dyn Send + Sync>)
        .unwrap_err();
    assert!(matches!(err, KitError::DuplicateCapability { key: "test_key" }));
}

#[test]
fn replace_overwrites_existing() {
    let mut store = CapabilityStore::default();
    assert!(!store.contains::<TestKey>());
    store.replace::<TestKey>(Arc::new(1i32) as Arc<dyn Send + Sync>);
    assert!(store.contains::<TestKey>());
}

#[test]
fn require_returns_stored_capability() {
    let mut store = CapabilityStore::default();
    store
        .provide::<TestKey>(Arc::new(42i32) as Arc<dyn Send + Sync>)
        .unwrap();
    let result = store.require::<TestKey>();
    assert!(result.is_ok());
}

#[test]
fn require_missing_returns_error() {
    let store = CapabilityStore::default();
    let result = store.require::<TestKey>();
    assert!(result.is_err());
    assert!(matches!(
        result,
        Err(KitError::MissingCapability { key: "test_key" })
    ));
}

#[test]
fn contains_returns_false_for_missing() {
    let store = CapabilityStore::default();
    assert!(!store.contains::<TestKey>());
}

#[test]
fn capability_store_duplicate_keeps_first_value() {
    let mut store = CapabilityStore::new();
    let first: Arc<dyn Send + Sync> = Arc::new(1i32);
    store.provide::<TestKey>(first.clone()).unwrap();
    assert!(store.provide::<TestKey>(Arc::new(2i32)).is_err());
    let got = store.require::<TestKey>().unwrap();
    assert!(Arc::ptr_eq(&got, &first));
    assert_eq!(store.len(), 1);
}

#[test]
fn config_store_default_creates_empty_store() {
    let store = ConfigStore::default();
    assert_eq!(store.len(), 0, "default ConfigStore should be empty");
}

#[test]
fn set_config_stores_handle() {
    let mut store = ConfigStore::default();
    assert!(!store.contains_config::<TestConfig>());
    store.set_config::<TestConfig>(42);
    assert!(store.contains_config::<TestConfig>());
}

#[test]
fn set_config_replaces_existing() {
    let mut store = ConfigStore::default();
    store.set_config::<TestConfig>(1);
    store.set_config::<TestConfig>(2);
    let handle = store.config::<TestConfig>().unwrap();
    assert_eq!(*handle.load(), 2);
}

#[test]
fn config_returns_stored_handle() {
    let mut store = ConfigStore::default();
    store.set_config::<TestConfig>(100);
    let handle = store.config::<TestConfig>().unwrap();
    assert_eq!(*handle.load(), 100);
}

#[test]
fn config_store_config_missing_returns_error() {
    let store = ConfigStore::default();
    let result = store.config::<TestConfig>();
    assert!(result.is_err());
    assert!(matches!(
        result,
        Err(KitError::MissingConfig { key: "test_config" })
    ));
}

#[test]
fn config_store_handles_share_updates() {
    let mut store = ConfigStore::new();
    store.set_config::<TestConfig>(1);
    let early = store.config::<TestConfig>().unwrap();
    store.set_config::<TestConfig>(5);
    assert_eq!(*early.load(), 5);
    assert_eq!(store.len(), 1);
    store.set_config::<OtherConfig>("x".to_string());
    assert_eq!(store.len(), 2);
    assert_eq!(*store.config::<OtherConfig>().unwrap().load(), "x");
}
