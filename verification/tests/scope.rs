use std::fmt;
use std::sync::Arc;

use trait_kit::error::TraitKitError;
use trait_kit::modules::{AsyncAutoBuilder, ModuleMeta};
use trait_kit::scope::AsyncScope;

#[derive(Debug)]
struct ScopeTestError;

impl fmt::Display for ScopeTestError {
    fn fmt(&self, f: &mut fmt::Formatter<'_>) -> fmt::Result {
        f.write_str("scope error")
    }
}

impl std::error::Error for ScopeTestError {}

#[derive(Debug)]
struct AsyncScopeError;

impl fmt::Display for AsyncScopeError {
    fn fmt(&self, f: &mut fmt::Formatter<'_>) -> fmt::Result {
        f.write_str("async scope error")
    }
}

impl std::error::Error for AsyncScopeError {}

#[derive(Debug, Clone)]
struct AsyncScopeCap {
    value: u32,
}

struct AsyncScopeModule;

impl ModuleMeta for AsyncScopeModule {
    const NAME: &'static str = "async-scope-module";
}

impl AsyncAutoBuilder for AsyncScopeModule {
    type Capability = Arc<AsyncScopeCap>;
}

struct OtherModule;

impl ModuleMeta for OtherModule {
    const NAME: &'static str = "other-module";
}

impl AsyncAutoBuilder for OtherModule {
    type Capability = u8;
}

#[test]
fn scope_test_error_display() {
    let e = ScopeTestError;
    assert_eq!(format!("{e}"), "scope error");
}

#[test]
fn async_scope_new_is_empty() {
    let scope = AsyncScope::new();
    assert!(!scope.contains::<AsyncScopeModule>());
}

#[test]
fn async_scope_insert_then_contains() {
    let mut scope = AsyncScope::new();
    assert!(!scope.contains::<AsyncScopeModule>());
    scope.insert::<AsyncScopeModule>(Arc::new(AsyncScopeCap { value: 7 }));
    assert!(scope.contains::<AsyncScopeModule>());
    let retrieved = scope
        .require::<AsyncScopeModule>()
        .expect("require after insert");
    assert_eq!(retrieved.value, 7);
}

#[test]
fn async_scope_insert_twice_replaces_value() {
    let mut scope = AsyncScope::new();
    scope.insert::<AsyncScopeModule>(Arc::new(AsyncScopeCap { value: 1 }));
    scope.insert::<AsyncScopeModule>(Arc::new(AsyncScopeCap { value: 2 }));
    assert!(scope.contains::<AsyncScopeModule>());
    let retrieved = scope
        .require::<AsyncScopeModule>()
        .expect("require after re-insert");
    assert_eq!(retrieved.value, 2, "re-insert must replace the value");
}

#[test]
fn async_scope_default_is_empty() {
    let scope = AsyncScope::default();
    assert!(!scope.contains::<AsyncScopeModule>());
}

#[test]
fn async_scope_insert_and_require() {
    let mut scope = AsyncScope::new();
    let cap = Arc::new(AsyncScopeCap { value: 42 });
    scope.insert::<AsyncScopeModule>(cap.clone());
    let retrieved = scope
        .require::<AsyncScopeModule>()
        .expect("require should succeed");
    assert_eq!(retrieved.value, 42);
}

#[test]
fn async_scope_require_missing_returns_error() {
    let scope = AsyncScope::new();
    let err = scope.require::<AsyncScopeModule>().unwrap_err();
    assert!(matches!(
        err,
        TraitKitError::MissingCapability {
            ref key
        } if key == "async-scope-module"
    ));
}

#[test]
fn async_scope_error_display() {
    let e = AsyncScopeError;
    assert_eq!(format!("{e}"), "async scope error");
}

#[test]
fn async_scope_modules_are_kept_apart() {
    let mut scope = AsyncScope::new();
    scope.insert::<OtherModule>(9);
    assert!(scope.contains::<OtherModule>());
    assert!(!scope.contains::<AsyncScopeModule>());
    assert_eq!(scope.require::<OtherModule>().unwrap(), 9);
    let err = scope.require::<AsyncScopeModule>().unwrap_err();
    assert_eq!(err.message(), "missing capability `async-scope-module`");
}
