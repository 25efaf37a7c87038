//! The traits by which modules, capabilities and configurations name
//! themselves to the registry and its stores.

use std::any::TypeId;
use vstd::prelude::*;

verus! {

/// Identity of a module: its name, its declared dependencies and its
/// translation resources.
pub trait ModuleMeta: 'static {
    /// Unique human-readable module name.
    const NAME: &'static str;

    /// The modules this one depends on, by name and `TypeId`. None by
    /// default.
    fn dependencies() -> (r: &'static [(&'static str, TypeId)])
        default_ensures
            r@.len() == 0,
    {
        &[]
    }

    /// Fluent translation resources shipped with the module. Empty by
    /// default.
    fn i18n_ftl() -> (r: &'static str)
        default_ensures
            r@.len() == 0,
    {
        proof {
            reveal_strlit("");
        }
        ""
    }
}

/// A key under which a shared capability is stored.
pub trait CapabilityKey: 'static {
    /// The capability type (may be unsized, e.g. a trait object).
    type Capability: ?Sized + Send + Sync + 'static;

    /// Name of the key, reported in errors.
    const NAME: &'static str;
}

/// A key under which a configuration value is stored.
pub trait ConfigKey: 'static {
    /// The configuration type.
    type Config: Send + Sync + 'static;

    /// Name of the key, reported in errors.
    const NAME: &'static str;
}

/// Typestate marker of a registry that is still being assembled.
pub struct Unbuilt;

/// Typestate marker of a built registry.
pub struct Ready;

/// Compile-time binding of a toggle to its string key.
pub trait ToggleKey {
    /// The string key stored in the toggle backend.
    const KEY: &'static str;
}

/// A module whose capability is built asynchronously and can be placed in
/// an asynchronous scope.
pub trait AsyncAutoBuilder: ModuleMeta {
    /// The capability the module provides.
    type Capability;
}

} // verus!
