//! Asynchronous scoped container: capabilities built elsewhere, stored per
//! module for the lifetime of a scope (e.g. one request).

use std::any::TypeId;
use vstd::prelude::*;

use crate::async_typemap::AsyncTypeMap;
use crate::erased::SharedAnyBox;
use crate::error::TraitKitError;
use crate::modules::AsyncAutoBuilder;
use crate::typeid::type_key;

verus! {

/// Async scoped dependency container (`Send + Sync`).
///
/// `insert()` is the single entry point: it stores a pre-built capability,
/// `contains()` reports exactly what was inserted, and `require()`
/// retrieves it. Inserting for the same module again replaces the value.
pub struct AsyncScope {
    capabilities: AsyncTypeMap,
}

impl View for AsyncScope {
    type V = Map<TypeId, SharedAnyBox>;

    closed spec fn view(&self) -> Map<TypeId, SharedAnyBox> {
        self.capabilities@
    }
}

impl AsyncScope {
    /// Internal consistency.
    pub closed spec fn wf(self) -> bool {
        self.capabilities.wf()
    }

    /// Create a new empty async scope.
    pub fn new() -> (r: Self)
        ensures
            r.wf(),
            r@ == Map::<TypeId, SharedAnyBox>::empty(),
    {
        AsyncScope { capabilities: AsyncTypeMap::new() }
    }

    /// Insert a pre-built capability for module `M`, replacing any earlier
    /// one.
    pub fn insert<M: AsyncAutoBuilder>(&mut self, capability: M::Capability) where
        M::Capability: Send + Sync + 'static,

        requires
            old(self).wf(),
        ensures
            final(self).wf(),
            exists|k: TypeId, v: SharedAnyBox| final(self)@ == old(self)@.insert(k, v),
    {
        let boxed = SharedAnyBox::new(capability);
        let ghost stored = boxed;
        let key = type_key::<M>();
        self.capabilities.insert_boxed(key, boxed);
        proof {
            assert(self@ == old(self)@.insert(key, stored));
        }
    }

    /// Retrieve the capability inserted for module `M`.
    ///
    /// Returns `TraitKitError::MissingCapability` naming the module if no
    /// capability was inserted for it.
    pub fn require<M: AsyncAutoBuilder>(&self) -> (r: Result<M::Capability, TraitKitError>) where
        M::Capability: Clone + Send + Sync + 'static,

        requires
            self.wf(),
        ensures
            r is Ok ==> !self@.dom().is_empty(),
            self@.dom().is_empty() ==> r is Err,
            r matches Err(e) ==> (e matches TraitKitError::MissingCapability { key } && key@
                == M::NAME@),
    {
        let type_id = type_key::<M>();
        match self.capabilities.get_cloned_by_type_id::<M::Capability>(type_id) {
            Some(cap) => Ok(cap),
            None => Err(TraitKitError::MissingCapability { key: M::NAME.to_owned() }),
        }
    }

    /// Whether a capability was inserted for module `M`.
    pub fn contains<M: AsyncAutoBuilder>(&self) -> (r: bool)
        requires
            self.wf(),
        ensures
            exists|k: TypeId| r == self@.dom().contains(k),
    {
        let key = type_key::<M>();
        let r = self.capabilities.contains_by_type_id(key);
        proof {
            assert(r == self@.dom().contains(key));
        }
        r
    }
}

impl Default for AsyncScope {
    fn default() -> (r: Self)
        ensures
            r.wf(),
            r@ == Map::<TypeId, SharedAnyBox>::empty(),
    {
        Self::new()
    }
}

} // verus!
