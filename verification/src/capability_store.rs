//! Capability store: shared capabilities, one per capability key.

use std::any::TypeId;
use std::sync::Arc;
use vstd::prelude::*;

use crate::erased::SharedAnyBox;
use crate::error::KitError;
use crate::modules::CapabilityKey;
use crate::slots::TypeSlots;
use crate::typeid::type_key;

verus! {

/// Storage for capabilities, keyed by the `TypeId` of their capability key;
/// each entry holds an `Arc<K::Capability>`.
pub struct CapabilityStore {
    slots: TypeSlots<SharedAnyBox>,
}

impl View for CapabilityStore {
    type V = Map<TypeId, SharedAnyBox>;

    closed spec fn view(&self) -> Map<TypeId, SharedAnyBox> {
        self.slots@
    }
}

impl CapabilityStore {
    /// Internal consistency (keys are unique).
    pub closed spec fn wf(self) -> bool {
        self.slots.wf()
    }

    /// Create a new empty capability store.
    pub fn new() -> (r: Self)
        ensures
            r.wf(),
            r@ == Map::<TypeId, SharedAnyBox>::empty(),
    {
        CapabilityStore { slots: TypeSlots::new() }
    }

    /// Number of stored capabilities.
    pub fn len(&self) -> (r: usize)
        requires
            self.wf(),
        ensures
            r == self@.dom().len(),
    {
        self.slots.len()
    }

    /// Register a capability under key `K`.
    ///
    /// Returns `Err(KitError::DuplicateCapability)` if the key already
    /// holds one; the store is then unchanged.
    pub fn provide<K: CapabilityKey>(&mut self, value: Arc<K::Capability>) -> (r: Result<
        (),
        KitError,
    >)
        requires
            old(self).wf(),
        ensures
            final(self).wf(),
            exists|k: TypeId|
                {
                    &&& old(self)@.dom().contains(k) ==> {
                        &&& r matches Err(KitError::DuplicateCapability { key })
                        &&& key == K::NAME
                        &&& final(self)@ == old(self)@
                    }
                    &&& !old(self)@.dom().contains(k) ==> {
                        &&& r is Ok
                        &&& exists|v: SharedAnyBox| final(self)@ == old(self)@.insert(k, v)
                    }
                },
    {
        let key = type_key::<K>();
        if self.slots.contains(&key) {
            proof {
                assert(old(self)@.dom().contains(key));
            }
            return Err(KitError::DuplicateCapability { key: K::NAME });
        }
        let boxed = SharedAnyBox::new(value);
        let ghost stored = boxed;
        self.slots.insert(key, boxed);
        proof {
            assert(!old(self)@.dom().contains(key));
            assert(self@ == old(self)@.insert(key, stored));
        }
        Ok(())
    }

    /// Register or replace the capability under key `K`.
    pub fn replace<K: CapabilityKey>(&mut self, value: Arc<K::Capability>)
        requires
            old(self).wf(),
        ensures
            final(self).wf(),
            exists|k: TypeId, v: SharedAnyBox| final(self)@ == old(self)@.insert(k, v),
    {
        let key = type_key::<K>();
        let boxed = SharedAnyBox::new(value);
        let ghost stored = boxed;
        self.slots.insert(key, boxed);
        proof {
            assert(self@ == old(self)@.insert(key, stored));
        }
    }

    /// Retrieve the capability under key `K`.
    ///
    /// Returns `Err(KitError::MissingCapability)` if the key holds none, or
    /// holds a value that is not an `Arc<K::Capability>`.
    pub fn require<K: CapabilityKey>(&self) -> (r: Result<Arc<K::Capability>, KitError>)
        requires
            self.wf(),
        ensures
            r is Ok ==> !self@.dom().is_empty(),
            self@.dom().is_empty() ==> r is Err,
            r matches Err(e) ==> (e matches KitError::MissingCapability { key } && key == K::NAME),
    {
        let key = type_key::<K>();
        let r = match self.slots.get(&key) {
            Some(boxed) => match boxed.downcast_cloned::<Arc<K::Capability>>() {
                Some(cap) => Ok(cap),
                None => Err(KitError::MissingCapability { key: K::NAME }),
            },
            None => Err(KitError::MissingCapability { key: K::NAME }),
        };
        r
    }

    /// Whether a capability is stored under key `K`.
    pub fn contains<K: CapabilityKey>(&self) -> (r: bool)
        requires
            self.wf(),
        ensures
            exists|k: TypeId| r == self@.dom().contains(k),
    {
        let key = type_key::<K>();
        let r = self.slots.contains(&key);
        proof {
            assert(r == self@.dom().contains(key));
        }
        r
    }
}

impl Default for CapabilityStore {
    fn default() -> (r: Self)
        ensures
            r.wf(),
            r@ == Map::<TypeId, SharedAnyBox>::empty(),
    {
        Self::new()
    }
}

} // verus!
