//! Config store: configuration handles, one per configuration key.

use std::any::TypeId;
use vstd::prelude::*;

use crate::config_handle::ConfigHandle;
use crate::erased::SharedAnyBox;
use crate::error::KitError;
use crate::modules::ConfigKey;
use crate::slots::TypeSlots;
use crate::typeid::type_key;

verus! {

/// Storage for configuration handles, keyed by the `TypeId` of their
/// configuration key; each entry holds a `ConfigHandle<K::Config>`. Handles
/// handed out share their cell with the stored one.
pub struct ConfigStore {
    slots: TypeSlots<SharedAnyBox>,
}

impl View for ConfigStore {
    type V = Map<TypeId, SharedAnyBox>;

    closed spec fn view(&self) -> Map<TypeId, SharedAnyBox> {
        self.slots@
    }
}

impl ConfigStore {
    /// Internal consistency (keys are unique).
    pub closed spec fn wf(self) -> bool {
        self.slots.wf()
    }

    /// Create a new empty config store.
    pub fn new() -> (r: Self)
        ensures
            r.wf(),
            r@ == Map::<TypeId, SharedAnyBox>::empty(),
    {
        ConfigStore { slots: TypeSlots::new() }
    }

    /// Number of stored configurations.
    pub fn len(&self) -> (r: usize)
        requires
            self.wf(),
        ensures
            r == self@.dom().len(),
    {
        self.slots.len()
    }

    /// Set the configuration under key `K`.
    ///
    /// When the key already holds a handle, its cell is updated, so handles
    /// handed out earlier see the new value and the map itself is
    /// unchanged; otherwise a new handle is stored.
    pub fn set_config<K: ConfigKey>(&mut self, config: K::Config)
        requires
            old(self).wf(),
        ensures
            final(self).wf(),
            exists|k: TypeId|
                {
                    &&& final(self)@.dom() == old(self)@.dom().insert(k)
                    &&& forall|j: TypeId| j != k && #[trigger] old(self)@.dom().contains(j) ==> final(self)@[j] == old(self)@[j]
                },
    {
        let key = type_key::<K>();
        let updated = match self.slots.get(&key) {
            Some(existing) => match existing.downcast_ref::<ConfigHandle<K::Config>>() {
                Some(handle) => {
                    handle.set(config);
                    None
                },
                None => Some(config),
            },
            None => Some(config),
        };
        match updated {
            None => {
                proof {
                    assert(old(self)@.dom().contains(key));
                    assert(self@.dom() =~= old(self)@.dom().insert(key));
                }
            },
            Some(config) => {
                let boxed = SharedAnyBox::new(ConfigHandle::new(config));
                self.slots.insert(key, boxed);
                proof {
                    assert(self@.dom() =~= old(self)@.dom().insert(key));
                }
            },
        }
    }

    /// A handle to the configuration under key `K`.
    ///
    /// Returns `Err(KitError::MissingConfig)` if the key holds none, or
    /// holds a value that is not a `ConfigHandle<K::Config>`.
    pub fn config<K: ConfigKey>(&self) -> (r: Result<ConfigHandle<K::Config>, KitError>)
        requires
            self.wf(),
        ensures
            r is Ok ==> !self@.dom().is_empty(),
            self@.dom().is_empty() ==> r is Err,
            r matches Err(e) ==> (e matches KitError::MissingConfig { key } && key == K::NAME),
    {
        let key = type_key::<K>();
        match self.slots.get(&key) {
            Some(boxed) => match boxed.downcast_ref::<ConfigHandle<K::Config>>() {
                Some(handle) => Ok(handle.clone()),
                None => Err(KitError::MissingConfig { key: K::NAME }),
            },
            None => Err(KitError::MissingConfig { key: K::NAME }),
        }
    }

    /// Whether a configuration is stored under key `K`.
    pub fn contains_config<K: ConfigKey>(&self) -> (r: bool)
        requires
            self.wf(),
        ensures
            exists|k: TypeId| r == self@.dom().contains(k),
    {
        let key = type_key::<K>();
        let r = self.slots.contains(&key);
        proof {
            assert(r == self@.dom().contains(key));
        }
        r
    }
}

impl Default for ConfigStore {
    fn default() -> (r: Self)
        ensures
            r.wf(),
            r@ == Map::<TypeId, SharedAnyBox>::empty(),
    {
        Self::new()
    }
}

} // verus!
