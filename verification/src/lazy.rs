//! The slot of a lazily built module: a builder used on first access, and
//! a write-once cache of what it built. A failed build puts the builder
//! back, so a later access can try again.

use vstd::prelude::*;

use crate::erased::AnyBox;

verus! {

/// What a lookup does with a slot: answer from the cache, run the builder,
/// or report the capability missing.
pub enum SlotStep {
    /// A value is cached: answer from it.
    Cached,
    /// Nothing cached, a builder waits: build now.
    Build,
    /// Nothing cached and no builder (it is running or gone).
    Missing,
}

/// Builder of type `B` and write-once cache of the built value.
pub struct LazySlot<B> {
    builder: Option<B>,
    cell: Option<AnyBox>,
}

impl<B> LazySlot<B> {
    /// The builder waiting in the slot, if any.
    pub closed spec fn pending(self) -> Option<B> {
        self.builder
    }

    /// The cached value, if built.
    pub closed spec fn value(self) -> Option<AnyBox> {
        self.cell
    }

    /// A slot holding `builder` and nothing built yet.
    pub fn new(builder: B) -> (r: Self)
        ensures
            r.pending() == Some(builder),
            r.value() is None,
    {
        LazySlot { builder: Some(builder), cell: None }
    }

    /// The cached value, if built.
    pub fn cached(&self) -> (r: Option<&AnyBox>)
        ensures
            r.is_some() == self.value().is_some(),
            r matches Some(v) ==> self.value() == Some(*v),
    {
        match &self.cell {
            Some(v) => Some(v),
            None => None,
        }
    }

    /// The cached value as a `T`: `None` when nothing is cached or the
    /// cached value has another type.
    pub fn cached_as<T: Clone + 'static>(&self) -> (r: Option<T>)
        ensures
            r is Some ==> self.value() is Some,
    {
        match &self.cell {
            Some(v) => v.downcast_cloned::<T>(),
            None => None,
        }
    }

    /// The lookup step for this slot: the cache first, then the builder.
    pub fn next_step(&self) -> (r: SlotStep)
        ensures
            self.value() is Some ==> r is Cached,
            self.value() is None && self.pending() is Some ==> r is Build,
            self.value() is None && self.pending() is None ==> r is Missing,
    {
        if self.cell.is_some() {
            SlotStep::Cached
        } else if self.builder.is_some() {
            SlotStep::Build
        } else {
            SlotStep::Missing
        }
    }

    /// Whether a builder is waiting.
    pub fn has_builder(&self) -> (r: bool)
        ensures
            r == self.pending().is_some(),
    {
        self.builder.is_some()
    }

    /// Take the builder out to run it; the cache is unchanged.
    pub fn take_builder(&mut self) -> (r: Option<B>)
        ensures
            r == old(self).pending(),
            final(self).pending() is None,
            final(self).value() == old(self).value(),
    {
        self.builder.take()
    }

    /// Put back a builder whose build failed, so the slot can be retried.
    pub fn restore(&mut self, builder: B)
        ensures
            final(self).pending() == Some(builder),
            final(self).value() == old(self).value(),
    {
        self.builder = Some(builder);
    }

    /// Cache a built value; a value cached earlier is kept. Returns whether
    /// `value` was stored.
    pub fn fill(&mut self, value: AnyBox) -> (r: bool)
        ensures
            r == old(self).value().is_none(),
            final(self).value() == (if r { Some(value) } else { old(self).value() }),
            final(self).pending() == old(self).pending(),
    {
        if self.cell.is_none() {
            self.cell = Some(value);
            true
        } else {
            false
        }
    }
}

} // verus!
