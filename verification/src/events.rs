//! Runtime events published at lifecycle checkpoints, and the port they are
//! published through.

use vstd::prelude::*;

verus! {

/// Typed lifecycle event.
#[derive(Debug, Clone, PartialEq)]
pub enum KitEvent {
    /// A module's build function completed successfully.
    ModuleBuilt {
        /// Module name.
        module: &'static str,
        /// Construction time in microseconds.
        elapsed_us: u64,
    },
    /// A module's health status was sampled.
    HealthChanged {
        /// Module name.
        module: &'static str,
        /// Flat status name (`healthy` / `degraded` / `unhealthy`).
        status: &'static str,
        /// Detail for degraded / unhealthy states.
        detail: Option<String>,
    },
    /// A configuration value changed (set / reload / restore).
    ConfigChanged {
        /// Configuration key.
        key: String,
        /// Short summary of the change.
        summary: String,
    },
}

impl KitEvent {
    /// Discriminant name of the event: `"module_built"`,
    /// `"health_changed"` or `"config_changed"`.
    pub fn kind(&self) -> (r: &'static str)
        ensures
            r@ == (match self {
                KitEvent::ModuleBuilt { .. } => "module_built"@,
                KitEvent::HealthChanged { .. } => "health_changed"@,
                KitEvent::ConfigChanged { .. } => "config_changed"@,
            }),
    {
        match self {
            KitEvent::ModuleBuilt { .. } => "module_built",
            KitEvent::HealthChanged { .. } => "health_changed",
            KitEvent::ConfigChanged { .. } => "config_changed",
        }
    }
}

/// Runtime event bus port.
pub trait EventBus: Send + Sync + 'static {
    /// Publish one event. Must not panic; must not block indefinitely.
    fn publish(&self, event: KitEvent);
}

/// The default bus: every publish is a no-op and the type is zero-sized.
#[derive(Debug, Default, Clone, Copy)]
pub struct NoOpEventBus;

impl EventBus for NoOpEventBus {
    fn publish(&self, event: KitEvent) {
    }
}

} // verus!
