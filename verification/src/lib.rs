//! Module registry core with verified contracts: the dependency graph and
//! its build order, the type-keyed stores for capabilities and
//! configurations, encrypted configuration storage, configuration string
//! interpolation, phased graceful shutdown, and build-report bookkeeping.

// Identifiers, erased values and the keyed storage beneath every store.
pub mod typeid;
pub mod erased;
pub mod slots;
pub mod text;

// Module identity and errors.
pub mod modules;
pub mod error;

// Dependency graph, build order and build decisions.
pub mod graph;
pub mod layers;
pub mod plan;
pub mod lazy;
pub mod batch;
pub mod report;
pub mod presets;

// Type-keyed stores.
pub mod typemap;
pub mod async_typemap;
pub mod capability_store;
pub mod config_handle;
pub mod config_store;
pub mod scope;

// Configuration.
pub mod config;
pub mod encryption;
pub mod interpolate;

// Runtime: time, shutdown, events and logging.
pub mod clock;
pub mod shutdown;
pub mod events;
pub mod ports;
