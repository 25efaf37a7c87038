# trait-kit (verified core)

A module registry: modules declare a name and their dependencies, the
registry validates the dependency graph, builds the modules in dependency
order, and hands out their capabilities by module type. Around it: typed
configuration stores, encrypted configuration values, `${VAR}` interpolation,
phased graceful shutdown and a structured build report.

The library under `src/` is written in Verus and verified. Its contracts
state, among others:

- `DependencyGraph::validate` reports the first missing dependency in
  registration order, returns a topological order when one exists, and
  otherwise names an actual cycle; a graph with a cycle has no topological
  order.
- `topo_layers` splits a topological order into levels in which no module
  depends on another, each module lying above all of its dependencies; the
  levels partition the order and keep its relative order.
- The type-keyed stores behave as finite maps keyed by `TypeId`: a write
  replaces the value under its key and leaves the others alone.
- `interpolate_string` is specified by a recursive definition of the
  `${VAR}` / `${VAR:-default}` substitution; text without `${` is left
  unchanged and substituted values are not scanned again.
- `escape_label` escapes labels so that reading them back gives the name.
- A shutdown runs phases in a fixed order and hooks in registration order,
  drains what it ran, and reports a phase as timed out exactly when it
  skipped hooks; a phase is skipped whole exactly when the global deadline
  reading at its boundary says it has passed; without a global budget a
  second shutdown runs nothing.
- A configuration sealed under a master key and module path reads back as
  the same bytes under the same key and path.

Outside calls (clock readings, `TypeId::of`, downcasts of erased values,
HKDF and XChaCha20-Poly1305 from `confers`) go through small trusted
wrappers whose contracts say only what the called code guarantees.

`app/` holds the runtime shell that verification does not cover: the
type-erased `Kit` and `AsyncKit` registries that run user build closures,
the asynchronous shutdown driver, the panic-isolating event bus, the float
metrics port, JSON helpers, and the serde/thiserror copies of library types.
