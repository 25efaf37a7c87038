//! Structured build report: per-module build facts collected while the
//! registry builds, and the contracts of the registered modules.

use vstd::prelude::*;

verus! {

/// Current [`BuildReport`] schema version.
pub const SCHEMA_VERSION: u32 = 1;

/// Current [`ContractManifest`] schema version.
pub const CONTRACT_SCHEMA_VERSION: u32 = 1;

/// One module's contract: name, declared version, capability type, deps.
#[derive(Debug)]
pub struct ContractEntry {
    /// Module name.
    pub module: &'static str,
    /// Declared capability version.
    pub version: &'static str,
    /// Concrete capability type name.
    pub capability: &'static str,
    /// Dependency module names.
    pub deps: Vec<&'static str>,
}

/// Machine-readable contract manifest of all registered modules.
#[derive(Debug)]
pub struct ContractManifest {
    /// Manifest schema version.
    pub schema_version: u32,
    /// One entry per registered module, registration order.
    pub modules: Vec<ContractEntry>,
}

/// Build state of a module as observed by the build pipeline.
#[derive(Debug, Clone, Copy, PartialEq, Eq, Structural)]
pub enum ModuleBuildState {
    /// Built by invoking its build function.
    Built,
    /// Deferred: built on first lookup.
    Lazy,
    /// Satisfied by a pre-built override.
    Overridden,
}

/// Per-module entry of a [`BuildReport`].
#[derive(Debug)]
pub struct ModuleReportEntry {
    /// Module name.
    pub name: &'static str,
    /// How the module's capability was produced.
    pub state: ModuleBuildState,
    /// Names of the declared dependencies.
    pub deps: Vec<&'static str>,
    /// Construction time in microseconds (`None` unless built).
    pub elapsed_us: Option<u64>,
}

/// One override registration.
#[derive(Debug, Clone, Copy, PartialEq, Eq)]
pub struct OverrideRecord {
    /// Overridden module name.
    pub module: &'static str,
    /// Which API injected the override.
    pub source: &'static str,
}

/// Structured report of a completed build.
#[derive(Debug)]
pub struct BuildReport {
    /// Report schema version.
    pub schema_version: u32,
    /// Module names in validated topological order.
    pub topo_order: Vec<&'static str>,
    /// Per-module build records in build-completion order.
    pub modules: Vec<ModuleReportEntry>,
    /// Override registrations observed at registration time.
    pub overrides: Vec<OverrideRecord>,
    /// Total build wall time in microseconds.
    pub total_elapsed_us: Option<u64>,
}

/// Content of a module entry.
pub open spec fn entry_view(e: ModuleReportEntry) -> (&'static str, ModuleBuildState, Seq<&'static str>, Option<u64>) {
    (e.name, e.state, e.deps@, e.elapsed_us)
}

/// Content of a contract entry.
pub open spec fn contract_view(e: ContractEntry) -> (&'static str, &'static str, &'static str, Seq<&'static str>) {
    (e.module, e.version, e.capability, e.deps@)
}

/// A copy of a list of names.
fn copy_names(names: &Vec<&'static str>) -> (r: Vec<&'static str>)
    ensures
        r@ == names@,
{
    let mut out: Vec<&'static str> = Vec::new();
    let mut i: usize = 0;
    while i < names.len()
        invariant
            i <= names@.len(),
            out@ == names@.take(i as int),
        decreases names@.len() - i,
    {
        out.push(names[i]);
        i += 1;
        proof {
            assert(out@ =~= names@.take(i as int));
        }
    }
    proof {
        assert(names@.take(i as int) =~= names@);
    }
    out
}

impl Default for BuildReport {
    /// An empty report of the current schema.
    fn default() -> (r: Self)
        ensures
            r.schema_version == SCHEMA_VERSION,
            r.topo_order@ == Seq::<&'static str>::empty(),
            r.modules@.len() == 0,
            r.overrides@ == Seq::<OverrideRecord>::empty(),
            r.total_elapsed_us is None,
    {
        BuildReport {
            schema_version: SCHEMA_VERSION,
            topo_order: Vec::new(),
            modules: Vec::new(),
            overrides: Vec::new(),
            total_elapsed_us: None,
        }
    }
}

/// Build facts gathered while a registry builds.
pub struct ReportFields {
    modules: Vec<ModuleReportEntry>,
    overrides: Vec<OverrideRecord>,
    topo_order: Vec<&'static str>,
    total_elapsed_us: Option<u64>,
    contract: Vec<ContractEntry>,
}

impl ReportFields {
    /// Module records so far, by content, in recording order.
    pub closed spec fn module_records(self) -> Seq<(&'static str, ModuleBuildState, Seq<&'static str>, Option<u64>)> {
        self.modules@.map_values(|e: ModuleReportEntry| entry_view(e))
    }

    /// Override records so far.
    pub closed spec fn override_records(self) -> Seq<OverrideRecord> {
        self.overrides@
    }

    /// The recorded topological order.
    pub closed spec fn order(self) -> Seq<&'static str> {
        self.topo_order@
    }

    /// The recorded total build time.
    pub closed spec fn total(self) -> Option<u64> {
        self.total_elapsed_us
    }

    /// Contract entries so far, by content.
    pub closed spec fn contracts(self) -> Seq<(&'static str, &'static str, &'static str, Seq<&'static str>)> {
        self.contract@.map_values(|e: ContractEntry| contract_view(e))
    }

    /// Nothing recorded.
    pub fn new() -> (r: Self)
        ensures
            r.module_records() == Seq::<(&'static str, ModuleBuildState, Seq<&'static str>, Option<u64>)>::empty(),
            r.override_records() == Seq::<OverrideRecord>::empty(),
            r.order() == Seq::<&'static str>::empty(),
            r.total() is None,
            r.contracts() == Seq::<(&'static str, &'static str, &'static str, Seq<&'static str>)>::empty(),
    {
        let r = ReportFields {
            modules: Vec::new(),
            overrides: Vec::new(),
            topo_order: Vec::new(),
            total_elapsed_us: None,
            contract: Vec::new(),
        };
        proof {
            assert(r.module_records() =~= Seq::empty());
            assert(r.contracts() =~= Seq::empty());
        }
        r
    }

    fn push_module(&mut self, entry: ModuleReportEntry)
        ensures
            final(self).module_records() == old(self).module_records().push(entry_view(entry)),
            final(self).override_records() == old(self).override_records(),
            final(self).order() == old(self).order(),
            final(self).total() == old(self).total(),
            final(self).contracts() == old(self).contracts(),
    {
        let ghost e = entry;
        self.modules.push(entry);
        proof {
            assert(self.module_records() =~= old(self).module_records().push(entry_view(e)));
        }
    }

    /// Record a module built from its build function, with its build time.
    pub fn push_built(&mut self, name: &'static str, elapsed_us: u64, deps: Vec<&'static str>)
        ensures
            final(self).module_records() == old(self).module_records().push(
                (name, ModuleBuildState::Built, deps@, Some(elapsed_us)),
            ),
            final(self).override_records() == old(self).override_records(),
            final(self).order() == old(self).order(),
            final(self).total() == old(self).total(),
            final(self).contracts() == old(self).contracts(),
    {
        self.push_module(
            ModuleReportEntry { name, state: ModuleBuildState::Built, deps, elapsed_us: Some(elapsed_us) },
        );
    }

    /// Record a module satisfied by a pre-built override.
    pub fn push_overridden(&mut self, name: &'static str, deps: Vec<&'static str>)
        ensures
            final(self).module_records() == old(self).module_records().push(
                (name, ModuleBuildState::Overridden, deps@, None::<u64>),
            ),
            final(self).override_records() == old(self).override_records(),
            final(self).order() == old(self).order(),
            final(self).total() == old(self).total(),
            final(self).contracts() == old(self).contracts(),
    {
        self.push_module(
            ModuleReportEntry { name, state: ModuleBuildState::Overridden, deps, elapsed_us: None },
        );
    }

    /// Record a lazy module (construction deferred to first lookup).
    pub fn push_lazy(&mut self, name: &'static str, deps: Vec<&'static str>)
        ensures
            final(self).module_records() == old(self).module_records().push(
                (name, ModuleBuildState::Lazy, deps@, None::<u64>),
            ),
            final(self).override_records() == old(self).override_records(),
            final(self).order() == old(self).order(),
            final(self).total() == old(self).total(),
            final(self).contracts() == old(self).contracts(),
    {
        self.push_module(
            ModuleReportEntry { name, state: ModuleBuildState::Lazy, deps, elapsed_us: None },
        );
    }

    /// Record an override registration.
    pub fn push_override_record(&mut self, record: OverrideRecord)
        ensures
            final(self).override_records() == old(self).override_records().push(record),
            final(self).module_records() == old(self).module_records(),
            final(self).order() == old(self).order(),
            final(self).total() == old(self).total(),
            final(self).contracts() == old(self).contracts(),
    {
        self.overrides.push(record);
    }

    /// Record the validated topological order (module names).
    pub fn set_topo_order(&mut self, names: Vec<&'static str>)
        ensures
            final(self).order() == names@,
            final(self).module_records() == old(self).module_records(),
            final(self).override_records() == old(self).override_records(),
            final(self).total() == old(self).total(),
            final(self).contracts() == old(self).contracts(),
    {
        self.topo_order = names;
    }

    /// Record the total build wall time in microseconds.
    pub fn set_total_elapsed_us(&mut self, us: u64)
        ensures
            final(self).total() == Some(us),
            final(self).module_records() == old(self).module_records(),
            final(self).override_records() == old(self).override_records(),
            final(self).order() == old(self).order(),
            final(self).contracts() == old(self).contracts(),
    {
        self.total_elapsed_us = Some(us);
    }

    /// Record a module contract entry.
    pub fn push_contract(&mut self, entry: ContractEntry)
        ensures
            final(self).contracts() == old(self).contracts().push(contract_view(entry)),
            final(self).module_records() == old(self).module_records(),
            final(self).override_records() == old(self).override_records(),
            final(self).order() == old(self).order(),
            final(self).total() == old(self).total(),
    {
        let ghost e = entry;
        self.contract.push(entry);
        proof {
            assert(self.contracts() =~= old(self).contracts().push(contract_view(e)));
        }
    }

    /// Snapshot of the registered module contracts.
    pub fn contract_snapshot(&self) -> (r: ContractManifest)
        ensures
            r.schema_version == CONTRACT_SCHEMA_VERSION,
            r.modules@.map_values(|e: ContractEntry| contract_view(e)) == self.contracts(),
    {
        let mut out: Vec<ContractEntry> = Vec::new();
        let mut i: usize = 0;
        while i < self.contract.len()
            invariant
                i <= self.contract@.len(),
                out@.map_values(|e: ContractEntry| contract_view(e)) == self.contracts().take(i as int),
            decreases self.contract@.len() - i,
        {
            let e = &self.contract[i];
            let ghost prev = out@;
            let copy = ContractEntry {
                module: e.module,
                version: e.version,
                capability: e.capability,
                deps: copy_names(&e.deps),
            };
            assert(contract_view(copy) == contract_view(self.contract@[i as int]));
            let ghost cg = copy;
            assert(prev.len() == i) by {
                assert(prev.map_values(|e: ContractEntry| contract_view(e)).len() == prev.len());
            }
            out.push(copy);
            assert(out@ == prev.push(cg));
            i += 1;
            proof {
                assert forall|k: int| 0 <= k < i implies out@.map_values(|e: ContractEntry| contract_view(e))[k]
                    == self.contracts().take(i as int)[k] by {
                    if k < i - 1 {
                        assert(out@[k] == prev[k]);
                        assert(prev.map_values(|e: ContractEntry| contract_view(e))[k] == self.contracts().take(i - 1)[k]);
                    }
                }
                assert(out@.map_values(|e: ContractEntry| contract_view(e)) =~= self.contracts().take(i as int));
            }
        }
        proof {
            assert(self.contracts().take(i as int) =~= self.contracts());
        }
        ContractManifest { schema_version: CONTRACT_SCHEMA_VERSION, modules: out }
    }

    /// Snapshot of the build facts as a [`BuildReport`].
    pub fn snapshot(&self) -> (r: BuildReport)
        ensures
            r.schema_version == SCHEMA_VERSION,
            r.topo_order@ == self.order(),
            r.modules@.map_values(|e: ModuleReportEntry| entry_view(e)) == self.module_records(),
            r.overrides@ == self.override_records(),
            r.total_elapsed_us == self.total(),
    {
        let mut modules: Vec<ModuleReportEntry> = Vec::new();
        let mut i: usize = 0;
        while i < self.modules.len()
            invariant
                i <= self.modules@.len(),
                modules@.map_values(|e: ModuleReportEntry| entry_view(e)) == self.module_records().take(i as int),
            decreases self.modules@.len() - i,
        {
            let e = &self.modules[i];
            let ghost prev = modules@;
            let copy = ModuleReportEntry {
                name: e.name,
                state: e.state,
                deps: copy_names(&e.deps),
                elapsed_us: e.elapsed_us,
            };
            assert(entry_view(copy) == entry_view(self.modules@[i as int]));
            let ghost cg = copy;
            assert(prev.len() == i) by {
                assert(prev.map_values(|e: ModuleReportEntry| entry_view(e)).len() == prev.len());
            }
            modules.push(copy);
            assert(modules@ == prev.push(cg));
            i += 1;
            proof {
                assert forall|k: int| 0 <= k < i implies modules@.map_values(|e: ModuleReportEntry| entry_view(e))[k]
                    == self.module_records().take(i as int)[k] by {
                    if k < i - 1 {
                        assert(modules@[k] == prev[k]);
                        assert(prev.map_values(|e: ModuleReportEntry| entry_view(e))[k] == self.module_records().take(i - 1)[k]);
                    }
                }
                assert(modules@.map_values(|e: ModuleReportEntry| entry_view(e)) =~= self.module_records().take(i as int));
            }
        }
        proof {
            assert(self.module_records().take(i as int) =~= self.module_records());
        }
        let mut overrides: Vec<OverrideRecord> = Vec::new();
        let mut j: usize = 0;
        while j < self.overrides.len()
            invariant
                j <= self.overrides@.len(),
                overrides@ == self.overrides@.take(j as int),
            decreases self.overrides@.len() - j,
        {
            overrides.push(self.overrides[j]);
            j += 1;
            proof {
                assert(overrides@ =~= self.overrides@.take(j as int));
            }
        }
        proof {
            assert(self.overrides@.take(j as int) =~= self.overrides@);
        }
        BuildReport {
            schema_version: SCHEMA_VERSION,
            topo_order: copy_names(&self.topo_order),
            modules,
            overrides,
            total_elapsed_us: self.total_elapsed_us,
        }
    }
}

impl Default for ReportFields {
    /// Nothing recorded.
    fn default() -> (r: Self)
        ensures
            r.module_records() == Seq::<(&'static str, ModuleBuildState, Seq<&'static str>, Option<u64>)>::empty(),
            r.override_records() == Seq::<OverrideRecord>::empty(),
            r.order() == Seq::<&'static str>::empty(),
            r.total() is None,
            r.contracts() == Seq::<(&'static str, &'static str, &'static str, Seq<&'static str>)>::empty(),
    {
        Self::new()
    }
}

} // verus!
