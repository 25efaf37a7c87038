//! Preset modules: the module key of the configuration hub and the error of
//! its build.

use vstd::prelude::*;

use crate::modules::ModuleMeta;

verus! {

/// Module key of the configuration hub: a `confers` configuration provider
/// exposed as a capability.
pub struct ConfersConfigModule;

impl ModuleMeta for ConfersConfigModule {
    const NAME: &'static str = "confers-config";
}

/// Error of a preset module build.
#[derive(Debug, Clone, Copy, PartialEq, Eq, Structural)]
pub enum PresetError {
    /// The configuration hub was registered without a provider.
    ProviderNotInjected,
}

impl PresetError {
    /// Human-readable description of the error.
    pub fn message(&self) -> (r: &'static str)
        ensures
            r@ == (match self {
                PresetError::ProviderNotInjected => "ConfersConfigModule built without a provider; call register_confers_config(kit, provider) first"@,
            }),
    {
        match self {
            PresetError::ProviderNotInjected => "ConfersConfigModule built without a provider; call register_confers_config(kit, provider) first",
        }
    }
}

} // verus!
