//! Error types: the crate-wide [`TraitKitError`] with its coarse
//! [`ErrorKind`] classification, and the store-level [`KitError`].

use std::error::Error;
use vstd::prelude::*;

use crate::graph::name_chain;
use crate::shutdown::ShutdownPhase;
use crate::text::push_str;

verus! {

/// The underlying cause carried by a build or lifecycle failure: any
/// `Error + Send + Sync`, boxed and opaque to verification.
#[derive(Debug)]
#[verifier::external_body]
pub struct ErrorSource {
    inner: Box<dyn Error + Send + Sync>,
}

impl ErrorSource {
    /// Box an error as the cause of a failure.
    ///
    /// Trusted: nothing is stated of the result; the cause is only carried.
    #[verifier::external_body]
    pub fn new<E: Error + Send + Sync + 'static>(err: E) -> ErrorSource {
        ErrorSource { inner: Box::new(err) }
    }

    /// The message of the cause, as its `Display` renders it.
    ///
    /// Trusted, with no postcondition: the text comes from the boxed error's
    /// own `Display` impl.
    #[verifier::external_body]
    pub fn message(&self) -> String {
        self.inner.to_string()
    }
}

/// Errors reported by the module registry, its stores and its shutdown.
#[derive(Debug)]
pub enum TraitKitError {
    /// A registered module depends on a module that is not registered.
    DependencyMissing { module: &'static str, missing: &'static str },
    /// The dependency graph has a cycle; the names along it, closing on
    /// the first.
    CycleDetected { cycle: Vec<&'static str> },
    /// A required capability is missing.
    MissingCapability { key: String },
    /// A required configuration is missing.
    MissingConfig { key: String },
    /// A stored capability does not have the requested type.
    CapabilityTypeMismatch { key: String },
    /// Building something failed; `context` names what.
    BuildFailed { context: String, source: ErrorSource },
    /// A lifecycle callback failed; `context` names the module.
    LifecycleFailed { context: String, source: ErrorSource },
    /// A module was registered twice.
    AlreadyRegistered { module: &'static str },
    /// Some shutdown phases ran out of time; the phases, in order.
    ShutdownTimedOut { phases: Vec<ShutdownPhase> },
}

/// Coarse classification of a [`TraitKitError`], for callers that branch on
/// the kind of failure rather than on the exact variant.
#[derive(Debug, Clone, Copy, PartialEq, Eq, Structural)]
pub enum ErrorKind {
    /// Something required was not there.
    Missing,
    /// Something was there with the wrong type.
    TypeMismatch,
    /// Building or initialising failed.
    InitFailed,
    /// Anything else.
    Other,
}

impl TraitKitError {
    /// The kind of each variant.
    pub open spec fn kind_of(&self) -> ErrorKind {
        match self {
            TraitKitError::DependencyMissing { .. } => ErrorKind::Missing,
            TraitKitError::MissingCapability { .. } => ErrorKind::Missing,
            TraitKitError::MissingConfig { .. } => ErrorKind::Missing,
            TraitKitError::CapabilityTypeMismatch { .. } => ErrorKind::TypeMismatch,
            TraitKitError::BuildFailed { .. } => ErrorKind::InitFailed,
            TraitKitError::LifecycleFailed { .. } => ErrorKind::InitFailed,
            TraitKitError::CycleDetected { .. } => ErrorKind::Other,
            TraitKitError::AlreadyRegistered { .. } => ErrorKind::Other,
            TraitKitError::ShutdownTimedOut { .. } => ErrorKind::Other,
        }
    }

    /// Classify this error.
    pub fn kind(&self) -> (r: ErrorKind)
        ensures
            r == self.kind_of(),
    {
        match self {
            TraitKitError::DependencyMissing { .. } => ErrorKind::Missing,
            TraitKitError::MissingCapability { .. } => ErrorKind::Missing,
            TraitKitError::MissingConfig { .. } => ErrorKind::Missing,
            TraitKitError::CapabilityTypeMismatch { .. } => ErrorKind::TypeMismatch,
            TraitKitError::BuildFailed { .. } => ErrorKind::InitFailed,
            TraitKitError::LifecycleFailed { .. } => ErrorKind::InitFailed,
            TraitKitError::CycleDetected { .. } => ErrorKind::Other,
            TraitKitError::AlreadyRegistered { .. } => ErrorKind::Other,
            TraitKitError::ShutdownTimedOut { .. } => ErrorKind::Other,
        }
    }
}

/// Readable names of `phases` joined with `, `.
pub open spec fn phase_list(phases: Seq<ShutdownPhase>) -> Seq<char>
    decreases phases.len(),
{
    if phases.len() == 0 {
        Seq::empty()
    } else if phases.len() == 1 {
        phases[0].name()
    } else {
        phase_list(phases.drop_last()) + ", "@ + phases.last().name()
    }
}

impl TraitKitError {
    /// The text of the error.
    pub open spec fn text(&self) -> Seq<char> {
        match self {
            TraitKitError::DependencyMissing { module, missing } => "module `"@ + module@
                + "` depends on unregistered module `"@ + missing@ + "`"@,
            TraitKitError::CycleDetected { cycle } => "dependency cycle detected: "@ + name_chain(
                cycle@,
            ),
            TraitKitError::MissingCapability { key } => "missing capability `"@ + key@ + "`"@,
            TraitKitError::MissingConfig { key } => "missing config `"@ + key@ + "`"@,
            TraitKitError::CapabilityTypeMismatch { key } => "capability `"@ + key@
                + "` has an unexpected type"@,
            TraitKitError::BuildFailed { context, .. } => "failed to build `"@ + context@ + "`"@,
            TraitKitError::LifecycleFailed { context, .. } => "lifecycle callback failed for `"@
                + context@ + "`"@,
            TraitKitError::AlreadyRegistered { module } => "module `"@ + module@
                + "` is already registered"@,
            TraitKitError::ShutdownTimedOut { phases } => "shutdown timed out in phases: "@
                + phase_list(phases@),
        }
    }

    /// Human-readable description of the error.
    pub fn message(&self) -> (r: String)
        ensures
            r@ == self.text(),
    {
        let mut out = String::new();
        match self {
            TraitKitError::DependencyMissing { module, missing } => {
                push_str(&mut out, "module `");
                push_str(&mut out, module);
                push_str(&mut out, "` depends on unregistered module `");
                push_str(&mut out, missing);
                push_str(&mut out, "`");
            },
            TraitKitError::CycleDetected { cycle } => {
                let g = crate::graph::GraphError::CycleDetected { cycle: copy_names(cycle) };
                out = g.message();
            },
            TraitKitError::MissingCapability { key } => {
                push_str(&mut out, "missing capability `");
                push_str(&mut out, key.as_str());
                push_str(&mut out, "`");
            },
            TraitKitError::MissingConfig { key } => {
                push_str(&mut out, "missing config `");
                push_str(&mut out, key.as_str());
                push_str(&mut out, "`");
            },
            TraitKitError::CapabilityTypeMismatch { key } => {
                push_str(&mut out, "capability `");
                push_str(&mut out, key.as_str());
                push_str(&mut out, "` has an unexpected type");
            },
            TraitKitError::BuildFailed { context, .. } => {
                push_str(&mut out, "failed to build `");
                push_str(&mut out, context.as_str());
                push_str(&mut out, "`");
            },
            TraitKitError::LifecycleFailed { context, .. } => {
                push_str(&mut out, "lifecycle callback failed for `");
                push_str(&mut out, context.as_str());
                push_str(&mut out, "`");
            },
            TraitKitError::AlreadyRegistered { module } => {
                push_str(&mut out, "module `");
                push_str(&mut out, module);
                push_str(&mut out, "` is already registered");
            },
            TraitKitError::ShutdownTimedOut { phases } => {
                push_str(&mut out, "shutdown timed out in phases: ");
                let ghost head = out@;
                let mut i: usize = 0;
                while i < phases.len()
                    invariant
                        i <= phases@.len(),
                        out@ == head + phase_list(phases@.take(i as int)),
                    decreases phases@.len() - i,
                {
                    proof {
                        assert(phases@.take(i + 1).drop_last() =~= phases@.take(i as int));
                    }
                    if i > 0 {
                        push_str(&mut out, ", ");
                    }
                    push_str(&mut out, phases[i].as_str());
                    i += 1;
                    proof {
                        if i == 1 {
                            assert(phase_list(phases@.take(0)) =~= Seq::<char>::empty());
                        }
                        assert(out@ =~= head + phase_list(phases@.take(i as int)));
                    }
                }
                proof {
                    assert(phases@.take(i as int) =~= phases@);
                }
            },
        }
        proof {
            assert(out@ =~= self.text());
        }
        out
    }
}

/// A copy of a list of names.
fn copy_names(names: &Vec<&'static str>) -> (r: Vec<&'static str>)
    ensures
        r@ == names@,
{
    let mut out: Vec<&'static str> = Vec::new();
    let mut i: usize = 0;
    while i < names.len()
        invariant
            i <= names@.len(),
            out@ == names@.take(i as int),
        decreases names@.len() - i,
    {
        out.push(names[i]);
        i += 1;
        proof {
            assert(out@ =~= names@.take(i as int));
        }
    }
    proof {
        assert(names@.take(i as int) =~= names@);
    }
    out
}

/// The error type of the capability and config stores.
#[derive(Debug)]
pub enum KitError {
    /// Build failed for a module.
    BuildFailed { module: &'static str, source: ErrorSource },
    /// A required capability is missing.
    MissingCapability { key: &'static str },
    /// A capability is already registered under this key.
    DuplicateCapability { key: &'static str },
    /// A required configuration is missing.
    MissingConfig { key: &'static str },
}

} // verus!
