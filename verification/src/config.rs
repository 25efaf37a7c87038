//! Configuration contracts: loading, module metadata, validation,
//! field-level overrides, and encrypted storage of configuration values.

use vstd::prelude::*;

use crate::error::ErrorSource;

verus! {

/// Types that can load themselves from a configuration source (file, env,
/// network, ...).
pub trait Configurable: Clone + 'static {
    /// Load the configuration value from its source.
    fn load() -> Result<Self, ErrorSource>;
}

/// Module-level configuration metadata: the configuration path of the
/// module and a default value.
pub trait ModuleConfig: Clone + 'static {
    /// Configuration path relative to the application root; also the
    /// context of the module's per-field encryption key.
    const PATH: &'static str;

    /// The default configuration value.
    fn default_value() -> Self;
}

/// Configuration types that validate themselves after loading.
pub trait Validatable: Clone + 'static {
    /// `Ok(())` if valid, or every validation failure.
    fn validate(&self) -> Result<(), Vec<String>>;
}

/// Field-level override: an `Override` type whose fields are optional, of
/// which only the present ones are applied.
pub trait ConfigInherit: Clone + 'static {
    /// Override type with each field wrapped in `Option<T>`.
    type Override: Clone + Default + 'static;

    /// Apply the present fields of `ovr` to `self`.
    fn apply_override(&mut self, ovr: &Self::Override);
}

/// A list of validation failures, reported as one error.
#[derive(Debug)]
pub struct ValidationError {
    /// Individual validation failure messages.
    pub errors: Vec<String>,
}

/// `parts` joined with `sep` between consecutive parts.
pub open spec fn joined(parts: Seq<Seq<char>>, sep: Seq<char>) -> Seq<char>
    decreases parts.len(),
{
    if parts.len() == 0 {
        Seq::empty()
    } else if parts.len() == 1 {
        parts[0]
    } else {
        joined(parts.drop_last(), sep) + sep + parts.last()
    }
}

impl ValidationError {
    /// The failures, by content.
    pub open spec fn messages(self) -> Seq<Seq<char>> {
        Seq::new(self.errors@.len(), |i: int| self.errors@[i]@)
    }

    /// `validation failed: ` followed by the failures joined with `; `.
    pub fn message(&self) -> (r: String)
        ensures
            r@ == "validation failed: "@ + joined(self.messages(), "; "@),
    {
        let mut out = String::new();
        crate::text::push_str(&mut out, "validation failed: ");
        let ghost head = out@;
        let mut i: usize = 0;
        while i < self.errors.len()
            invariant
                i <= self.errors@.len(),
                out@ == head + joined(self.messages().take(i as int), "; "@),
            decreases self.errors@.len() - i,
        {
            proof {
                assert(self.messages().take(i + 1).drop_last() =~= self.messages().take(i as int));
                assert(self.messages().take(i + 1).last() == self.errors@[i as int]@);
            }
            if i > 0 {
                crate::text::push_str(&mut out, "; ");
            }
            crate::text::push_str(&mut out, self.errors[i].as_str());
            i += 1;
            proof {
                if i == 1 {
                    assert(joined(self.messages().take(0), "; "@) =~= Seq::<char>::empty());
                }
                assert(out@ =~= head + joined(self.messages().take(i as int), "; "@));
            }
        }
        proof {
            assert(self.messages().take(i as int) =~= self.messages());
        }
        out
    }
}

} // verus!
