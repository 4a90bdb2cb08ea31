//! Backend selection for the wireless capability set.
//!
//! Two backends implement the same capabilities: a modern device-daemon
//! variant and a legacy scan/supplicant variant.  Availability varies by
//! system, so the selection is a chain of responsibility, not a
//! configuration choice: try the modern variant first, fall back silently
//! to the legacy one on any failure, and surface a typed error only when
//! both fail.  The selector probes once, remembers which backend worked,
//! and re-probes only after a failure.  Running the backends' commands
//! happens outside the library; the decisions are made here.

use vstd::prelude::*;

use crate::errors::NetworkError;

verus! {

#[derive(Clone, Copy, Debug, PartialEq, Eq, Structural)]
pub enum BackendKind {
    Modern,
    Legacy,
}

/// The backend to try first: the remembered live backend, or the modern
/// one when nothing is cached.
pub open spec fn spec_first_choice(cached: Option<BackendKind>) -> BackendKind {
    match cached {
        Some(k) => k,
        None => BackendKind::Modern,
    }
}

/// The backend to fall back to after `failed` failed: the legacy variant
/// stands behind the modern one, and nothing stands behind the legacy one.
pub open spec fn spec_fallback(failed: BackendKind) -> Option<BackendKind> {
    match failed {
        BackendKind::Modern => Some(BackendKind::Legacy),
        BackendKind::Legacy => None,
    }
}

/// Probe-and-cache backend selection state.
#[derive(Clone, Copy, Debug)]
pub struct BackendSelector {
    pub cached: Option<BackendKind>,
}

impl BackendSelector {
    /// A fresh selector has probed nothing yet.
    pub fn new() -> (r: Self)
        ensures
            r.cached is None,
    {
        BackendSelector { cached: None }
    }

    /// Which backend a capability call tries first.
    pub fn first_choice(&self) -> (k: BackendKind)
        ensures
            k == spec_first_choice(self.cached),
    {
        match self.cached {
            Some(k) => k,
            None => BackendKind::Modern,
        }
    }

    /// Which backend to try after `failed` failed, if any.  A failure of
    /// the modern backend is served by the legacy one without surfacing an
    /// error; only the legacy backend's failure ends the chain.
    pub fn fallback_of(&self, failed: BackendKind) -> (r: Option<BackendKind>)
        ensures
            r == spec_fallback(failed),
    {
        match failed {
            BackendKind::Modern => Some(BackendKind::Legacy),
            BackendKind::Legacy => None,
        }
    }

    /// Remembers the backend that just served a call.
    pub fn note_success(&mut self, k: BackendKind)
        ensures
            final(self).cached == Some(k),
    {
        self.cached = Some(k);
    }

    /// Forgets a remembered backend after it failed, so that the next call
    /// re-probes from the start of the chain.
    pub fn note_failure(&mut self, k: BackendKind)
        ensures
            final(self).cached == if old(self).cached == Some(k) {
                None::<BackendKind>
            } else {
                old(self).cached
            },
    {
        match self.cached {
            Some(c) => {
                if c == k {
                    self.cached = None;
                }
            }
            None => {},
        }
    }

    /// The typed error surfaced when the whole chain is exhausted.
    pub fn exhausted_error(&self) -> (r: NetworkError)
        ensures
            r is ResourceUnavailable,
    {
        NetworkError::ResourceUnavailable {
            resource: String::from_str("Neither iwd nor iw wireless tools available"),
        }
    }
}

/// Fallback law: with nothing cached a capability call tries the modern
/// backend first, and when that call fails — a missing executable or a
/// non-zero exit — the very same call is retried on the legacy backend
/// rather than surfacing the modern backend's error; only after the legacy
/// backend also fails is an error surfaced at all.
pub proof fn lemma_backend_fallback(s: BackendSelector)
    requires
        s.cached is None,
    ensures
        spec_first_choice(s.cached) == BackendKind::Modern,
        spec_fallback(BackendKind::Modern) == Some(BackendKind::Legacy),
        spec_fallback(BackendKind::Legacy) is None,
{
}

} // verus!
