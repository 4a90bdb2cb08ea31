//! The error taxonomy of the engine.
//!
//! Parser-level malformed fields are absorbed with safe defaults and never
//! reach this type; these variants report failures of the external tools
//! and of the operations built on them.

use vstd::prelude::*;

verus! {

#[derive(Clone, Debug)]
pub enum NetworkError {
    /// An external tool exited non-zero or its executable is missing.
    CommandFailed { command: String, details: String },
    /// No interface of the given name exists.
    InterfaceNotFound { interface: String },
    /// A WiFi scan or connect failed for a semantic reason.
    WiFiError { details: String },
    /// A WireGuard operation failed.
    WireGuardError { details: String },
    /// A requested configuration is invalid.
    InvalidConfig { details: String },
    /// The operation needs privileges the process does not have.
    PermissionDenied { operation: String },
    /// A required system resource is unavailable, e.g. no usable wireless
    /// backend at all.
    ResourceUnavailable { resource: String },
    /// A hotspot operation failed.
    HotspotError { details: String },
    /// An enterprise WiFi operation failed.
    EnterpriseWiFiError { details: String },
}

} // verus!
