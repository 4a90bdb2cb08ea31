//! Network state aggregation and WiFi management engine.
//!
//! The crate models the live network state of a Linux host: interfaces with
//! their addresses, routes and statistics, wireless scan results, remembered
//! WiFi profiles, and the decisions of the auto-connect engine.  Command
//! output from the external tools is parsed here; running those tools, the
//! terminal front end and on-disk persistence live outside the library.

use vstd::prelude::*;

pub mod autoconnect;
pub mod backend;
pub mod config;
pub mod errors;
pub mod iwd;
pub mod network;
pub mod scan;
pub mod systemd;
pub mod text;

verus! {

/// The views of the elements of a sequence.
pub open spec fn views<T: View>(v: Seq<T>) -> Seq<<T as View>::V> {
    Seq::new(v.len(), |i: int| v[i]@)
}

} // verus!
