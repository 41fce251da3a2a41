//! Trigger adapters that feed contexts into a chain's run.
//!
//! A listener is an external collaborator: it receives some outside
//! stimulus (a request, a command line), builds a context, has a chain run
//! it, and hands the result back out. The core only fixes the interface;
//! implementations live with the surrounding application.

use vstd::prelude::*;

verus! {

/// Declares `std::io::Error` so listener signatures can carry it; the core
/// never constructs or inspects one.
#[verifier::external_type_specification]
#[verifier::external_body]
pub struct ExIoError(std::io::Error);

/// A blocking trigger adapter (a CLI, a queue poller): started once, it
/// feeds contexts into a chain until it stops.
pub trait BaseListenerSync: Send + Sync {
    /// Starts the listener; returns when it shuts down or fails.
    fn start(&self) -> std::io::Result<()>;

    /// The listener's name or kind.
    fn name(&self) -> &'static str;
}

} // verus!
