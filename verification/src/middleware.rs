//! Cross-cutting before/after hooks invoked around every link execution.

use std::io::Write;
use vstd::prelude::*;

verus! {

/// A pair of read-only hooks run around every link: each middleware's
/// `before` runs ahead of the link and its `after` runs following it, both
/// in registration order. Hooks observe the context and return nothing;
/// both default to doing nothing, so an implementer overrides only what it
/// uses.
pub trait Middleware<T>: Send + Sync {
    /// Called before a link runs, with the pre-link context.
    fn before(&self, _ctx: &T) {
    }

    /// Called after a link runs, with the post-link context.
    fn after(&self, _ctx: &T) {
    }
}

/// Relies on std::io::Stdout::write_fmt (through writeln) to print one line.
#[verifier::external_body]
fn emit_log(prefix: &str, ctx: &crate::context::Context) {
    let _ = writeln!(std::io::stdout(), "{} {:?}", prefix, ctx);
}

/// Built-in middleware that prints the context before and after every link.
pub struct LoggingMiddleware;

impl Middleware<crate::context::Context> for LoggingMiddleware {
    fn before(&self, ctx: &crate::context::Context) {
        emit_log("[Logging] Before:", ctx);
    }

    fn after(&self, ctx: &crate::context::Context) {
        emit_log("[Logging] After:", ctx);
    }
}

/// Relies on std::io::Stdout::write_fmt (through writeln) to print one line.
#[verifier::external_body]
fn emit_log_mutable(prefix: &str, ctx: &crate::context::ContextMutable) {
    let _ = writeln!(std::io::stdout(), "{} {:?}", prefix, ctx);
}

impl Middleware<crate::context::ContextMutable> for LoggingMiddleware {
    fn before(&self, ctx: &crate::context::ContextMutable) {
        emit_log_mutable("[Logging] Before:", ctx);
    }

    fn after(&self, ctx: &crate::context::ContextMutable) {
        emit_log_mutable("[Logging] After:", ctx);
    }
}

/// The built-in logging middleware, ready to attach to a chain.
pub fn logging_middleware() -> (m: LoggingMiddleware)
    ensures
        m == (LoggingMiddleware {  }),
{
    LoggingMiddleware
}

} // verus!
