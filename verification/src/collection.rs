//! Collection lifecycle plumbing: what the binding decides for itself when
//! the host runtime starts and stops the world.  The actual stop, resume
//! and thread-spawn mechanisms are host upcalls outside the model.

use vstd::prelude::*;

verus! {

/// The code passed to the host when spawning a controller thread.
pub const GC_THREAD_KIND_CONTROLLER: i32 = 0;

/// The code passed to the host when spawning a worker thread.
pub const GC_THREAD_KIND_WORKER: i32 = 1;

/// The context a freshly spawned collector thread runs.
pub enum GCThreadContext {
    /// The coordinating controller thread.
    Controller,
    /// An ordinary worker thread.
    Worker,
}

/// The marker type carrying the binding's collection lifecycle decisions.
pub struct VMCollection {}

impl VMCollection {
    /// Any collector thread may stop and start the world; no coordinator
    /// is singled out.
    pub fn coordinator_only_stw() -> (r: bool)
        ensures
            !r,
    {
        false
    }

    /// The host-visible kind code for a spawned collector thread.
    pub fn spawn_gc_thread_kind(ctx: &GCThreadContext) -> (r: i32)
        ensures
            r == (match ctx {
                GCThreadContext::Controller => GC_THREAD_KIND_CONTROLLER,
                GCThreadContext::Worker => GC_THREAD_KIND_WORKER,
            }),
    {
        match ctx {
            GCThreadContext::Controller => GC_THREAD_KIND_CONTROLLER,
            GCThreadContext::Worker => GC_THREAD_KIND_WORKER,
        }
    }
}

} // verus!
