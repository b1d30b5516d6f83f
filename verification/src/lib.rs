//! A verified model of the reference-processing and root-scanning subsystems
//! of a tracing garbage collector's OpenJDK integration layer.
//!
//! The crate covers four cooperating pieces:
//! - a slot abstraction over locations that hold object references, with a
//!   tag-aware compressed-pointer encoding (`slots`);
//! - a per-worker discovered-list engine that threads singly linked lists
//!   through a reserved discovery-link field of each reference object
//!   (`reference_glue`);
//! - a reference processor that drains those lists, applies per-kind
//!   retention policy, and splices survivors into the host pending queue
//!   (`reference_glue`);
//! - a root-scan coordinator that turns root enumeration into bounded
//!   batches of tracer work, with incremental caching for code-cache roots
//!   (`gc_work`, `scanning`, `object_scanning`).
//!
//! Ambient collector state (discovered lists, root caches, the
//! discovery-enabled flag, pointer-compression constants) is held in explicit
//! values passed into every operation; the host runtime and the tracer are
//! modelled by the `heap` module.

use vstd::prelude::*;

pub mod collection;
pub mod gc_work;
pub mod heap;
pub mod object_model;
pub mod object_scanning;
pub mod reference_glue;
pub mod scanning;
pub mod slots;
pub mod table;

verus! {

/// Marker type for the OpenJDK binding as a whole; collects the binding-wide
/// layout constants.
pub struct OpenJDK;

impl OpenJDK {
    /// Minimum alignment, in bytes, of any object allocated for the VM.
    pub const MIN_ALIGNMENT: usize = 8;

    /// Maximum alignment, in bytes, of any object allocated for the VM.
    pub const MAX_ALIGNMENT: usize = 8;
}

/// A fresh root buffer handed back to an enumerator after a flush: the
/// replacement buffer of the fill-then-flush protocol, transferred by value.
pub struct NewBuffer {
    /// The empty replacement buffer the enumerator will fill next.
    pub buf: Vec<u64>,
    /// The capacity at which the enumerator must hand the buffer back.
    pub capacity: usize,
}

} // verus!
