//! The address-level object model: how an object reference relates to the
//! addresses the collector computes from it.  The copying machinery itself
//! is the tracer's, consumed through the heap model's trace-and-forward
//! operation; only the pure address arithmetic lives here.

use vstd::prelude::*;

verus! {

/// The marker type carrying the binding's object-model constants and
/// address conversions.  References address the object start directly.
pub struct VMObjectModel {}

impl VMObjectModel {
    /// Objects are aligned to the word size when copied.
    pub const ALIGNMENT_WHEN_COPIED: u64 = 8;

    /// The start of the object's storage; the reference itself.
    pub fn ref_to_object_start(object: u64) -> (r: u64)
        ensures
            r == object,
    {
        object
    }

    /// The address the collector keys its tables by; the reference itself.
    pub fn ref_to_address(object: u64) -> (r: u64)
        ensures
            r == object,
    {
        object
    }

    /// The header address; the reference itself.
    pub fn ref_to_header(object: u64) -> (r: u64)
        ensures
            r == object,
    {
        object
    }

    /// The reference denoting the object at `address`.
    pub fn address_to_ref(address: u64) -> (r: u64)
        ensures
            r == address,
    {
        address
    }

    /// The reference an object will carry once copied to `to`.
    pub fn get_reference_when_copied_to(_from: u64, to: u64) -> (r: u64)
        ensures
            r == to,
    {
        to
    }

    /// The alignment applied when the object is copied.
    pub fn get_align_when_copied(_object: u64) -> (r: u64)
        ensures
            r == 8,
    {
        8
    }

    /// The alignment offset applied when the object is copied.
    pub fn get_align_offset_when_copied(_object: u64) -> (r: u64)
        ensures
            r == 0,
    {
        0
    }

    /// The end of the region an object of `bytes` bytes occupies once
    /// copied to `to`.
    pub fn copy_to_region_end(to: u64, bytes: u64) -> (r: u64)
        requires
            to + bytes <= u64::MAX,
        ensures
            r == to + bytes,
    {
        to + bytes
    }
}

} // verus!
