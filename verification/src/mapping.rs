//! Shared mappings: a header followed by a request region and a response region of
//! equal size. Sizes are checked against a fixed limit before anything is mapped,
//! and a process that attaches to an existing mapping checks its layout header first.
use vstd::prelude::*;

verus! {

/// Largest shared mapping a method creates: 256 MiB.
pub const MAX_MAPPING_SIZE: usize = 268435456;

/// Why a mapping cannot be used.
#[derive(Clone, Copy, Debug, PartialEq, Eq, Structural)]
pub enum MappingError {
    /// The mapping would exceed the size limit (or `usize`).
    TooLarge,
    /// The mapping's header describes another layout than the one expected.
    LayoutMismatch,
}

/// Bytes a mapping needs: the header, then two regions of `slots` slots of `stride`
/// bytes each.
pub open spec fn mapping_size_spec(header_size: nat, stride: nat, slots: nat) -> nat {
    header_size + 2 * (slots * stride)
}

/// The size of a mapping with the given header and regions, if within the limit.
pub fn mapping_size(header_size: usize, stride: usize, slots: usize) -> (size: Result<
    usize,
    MappingError,
>)
    ensures
        mapping_size_spec(header_size as nat, stride as nat, slots as nat) <= MAX_MAPPING_SIZE
            ==> size == Ok::<usize, MappingError>(
            mapping_size_spec(header_size as nat, stride as nat, slots as nat) as usize,
        ),
        mapping_size_spec(header_size as nat, stride as nat, slots as nat) > MAX_MAPPING_SIZE
            ==> size == Err::<usize, MappingError>(MappingError::TooLarge),
{
    if slots != 0 && stride > MAX_MAPPING_SIZE / slots {
        assert(slots * stride > MAX_MAPPING_SIZE) by (nonlinear_arith)
            requires
                slots > 0,
                stride > MAX_MAPPING_SIZE as int / slots as int,
        ;
        return Err(MappingError::TooLarge);
    }
    assert(slots * stride <= MAX_MAPPING_SIZE) by (nonlinear_arith)
        requires
            slots == 0 || stride <= MAX_MAPPING_SIZE as int / slots as int,
    ;
    let region = slots * stride;
    if header_size > MAX_MAPPING_SIZE || 2 * region > MAX_MAPPING_SIZE - header_size {
        return Err(MappingError::TooLarge);
    }
    Ok(header_size + 2 * region)
}

/// The layout a mapping's creator records in its header.
#[derive(Clone, Copy, Debug, PartialEq, Eq, Structural)]
pub struct LayoutHeader {
    pub total_size: usize,
    pub capacity: usize,
    pub message_size: usize,
}

impl LayoutHeader {
    pub fn new(total_size: usize, capacity: usize, message_size: usize) -> (header: Self)
        ensures
            header == (LayoutHeader { total_size, capacity, message_size }),
    {
        LayoutHeader { total_size, capacity, message_size }
    }

    /// An attaching process accepts the mapping only when its header records exactly
    /// the layout the process expects.
    pub fn validate(&self, expected: LayoutHeader) -> (result: Result<(), MappingError>)
        ensures
            result is Ok <==> *self == expected,
            result is Err ==> result == Err::<(), MappingError>(MappingError::LayoutMismatch),
    {
        if self.total_size == expected.total_size && self.capacity == expected.capacity
            && self.message_size == expected.message_size {
            Ok(())
        } else {
            Err(MappingError::LayoutMismatch)
        }
    }
}

} // verus!
