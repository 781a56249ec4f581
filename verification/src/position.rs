//! Turning the place of a value in memory into offsets within its buffer.

use vstd::prelude::*;
use crate::error::PackumentError;

verus! {

/// Whether the `len` bytes at address `addr` lie within the `size` bytes of
/// the buffer at address `base`.
pub open spec fn lies_within(base: int, size: int, addr: int, len: int) -> bool {
    base <= addr && addr - base + len <= size
}

/// The half-open range of offsets, relative to the start of a buffer of `size`
/// bytes at address `base`, of the `len` bytes at address `addr`.
///
/// A value that does not lie within the buffer is reported and never turned
/// into offsets.
pub fn offsets_within(base: usize, size: usize, addr: usize, len: usize) -> (r: Result<
    (usize, usize),
    PackumentError,
>)
    ensures
        lies_within(base as int, size as int, addr as int, len as int) ==> r == Ok::<
            (usize, usize),
            PackumentError,
        >(((addr - base) as usize, (addr - base + len) as usize)),
        !lies_within(base as int, size as int, addr as int, len as int) ==> r == Err::<
            (usize, usize),
            PackumentError,
        >(PackumentError::BufferIdentityMismatch),
{
    if addr < base {
        return Err(PackumentError::BufferIdentityMismatch);
    }
    let start: usize = addr - base;
    if start > size || len > size - start {
        return Err(PackumentError::BufferIdentityMismatch);
    }
    Ok((start, start + len))
}

} // verus!
