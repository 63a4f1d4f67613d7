//! Physical-address alignment, delegated to the architecture support crate.

use vstd::prelude::*;

verus! {

/// The smallest multiple of `align` that is `>= addr`, as an integer formula.
pub open spec fn spec_align_up(addr: int, align: int) -> int {
    ((addr + align - 1) / align) * align
}

/// Relies on `x86_64::PhysAddr::align_up` (via `x86_64::addr::align_up`):
/// returns the smallest address of the given power-of-two alignment that is
/// not below `addr`. The bounds keep both the constructor and the alignment
/// step away from their panics (bits 52..64 must stay clear, and the
/// addition must not overflow).
#[verifier::external_body]
pub(crate) fn align_up(addr: u64, align: u64) -> (r: u64)
    requires
        align == 0x1000 || align == 0x20_0000 || align == 0x4000_0000,
        addr + align <= 0x0010_0000_0000_0000,
    ensures
        r % align == 0,
        addr <= r < addr + align,
        r == spec_align_up(addr as int, align as int),
{
    x86_64::PhysAddr::new(addr).align_up(align).as_u64()
}

} // verus!
