//! Addresses and alignment.
//!
//! Payloads start at multiples of the header size. A stronger alignment is
//! met by asking the raw allocator for more bytes than wanted and moving the
//! address up inside the payload.
use crate::block::HEADER_SIZE;
use vstd::arithmetic::div_mod::lemma_fundamental_div_mod;
use vstd::arithmetic::power2::is_pow2;
use vstd::prelude::*;

verus! {

/// `addr` is a multiple of `align`.
pub open spec fn aligned(addr: int, align: int) -> bool {
    addr % align == 0
}

/// The smallest multiple of `align` that is not below `addr`.
pub open spec fn align_up(addr: int, align: int) -> int {
    if addr % align == 0 {
        addr
    } else {
        addr + align - addr % align
    }
}

/// Bytes asked of the raw allocator for `size` bytes aligned to `align`.
/// Payloads are aligned to the header size anyway; for a stronger alignment
/// `align` bytes are added, so that an aligned address with `size` bytes
/// behind it lies in the payload wherever the payload starts.
pub open spec fn raw_request(size: int, align: int) -> int {
    if align > HEADER_SIZE {
        size + align
    } else {
        size
    }
}

/// A power of two is 1, 2 or 4, or a multiple of 4.
pub proof fn lemma_pow2_and_header(align: int)
    requires
        is_pow2(align),
    ensures
        align > 0,
        align <= HEADER_SIZE ==> HEADER_SIZE as int % align == 0,
        align > HEADER_SIZE ==> align % (HEADER_SIZE as int) == 0,
{
    reveal_with_fuel(is_pow2, 3);
    if align == 1 {
        assert(4int % 1 == 0);
    } else if align == 2 {
        assert(4int % 2 == 0);
    } else if align == 4 {
        assert(4int % 4 == 0);
    }
}

/// `align_up` is the one multiple of `align` among the `align` addresses from
/// `addr` on, and so the least multiple from `addr` on. An address that is a
/// multiple of 4 already is moved by a multiple of 4 where `align` is one,
/// and not at all where `align` divides 4.
pub proof fn lemma_align_up(addr: int, align: int)
    requires
        0 <= addr,
        0 < align,
    ensures
        aligned(align_up(addr, align), align),
        addr <= align_up(addr, align) < addr + align,
        forall|m: int| addr <= m && #[trigger] aligned(m, align) ==> align_up(addr, align) <= m,
        addr % 4 == 0 && 4int % align == 0 ==> align_up(addr, align) == addr,
        addr % 4 == 0 && align % 4 == 0 ==> align_up(addr, align) <= addr + align - 4,
{
    let up = align_up(addr, align);
    assert(up % align == 0 && addr <= up < addr + align) by (nonlinear_arith)
        requires
            0 <= addr,
            0 < align,
            up == align_up(addr, align),
    ;
    assert forall|m: int| addr <= m && #[trigger] aligned(m, align) implies up <= m by {
        assert(up <= m) by (nonlinear_arith)
            requires
                addr <= m,
                m % align == 0,
                up % align == 0,
                up < addr + align,
                0 < align,
        ;
    }
    if addr % 4 == 0 && 4int % align == 0 {
        assert(addr % align == 0) by (nonlinear_arith)
            requires
                addr % 4 == 0,
                4int % align == 0,
                0 < align,
                0 <= addr,
        ;
    }
    if addr % 4 == 0 && align % 4 == 0 {
        let q = addr / align;
        let k = align / 4;
        lemma_fundamental_div_mod(addr, align);
        assert(align * q == 4 * (q * k)) by (nonlinear_arith)
            requires
                align == 4 * k,
        ;
        assert((addr % align) % 4 == 0);
    }
}

} // verus!
