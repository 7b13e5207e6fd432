//! The two heap strategies and the address arithmetic they share.

use vstd::prelude::*;
use vstd::arithmetic::div_mod::{
    lemma_fundamental_div_mod, lemma_mod_bound, lemma_mod_decreases, lemma_mod_multiples_basic,
};

pub mod bump;
pub mod layout;
pub mod list;
pub mod list_laws;

verus! {

/// Whether `addr` is a multiple of `align`.
pub open spec fn is_aligned(addr: int, align: int) -> bool {
    addr % align == 0
}

/// `addr` rounded up to the next multiple of `align`.
pub open spec fn align_up_spec(addr: int, align: int) -> int {
    if addr % align == 0 {
        addr
    } else {
        addr - addr % align + align
    }
}

/// `align_up_spec(addr, align)` is the least multiple of `align` that is not
/// below `addr`, and it lies less than `align` above `addr`.
pub proof fn lemma_align_up_is_least_multiple(addr: int, align: int)
    requires
        align > 0,
    ensures
        addr <= align_up_spec(addr, align) < addr + align,
        is_aligned(align_up_spec(addr, align), align),
        forall|m: int| addr <= m && #[trigger] is_aligned(m, align) ==> align_up_spec(addr, align) <= m,
{
    let r = align_up_spec(addr, align);
    let q = addr / align;
    lemma_fundamental_div_mod(addr, align);
    lemma_mod_bound(addr, align);
    if addr % align != 0 {
        assert(r == (q + 1) * align) by (nonlinear_arith)
            requires
                r == addr - addr % align + align,
                addr == align * q + addr % align,
        ;
        lemma_mod_multiples_basic(q + 1, align);
    }
    assert forall|m: int| addr <= m && #[trigger] is_aligned(m, align) implies r <= m by {
        if m < r {
            // A multiple of `align` in [addr, r) would sit strictly between two
            // neighbouring multiples.
            lemma_fundamental_div_mod(m, align);
            let k = m / align;
            assert(m == align * k);
            assert(q < k) by (nonlinear_arith)
                requires
                    addr == align * q + addr % align,
                    0 < addr % align,
                    m == align * k,
                    addr <= m,
                    align > 0,
            ;
            assert(m >= (q + 1) * align) by (nonlinear_arith)
                requires
                    m == align * k,
                    q < k,
                    align > 0,
            ;
        }
    }
}

/// Rounds `addr` up to a multiple of `align`, or reports that the result
/// does not fit in an address.
pub fn checked_align_up(addr: usize, align: usize) -> (r: Option<usize>)
    requires
        align > 0,
    ensures
        r == if align_up_spec(addr as int, align as int) <= usize::MAX {
            Some(align_up_spec(addr as int, align as int) as usize)
        } else {
            None
        },
{
    proof {
        lemma_mod_decreases(addr as nat, align as nat);
    }
    let rem: usize = addr % align;
    if rem == 0 {
        Some(addr)
    } else {
        (addr - rem).checked_add(align)
    }
}

/// Rounds `addr` up to a multiple of `align`: the smallest address that is
/// at least `addr` and divisible by `align`.
pub fn align_up(addr: usize, align: usize) -> (r: usize)
    requires
        align > 0,
        align_up_spec(addr as int, align as int) <= usize::MAX,
    ensures
        r == align_up_spec(addr as int, align as int),
        addr <= r < addr + align,
        is_aligned(r as int, align as int),
        forall|m: int| addr <= m && #[trigger] is_aligned(m, align as int) ==> r <= m,
{
    proof {
        lemma_align_up_is_least_multiple(addr as int, align as int);
        lemma_mod_decreases(addr as nat, align as nat);
    }
    let rem: usize = addr % align;
    if rem == 0 {
        addr
    } else {
        addr - rem + align
    }
}

} // verus!
