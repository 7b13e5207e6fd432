//! Allocation requests: a size in bytes and a power-of-two alignment.

use vstd::prelude::*;
use vstd::arithmetic::power2::is_pow2;
use super::{align_up_spec, checked_align_up};

verus! {

/// The pairs of size and alignment that make a request: the alignment is a
/// power of two, and the size rounded up to the alignment fits in `isize`.
pub open spec fn valid_layout(size: int, align: int) -> bool {
    is_pow2(align) && align_up_spec(size, align) <= isize::MAX
}

/// One more halving step of `is_pow2` for an even number above one.
proof fn lemma_pow2_halves(n: int)
    requires
        n > 1,
    ensures
        is_pow2(n) == (n % 2 == 0 && is_pow2(n / 2)),
{
    reveal(is_pow2);
}

/// Tells whether `n` is a power of two.
pub fn is_power_of_two(n: usize) -> (b: bool)
    ensures
        b == is_pow2(n as int),
{
    if n == 0 {
        proof {
            reveal(is_pow2);
        }
        return false;
    }
    let mut m: usize = n;
    while m % 2 == 0
        invariant
            m > 0,
            is_pow2(m as int) == is_pow2(n as int),
        decreases m,
    {
        proof {
            lemma_pow2_halves(m as int);
        }
        m = m / 2;
    }
    proof {
        reveal(is_pow2);
    }
    m == 1
}

/// An allocation request.
#[derive(Clone, Copy, Debug)]
pub struct Layout {
    size: usize,
    align: usize,
}

impl Layout {
    /// The requested size in bytes.
    pub closed spec fn spec_size(&self) -> usize {
        self.size
    }

    /// The requested alignment in bytes.
    pub closed spec fn spec_align(&self) -> usize {
        self.align
    }

    /// Every request is a valid pair of size and alignment.
    #[verifier::type_invariant]
    pub open spec fn wf(self) -> bool {
        valid_layout(self.spec_size() as int, self.spec_align() as int)
    }

    /// Makes a request, unless `align` is no power of two or `size` rounded
    /// up to `align` would exceed `isize::MAX`.
    pub fn from_size_align(size: usize, align: usize) -> (r: Option<Layout>)
        ensures
            r is Some <==> valid_layout(size as int, align as int),
            r matches Some(l) ==> l.size() == size && l.align() == align && l.wf(),
    {
        if !is_power_of_two(align) {
            return None;
        }
        proof {
            reveal(is_pow2);
        }
        match checked_align_up(size, align) {
            Some(padded) => {
                if padded > isize::MAX as usize {
                    None
                } else {
                    Some(Layout { size, align })
                }
            },
            None => None,
        }
    }

    /// The requested size in bytes.
    #[verifier::when_used_as_spec(spec_size)]
    pub fn size(&self) -> (r: usize)
        ensures
            r == self.size(),
    {
        self.size
    }

    /// The requested alignment in bytes.
    #[verifier::when_used_as_spec(spec_align)]
    pub fn align(&self) -> (r: usize)
        ensures
            r == self.align(),
    {
        self.align
    }
}

} // verus!
