//! The size and alignment of a requested block of memory.

use vstd::prelude::*;
use vstd::arithmetic::power2::is_pow2;
use vstd::layout::{size_of, align_of, valid_layout, layout_for_type_is_valid};
use vstd::arithmetic::div_mod::{lemma_fundamental_div_mod, lemma_mod_multiples_basic};

verus! {

/// The error returned when a size and alignment do not form a valid [`Layout`].
#[derive(Clone, Copy, Debug, PartialEq, Eq, Structural)]
pub struct LayoutError;

/// The size and alignment of a block of memory.
///
/// The alignment is a power of two, and the size rounded up to a multiple of the alignment does
/// not exceed `isize::MAX`.
#[derive(Clone, Copy, Debug, PartialEq, Eq, Structural)]
pub struct Layout {
    size: usize,
    align: usize,
}

/// The number of bytes to skip from `addr` to reach a multiple of `align`.
pub open spec fn padding(addr: int, align: int) -> int {
    (align - addr % align) % align
}

/// The padding is below the alignment and reaches a multiple of it.
pub proof fn lemma_padding(addr: int, align: int)
    requires
        align > 0,
    ensures
        0 <= padding(addr, align) < align,
        (addr + padding(addr, align)) % align == 0,
        (addr + padding(addr, align) + align) % align == 0,
        addr % align == 0 ==> padding(addr, align) == 0,
{
    let r = addr % align;
    lemma_fundamental_div_mod(addr, align);
    let q = addr / align;
    if r == 0 {
        assert(padding(addr, align) == 0) by {
            lemma_mod_multiples_basic(1, align);
        }
        assert(addr == q * align) by (nonlinear_arith)
            requires
                addr == align * q + r,
                r == 0,
        ;
        lemma_mod_multiples_basic(q, align);
        lemma_mod_multiples_basic(q + 1, align);
        assert((q + 1) * align == q * align + align) by (nonlinear_arith);
    } else {
        assert(0 < align - r < align);
        assert(padding(addr, align) == align - r) by {
            vstd::arithmetic::div_mod::lemma_small_mod((align - r) as nat, align as nat);
        }
        assert(addr + (align - r) == (q + 1) * align) by (nonlinear_arith)
            requires
                addr == align * q + r,
        ;
        lemma_mod_multiples_basic(q + 1, align);
        lemma_mod_multiples_basic(q + 2, align);
        assert((q + 2) * align == (q + 1) * align + align) by (nonlinear_arith);
    }
}

/// Whether `a` is a power of two.
pub fn is_power_of_two(a: usize) -> (r: bool)
    ensures
        r == is_pow2(a as int),
{
    reveal(is_pow2);
    if a == 0 {
        return false;
    }
    let mut x: usize = a;
    while x > 1 && x % 2 == 0
        invariant
            x >= 1,
            is_pow2(x as int) == is_pow2(a as int),
        decreases x,
    {
        proof {
            reveal(is_pow2);
        }
        x = x / 2;
    }
    x == 1
}

impl Layout {
    #[verifier::type_invariant]
    spec fn inv(self) -> bool {
        valid_layout(self.size, self.align)
    }

    /// The size in bytes.
    pub closed spec fn spec_size(&self) -> usize {
        self.size
    }

    /// The alignment in bytes.
    pub closed spec fn spec_align(&self) -> usize {
        self.align
    }

    /// Layouts with the same size and alignment are the same layout.
    pub proof fn lemma_equal_parts(a: Layout, b: Layout)
        requires
            a.spec_size() == b.spec_size(),
            a.spec_align() == b.spec_align(),
        ensures
            a == b,
    {
    }

    /// The layout of a `T` has the size and alignment of a `T`.
    pub proof fn lemma_spec_new<T>()
        ensures
            Layout::spec_new::<T>().spec_size() == size_of::<T>() as usize,
            Layout::spec_new::<T>().spec_align() == align_of::<T>() as usize,
    {
    }

    /// The size in bytes.
    #[verifier::when_used_as_spec(spec_size)]
    pub fn size(&self) -> (r: usize)
        ensures
            r == self.spec_size(),
            r <= isize::MAX,
    {
        proof {
            use_type_invariant(self);
            reveal(is_pow2);
        }
        self.size
    }

    /// The alignment in bytes, a power of two.
    #[verifier::when_used_as_spec(spec_align)]
    pub fn align(&self) -> (r: usize)
        ensures
            r == self.spec_align(),
            is_pow2(r as int),
            r >= 1,
    {
        proof {
            use_type_invariant(self);
            reveal(is_pow2);
        }
        self.align
    }

    /// The layout of `size` bytes aligned to `align`, if `align` is a power of two and `size`
    /// rounded up to a multiple of `align` does not exceed `isize::MAX`.
    pub fn from_size_align(size: usize, align: usize) -> (r: Result<Layout, LayoutError>)
        ensures
            r is Ok <==> valid_layout(size, align),
            r matches Ok(l) ==> l.spec_size() == size && l.spec_align() == align,
    {
        if !is_power_of_two(align) {
            return Err(LayoutError);
        }
        proof {
            reveal(is_pow2);
        }
        let max: usize = isize::MAX as usize;
        proof {
            let q = max as int / align as int;
            vstd::arithmetic::div_mod::lemma_fundamental_div_mod(max as int, align as int);
            assert(align * q >= 0) by (nonlinear_arith)
                requires
                    align > 0,
                    q >= 0,
            ;
        }
        if size > max - max % align {
            return Err(LayoutError);
        }
        Ok(Layout { size, align })
    }

    /// The layout of a value of type `T`.
    pub closed spec fn spec_new<T>() -> Layout {
        Layout { size: size_of::<T>() as usize, align: align_of::<T>() as usize }
    }

    /// The layout of a value of type `T`.
    pub fn new<T>() -> (r: Layout)
        ensures
            r.spec_size() == size_of::<T>(),
            r.spec_align() == align_of::<T>(),
            r == Layout::spec_new::<T>(),
    {
        layout_for_type_is_valid::<T>();
        Layout { size: core::mem::size_of::<T>(), align: core::mem::align_of::<T>() }
    }

    /// The layout of `n` consecutive values of type `T`, if it is valid.
    pub fn array<T>(n: usize) -> (r: Result<Layout, LayoutError>)
        ensures
            r is Ok <==> size_of::<T>() * n <= usize::MAX && valid_layout(
                (size_of::<T>() * n) as usize,
                align_of::<T>() as usize,
            ),
            r matches Ok(l) ==> l.spec_size() == size_of::<T>() * n && l.spec_align()
                == align_of::<T>(),
    {
        layout_for_type_is_valid::<T>();
        let size = core::mem::size_of::<T>();
        let total = match size.checked_mul(n) {
            Some(t) => t,
            None => {
                return Err(LayoutError);
            },
        };
        Layout::from_size_align(total, core::mem::align_of::<T>())
    }

    /// This layout with its alignment raised to at least `align`, if that is a valid layout.
    pub fn align_to(&self, align: usize) -> (r: Result<Layout, LayoutError>)
        ensures
            ({
                let a = if align > self.spec_align() {
                    align
                } else {
                    self.spec_align()
                };
                &&& r is Ok <==> valid_layout(self.spec_size(), a)
                &&& r matches Ok(l) ==> l.spec_size() == self.spec_size() && l.spec_align() == a
            }),
    {
        let a = if align > self.align {
            align
        } else {
            self.align
        };
        Layout::from_size_align(self.size, a)
    }
}

} // verus!
