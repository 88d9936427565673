//! Allocation requests: a (size, alignment) pair and the padding
//! arithmetic that normalizes one before an allocator serves it.

use vstd::prelude::*;

verus! {

use vstd::arithmetic::div_mod::{lemma_fundamental_div_mod, lemma_mod_bound,
    lemma_mod_multiples_basic};

/// The single recoverable failure an allocator reports: the arena
/// cannot satisfy the request.
#[derive(Clone, Copy, Debug, PartialEq, Eq, Structural)]
pub enum AllocError {
    OutOfMemory,
}

/// Whether `n` is a power of two.
pub open spec fn is_pow2(n: int) -> bool
    decreases n,
{
    if n <= 0 {
        false
    } else if n == 1 {
        true
    } else {
        n % 2 == 0 && is_pow2(n / 2)
    }
}

/// `size` rounded up to the next multiple of `align`.
pub open spec fn pad_up(size: int, align: int) -> int
    recommends
        0 < align,
{
    if size % align == 0 {
        size
    } else {
        size + align - size % align
    }
}

/// Rounding up to a multiple of a positive `align` moves `size` up by
/// less than `align` and lands on a multiple of `align`.
pub proof fn lemma_pad_up_properties(size: int, align: int)
    requires
        0 <= size,
        0 < align,
    ensures
        size <= pad_up(size, align),
        pad_up(size, align) <= size + align - 1,
        pad_up(size, align) % align == 0,
{
    let r = size % align;
    lemma_mod_bound(size, align);
    if r != 0 {
        lemma_fundamental_div_mod(size, align);
        assert(size - r == align * (size / align));
        assert(pad_up(size, align) == align * (size / align + 1)) by {
            assert(align * (size / align + 1) == align * (size / align) + align)
                by (nonlinear_arith);
        }
        lemma_mod_multiples_basic(size / align + 1, align);
        assert((align * (size / align + 1)) % align == 0) by {
            assert(align * (size / align + 1) == (size / align + 1) * align)
                by (nonlinear_arith);
        }
    }
}

/// A multiple of `b` is a multiple of `a` whenever `b` is a multiple
/// of `a`.
pub proof fn lemma_mod_transfer(x: int, a: int, b: int)
    requires
        0 < a,
        0 < b,
        b % a == 0,
        x % b == 0,
    ensures
        x % a == 0,
{
    lemma_fundamental_div_mod(x, b);
    lemma_fundamental_div_mod(b, a);
    assert(x == b * (x / b));
    assert(b == a * (b / a));
    assert(x == a * ((b / a) * (x / b))) by (nonlinear_arith)
        requires
            x == b * (x / b),
            b == a * (b / a),
    ;
    lemma_mod_multiples_basic((b / a) * (x / b), a);
    assert(x == ((b / a) * (x / b)) * a) by (nonlinear_arith)
        requires
            x == a * ((b / a) * (x / b)),
    ;
}

/// The sum of two multiples of `m` is a multiple of `m`.
pub proof fn lemma_mod_add_zero(a: int, b: int, m: int)
    requires
        0 < m,
        a % m == 0,
        b % m == 0,
    ensures
        (a + b) % m == 0,
{
    lemma_fundamental_div_mod(a, m);
    lemma_fundamental_div_mod(b, m);
    assert(a + b == m * (a / m + b / m)) by (nonlinear_arith)
        requires
            a == m * (a / m),
            b == m * (b / m),
    ;
    lemma_mod_multiples_basic(a / m + b / m, m);
    assert(a + b == (a / m + b / m) * m) by (nonlinear_arith)
        requires
            a + b == m * (a / m + b / m),
    ;
}

/// A power of two that is at least `m` (itself a positive power of two)
/// is a multiple of `m`.
pub proof fn lemma_pow2_multiple(n: int, m: int)
    requires
        is_pow2(n),
        is_pow2(m),
        m <= n,
    ensures
        n % m == 0,
    decreases n,
{
    if n == m {
        lemma_mod_multiples_basic(1, m);
        assert(n == 1 * m) by (nonlinear_arith)
            requires
                n == m,
        ;
    } else {
        assert(n > 1) by {
            if n == 1 {
                assert(m >= 1);
            }
        }
        lemma_pow2_double_bound(m, n);
        lemma_pow2_multiple(n / 2, m);
        assert(n % (n / 2) == 0) by {
            lemma_fundamental_div_mod(n, 2);
            lemma_mod_multiples_basic(2, n / 2);
            assert(n == 2 * (n / 2));
        }
        lemma_mod_transfer(n, m, n / 2);
    }
}

/// Two distinct powers of two differ by at least a factor of two: if
/// `m < n` then `m <= n / 2`.
proof fn lemma_pow2_double_bound(m: int, n: int)
    requires
        is_pow2(m),
        is_pow2(n),
        m < n,
    ensures
        m <= n / 2,
    decreases n,
{
    assert(n > 1);
    assert(n % 2 == 0);
    lemma_fundamental_div_mod(n, 2);
    if m == 1 {
        assert(n / 2 >= 1);
    } else {
        lemma_fundamental_div_mod(m, 2);
        lemma_pow2_double_bound(m / 2, n / 2);
        lemma_fundamental_div_mod(n / 2, 2);
    }
}

/// An allocation request: `size` bytes at a multiple of `align`.
///
/// A well-formed layout has a power-of-two alignment and a size that
/// still fits in `usize` once rounded up to that alignment.
#[derive(Clone, Copy, Debug)]
pub struct Layout {
    pub size: usize,
    pub align: usize,
}

impl Layout {
    /// Validity of the request: power-of-two alignment, padded size
    /// representable.
    pub open spec fn wf(self) -> bool {
        is_pow2(self.align as int) && pad_up(self.size as int, self.align as int) <= usize::MAX
    }

    /// Builds a layout, or `None` when the alignment is not a power of
    /// two or the size would overflow once padded to the alignment.
    pub fn from_size_align(size: usize, align: usize) -> (r: Option<Layout>)
        ensures
            r is Some <==> is_pow2(align as int) && pad_up(size as int, align as int)
                <= usize::MAX,
            r matches Some(l) ==> l.size == size && l.align == align && l.wf(),
    {
        if !is_power_of_two(align) {
            return None;
        }
        proof {
            lemma_mod_bound(size as int, align as int);
        }
        let rem = size % align;
        if rem == 0 || size <= usize::MAX - (align - rem) {
            Some(Layout { size, align })
        } else {
            None
        }
    }

    /// The requested size in bytes.
    pub fn size(&self) -> (r: usize)
        ensures
            r == self.size,
    {
        self.size
    }

    /// The requested alignment in bytes.
    pub fn align(&self) -> (r: usize)
        ensures
            r == self.align,
    {
        self.align
    }

    /// The layout with its size rounded up to a multiple of its
    /// alignment.
    pub fn pad_to_align(&self) -> (r: Layout)
        requires
            self.wf(),
        ensures
            r.size == pad_up(self.size as int, self.align as int),
            r.align == self.align,
            r.wf(),
    {
        proof {
            lemma_mod_bound(self.size as int, self.align as int);
            lemma_pad_up_properties(self.size as int, self.align as int);
        }
        let rem = self.size % self.align;
        let padded = if rem == 0 {
            self.size
        } else {
            self.size + (self.align - rem)
        };
        proof {
            lemma_pad_up_properties(padded as int, self.align as int);
        }
        Layout { size: padded, align: self.align }
    }
}

/// Runtime check matching the `is_pow2` specification.
pub fn is_power_of_two(n: usize) -> (r: bool)
    ensures
        r == is_pow2(n as int),
{
    if n == 0 {
        return false;
    }
    let mut m: usize = n;
    while m > 1 && m % 2 == 0
        invariant
            1 <= m <= n,
            is_pow2(n as int) == is_pow2(m as int),
        decreases m,
    {
        m = m / 2;
    }
    m == 1
}

} // verus!
