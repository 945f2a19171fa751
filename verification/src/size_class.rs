use vstd::prelude::*;

verus! {

/// Number of block-size classes.
pub const NUM_CLASSES: usize = 4;

/// Number of blocks carved from the region each time a class runs dry.
pub const BLOCKS_PER_REFILL: usize = 10;

/// Block size, in bytes, of class `k`: 16, 32, 64 and 128.
pub open spec fn class_size(k: int) -> int {
    if k == 0 {
        16
    } else if k == 1 {
        32
    } else if k == 2 {
        64
    } else {
        128
    }
}

/// Block size, in bytes, of class `k`.
pub fn slab_size(k: usize) -> (s: usize)
    requires
        k < NUM_CLASSES,
    ensures
        s == class_size(k as int),
{
    if k == 0 {
        16
    } else if k == 1 {
        32
    } else if k == 2 {
        64
    } else {
        128
    }
}

/// Size in bytes of the header a free block holds: one machine word,
/// the address of the next free block.
pub open spec fn word_size() -> int {
    vstd::layout::size_of::<usize>() as int
}

/// Alignment in bytes of that header.
pub open spec fn word_align() -> int {
    vstd::layout::align_of::<usize>() as int
}

/// The smallest block able to serve a request of `size` bytes: a free
/// block must at least hold its header.
pub open spec fn required_size(size: int) -> int {
    if size > word_size() {
        size
    } else {
        word_size()
    }
}

/// Class `k` can serve a request of `size` bytes aligned to `align`.
pub open spec fn class_fits(k: int, size: int, align: int) -> bool {
    class_size(k) >= required_size(size) && align <= class_size(k)
}

/// The class that serves a request: the first (smallest) class that fits,
/// or none when the request exceeds the largest class.
pub open spec fn slab_class(size: int, align: int) -> Option<int> {
    if class_fits(0, size, align) {
        Some(0)
    } else if class_fits(1, size, align) {
        Some(1)
    } else if class_fits(2, size, align) {
        Some(2)
    } else if class_fits(3, size, align) {
        Some(3)
    } else {
        None
    }
}

/// `x` rounded up to the next multiple of `a`.
pub open spec fn align_up(x: int, a: int) -> int {
    ((x + a - 1) / a) * a
}

/// The machine word is 4 or 8 bytes long.
pub proof fn lemma_word_size()
    ensures
        word_size() == 4 || word_size() == 8,
{
    broadcast use vstd::layout::layout_of_primitives;

    assert(vstd::layout::size_of::<usize>() * 8 == usize::BITS);
}

/// The alignment a machine word needs: 1, 2, 4 or 8, since it divides the
/// word's size.
pub open spec fn word_align_is_small() -> bool {
    word_align() == 1 || word_align() == 2 || word_align() == 4 || word_align() == 8
}

/// The word alignment is 1, 2, 4 or 8: it is positive and divides the
/// word's size, 4 or 8.
pub proof fn lemma_word_align_is_small()
    ensures
        word_align_is_small(),
{
    broadcast use vstd::layout::align_properties, vstd::layout::align_nonzero;

    lemma_word_size();
    let w = word_size();
    let al = word_align();
    assert(w % al == 0);
    assert(al > 0);
    if al > w {
        vstd::arithmetic::div_mod::lemma_small_mod(w as nat, al as nat);
    }
    assert(1 <= al <= 8);
    assert(al == 1 || al == 2 || al == 4 || al == 8) by {
        if al == 3 || al == 5 || al == 6 || al == 7 {
            assert(4int % 3 != 0 && 8int % 3 != 0 && 4int % 5 != 0 && 8int % 5 != 0);
            assert(4int % 6 != 0 && 8int % 6 != 0 && 4int % 7 != 0 && 8int % 7 != 0);
        }
    }
}

/// Size of a machine word, in bytes.
pub fn word_size_exec() -> (w: usize)
    ensures
        w == word_size(),
        w == 4 || w == 8,
{
    proof {
        lemma_word_size();
    }
    core::mem::size_of::<usize>()
}

/// Alignment of a machine word, in bytes.
pub fn word_align_exec() -> (a: usize)
    ensures
        a == word_align(),
        word_align_is_small(),
{
    proof {
        lemma_word_align_is_small();
    }
    core::mem::align_of::<usize>()
}

/// `x` rounded up to a multiple of `a`, computed with a mask.
pub fn align_address(x: usize, a: usize) -> (r: usize)
    requires
        a == 1 || a == 2 || a == 4 || a == 8,
        x + a <= usize::MAX,
    ensures
        r == align_up(x as int, a as int),
        x <= r < x + a,
{
    let y = x + a - 1;
    let r = y & !(a - 1);
    proof {
        if a == 1 {
            assert(y & !0usize == y) by (bit_vector);
        } else if a == 2 {
            assert(y & !1usize == y - y % 2) by (bit_vector);
        } else if a == 4 {
            assert(y & !3usize == y - y % 4) by (bit_vector);
        } else {
            assert(y & !7usize == y - y % 8) by (bit_vector);
        }
    }
    r
}

/// Rounding up to the word alignment lies between `x` and `x + a`, and
/// gives a multiple of `a`.
pub proof fn lemma_align_up_bounds(x: int, a: int)
    requires
        a == 1 || a == 2 || a == 4 || a == 8,
    ensures
        x <= align_up(x, a) < x + a,
        align_up(x, a) % a == 0,
{
    if a == 1 {
        assert(x <= align_up(x, 1) < x + 1 && align_up(x, 1) % 1 == 0);
    } else if a == 2 {
        assert(x <= align_up(x, 2) < x + 2 && align_up(x, 2) % 2 == 0);
    } else if a == 4 {
        assert(x <= align_up(x, 4) < x + 4 && align_up(x, 4) % 4 == 0);
    } else {
        assert(x <= align_up(x, 8) < x + 8 && align_up(x, 8) % 8 == 0);
    }
}

/// Moving `x` by a multiple of 16 moves its rounded-up value by as much.
pub proof fn lemma_align_up_shift(x: int, m: int, a: int)
    requires
        a == 1 || a == 2 || a == 4 || a == 8,
        m % 16 == 0,
    ensures
        align_up(x + m, a) == align_up(x, a) + m,
{
    let t = m / 16;
    assert(m == 16 * t);
    let q = (x + a - 1) / a;
    let r = (x + a - 1) % a;
    assert(x + a - 1 == q * a + r && 0 <= r < a) by (nonlinear_arith)
        requires
            a > 0,
            q == (x + a - 1) / a,
            r == (x + a - 1) % a,
    ;
    let f = 16int / a;
    assert(16 == f * a) by {
        if a == 1 {
        } else if a == 2 {
        } else if a == 4 {
        } else {
        }
    }
    assert(x + m + a - 1 == (q + f * t) * a + r) by (nonlinear_arith)
        requires
            x + a - 1 == q * a + r,
            m == 16 * t,
            16 == f * a,
    ;
    vstd::arithmetic::div_mod::lemma_fundamental_div_mod_converse(
        x + m + a - 1,
        a,
        q + f * t,
        r,
    );
    assert(align_up(x + m, a) == (q + f * t) * a);
    assert((q + f * t) * a == q * a + m) by (nonlinear_arith)
        requires
            m == 16 * t,
            16 == f * a,
    ;
}

/// A multiple of 16 is a multiple of the word alignment.
pub proof fn lemma_multiple_of_16(m: int, a: int)
    requires
        a == 1 || a == 2 || a == 4 || a == 8,
        m % 16 == 0,
    ensures
        m % a == 0,
{
    if a == 1 {
        assert(m % 1 == 0);
    } else if a == 2 {
        assert(m % 2 == 0);
    } else if a == 4 {
        assert(m % 4 == 0);
    } else {
        assert(m % 8 == 0);
    }
}

/// The sum of two multiples of the word alignment is one too.
pub proof fn lemma_sum_of_multiples(x: int, m: int, a: int)
    requires
        a == 1 || a == 2 || a == 4 || a == 8,
        x % a == 0,
        m % a == 0,
    ensures
        (x + m) % a == 0,
{
    if a == 1 {
        assert((x + m) % 1 == 0);
    } else if a == 2 {
        assert((x + m) % 2 == 0);
    } else if a == 4 {
        assert((x + m) % 4 == 0);
    } else {
        assert((x + m) % 8 == 0);
    }
}

/// A multiple of the word alignment is a multiple of every alignment that
/// divides it.
pub proof fn lemma_multiple_of_divisor(b: int, a: int, al: int)
    requires
        a == 1 || a == 2 || a == 4 || a == 8,
        al > 0,
        a % al == 0,
        b % a == 0,
    ensures
        b % al == 0,
{
    if al > a {
        vstd::arithmetic::div_mod::lemma_small_mod(a as nat, al as nat);
    }
    assert(al == 1 || al == 2 || al == 4 || al == 8) by {
        if al == 3 || al == 5 || al == 6 || al == 7 {
            assert(1int % 3 != 0 && 2int % 3 != 0 && 4int % 3 != 0 && 8int % 3 != 0);
            assert(4int % 5 != 0 && 8int % 5 != 0 && 4int % 6 != 0 && 8int % 6 != 0);
            assert(4int % 7 != 0 && 8int % 7 != 0 && 2int % 5 != 0 && 2int % 6 != 0);
            assert(2int % 7 != 0 && 1int % 5 != 0 && 1int % 6 != 0 && 1int % 7 != 0);
        }
    }
    if a == 8 {
        if al == 4 {
            assert(b % 4 == 0);
        } else if al == 2 {
            assert(b % 2 == 0);
        }
    } else if a == 4 {
        if al == 2 {
            assert(b % 2 == 0);
        }
    }
}

} // verus!
