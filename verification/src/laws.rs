use vstd::prelude::*;

use crate::size_class::{
    align_up, class_size, lemma_align_up_bounds, lemma_align_up_shift,
    lemma_multiple_of_16, lemma_multiple_of_divisor, lemma_sum_of_multiples,
    lemma_word_align_is_small, lemma_word_size, slab_class, word_align, word_align_is_small,
    word_size, BLOCKS_PER_REFILL, NUM_CLASSES,
};
use crate::slab::SlabModel;

verus! {

/// Giving a block back and then asking again for the same size and
/// alignment hands the same block out again and leaves the allocator as it
/// was before the block was given back.
pub proof fn lemma_dealloc_then_allocate_reuses(s: SlabModel, ptr: usize, size: int, align: int)
    requires
        s.wf(),
        align > 0,
        slab_class(size, align) is Some,
        ptr as int % align == 0,
    ensures
        s.dealloc_step(ptr, size, align).alloc_step(size, align) == (s, Some(ptr)),
{
    let k = slab_class(size, align)->0;
    let d = s.dealloc_step(ptr, size, align);
    assert(d.free_lists[k] == s.free_lists[k].push(ptr));
    assert(d.free_lists[k].last() == ptr);
    assert(d.free_lists[k].drop_last() =~= s.free_lists[k]);
    assert(d.popped(k).free_lists =~= s.free_lists);
}

/// Taking a block from a class that has free blocks and giving it straight
/// back leaves the allocator as it was.
pub proof fn lemma_allocate_then_dealloc_restores(s: SlabModel, size: int, align: int)
    requires
        s.wf(),
        align > 0,
        slab_class(size, align) matches Some(k) && s.free_count(k) > 0,
        s.alloc_step(size, align).1 is Some,
    ensures
        s.alloc_step(size, align).0.dealloc_step(s.alloc_step(size, align).1->0, size, align)
            == s,
{
    let k = slab_class(size, align)->0;
    let (a, r) = s.alloc_step(size, align);
    let b = r->0;
    assert(a == s.popped(k));
    assert(b == s.free_lists[k].last());
    assert(s.free_lists[k].drop_last().push(b) =~= s.free_lists[k]);
    assert(a.dealloc_step(b, size, align).free_lists =~= s.free_lists);
}

/// A block handed out for alignment `align` starts at a multiple of
/// `align`.
pub proof fn lemma_allocation_is_aligned(s: SlabModel, size: int, align: int)
    requires
        s.wf(),
        align > 0,
    ensures
        s.alloc_step(size, align).1 matches Some(p) ==> p as int % align == 0,
{
}

/// A request goes to the smallest class whose blocks hold both the request
/// and a free-block header and are at least as large as the alignment; no
/// class serves a request larger than 128 bytes or aligned to more than
/// 128 bytes.
pub proof fn lemma_class_is_smallest_fit(size: int, align: int)
    ensures
        slab_class(size, align) matches Some(k) ==> {
            &&& 0 <= k < NUM_CLASSES
            &&& class_size(k) >= size
            &&& class_size(k) >= word_size()
            &&& class_size(k) >= align
            &&& forall|j: int| 0 <= j < k ==> class_size(j) < size || class_size(j) < align
        },
        slab_class(size, align) is None <==> (size > 128 || align > 128),
        class_size(0) == 16 && class_size(1) == 32 && class_size(2) == 64 && class_size(3) == 128,
{
    lemma_word_size();
}

/// Where the `i`-th block of a refill of class `k` lies.
proof fn lemma_fresh_block_at(s: SlabModel, k: int, i: int)
    requires
        s.wf(),
        0 <= k < NUM_CLASSES,
        s.can_refill(k),
        0 <= i < BLOCKS_PER_REFILL,
        align_up(s.used_end(), word_align()) == s.carve_end(),
        word_align_is_small(),
        s.carve_base() % word_align() == 0,
        s.used_bytes() % 16 == 0,
    ensures
        s.fresh_block(k, i) == s.carve_end() + i * class_size(k),
        s.carve_end() <= s.fresh_block(k, i),
        s.fresh_block(k, i) + class_size(k) <= s.carve_end() + BLOCKS_PER_REFILL * class_size(k),
        s.fresh_block(k, i) as int % word_align() == 0,
{
    let a = word_align();
    let c = class_size(k);
    let m = s.used_bytes() + i * c;
    assert((i * c) % 16 == 0 && 0 <= i * c && i * c + c <= 10 * c) by (nonlinear_arith)
        requires
            c == 16 || c == 32 || c == 64 || c == 128,
            0 <= i <= 9,
    ;
    lemma_align_up_shift(s.start, m, a);
    lemma_multiple_of_16(m, a);
    assert(s.start + m == s.used_end() + i * c);
    lemma_sum_of_multiples(s.carve_base(), m, a);
}

/// The ten blocks a refill carves lie side by side from the end of the
/// carved part, do not overlap, start at multiples of the word alignment,
/// and end within the region.
pub proof fn lemma_refill_blocks_in_unused_region(s: SlabModel, k: int)
    requires
        s.wf(),
        0 <= k < NUM_CLASSES,
        s.can_refill(k),
    ensures
        forall|i: int|
            0 <= i < BLOCKS_PER_REFILL ==> #[trigger] s.fresh_block(k, i) == s.carve_end() + i
                * class_size(k),
        forall|i: int|
            0 <= i < BLOCKS_PER_REFILL ==> s.carve_end() <= #[trigger] s.fresh_block(k, i)
                && s.fresh_block(k, i) + class_size(k) <= s.refilled(k).carve_end()
                && s.fresh_block(k, i) as int % word_align() == 0,
        forall|i: int, j: int|
            0 <= i < j < BLOCKS_PER_REFILL ==> #[trigger] s.fresh_block(k, i) + class_size(k)
                <= #[trigger] s.fresh_block(k, j),
        s.refilled(k).carve_end() == s.carve_end() + BLOCKS_PER_REFILL * class_size(k),
        s.refilled(k).carve_end() <= s.end,
{
    lemma_word_align_is_small();
    let a = word_align();
    let c = class_size(k);
    s.lemma_used_bytes_multiple_of_16();
    lemma_align_up_shift(s.start, s.used_bytes(), a);
    lemma_align_up_bounds(s.start, a);
    assert(align_up(s.used_end(), a) == s.carve_end());
    assert(s.refilled(k).used_bytes() == s.used_bytes() + BLOCKS_PER_REFILL * c);
    assert forall|i: int| 0 <= i < BLOCKS_PER_REFILL implies #[trigger] s.fresh_block(k, i)
        == s.carve_end() + i * c && s.carve_end() <= s.fresh_block(k, i) && s.fresh_block(k, i)
        + c <= s.refilled(k).carve_end() && s.fresh_block(k, i) as int % a == 0 by {
        lemma_fresh_block_at(s, k, i);
    }
    assert forall|i: int, j: int| 0 <= i < j < BLOCKS_PER_REFILL implies #[trigger] s.fresh_block(
        k,
        i,
    ) + class_size(k) <= #[trigger] s.fresh_block(k, j) by {
        lemma_fresh_block_at(s, k, i);
        lemma_fresh_block_at(s, k, j);
        assert(i * c + c <= j * c) by (nonlinear_arith)
            requires
                i + 1 <= j,
                c > 0,
        ;
    }
}

/// No operation moves the region, and only `init` gives carved bytes back:
/// allocations and deallocations keep the allocator well formed and never
/// shrink the carved part, so two refills never carve the same bytes.
pub proof fn lemma_operations_keep_region(s: SlabModel, ptr: usize, size: int, align: int)
    requires
        s.wf(),
        align > 0,
    ensures
        s.alloc_step(size, align).0.wf(),
        s.alloc_step(size, align).0.start == s.start,
        s.alloc_step(size, align).0.end == s.end,
        s.alloc_step(size, align).0.used_end() >= s.used_end(),
        s.dealloc_step(ptr, size, align).wf(),
        s.dealloc_step(ptr, size, align).start == s.start,
        s.dealloc_step(ptr, size, align).end == s.end,
        s.dealloc_step(ptr, size, align).used_end() == s.used_end(),
        s.reset().wf(),
        s.reset().used_end() == s.start,
{
    lemma_word_align_is_small();
    lemma_align_up_bounds(s.start, word_align());
    s.lemma_used_bytes_multiple_of_16();
    assert(s.reset().used_bytes() == 0);
    match slab_class(size, align) {
        Some(k) => {
            assert(s.pushed(k, ptr).used_bytes() == s.used_bytes());
            assert(s.popped(k).used_bytes() == s.used_bytes());
            if s.free_count(k) == 0 && s.can_refill(k) {
                lemma_refill_blocks_in_unused_region(s, k);
                let r = s.refilled(k);
                assert(r.used_end() == s.used_end() + BLOCKS_PER_REFILL * class_size(k));
                assert(r.popped(k).used_bytes() == r.used_bytes());
            }
        },
        None => {},
    }
}

/// State and results after `n` allocations in a row of `size` bytes
/// aligned to `align`.
pub open spec fn allocate_times(s: SlabModel, size: int, align: int, n: nat) -> (
    SlabModel,
    Seq<Option<usize>>,
)
    decreases n,
{
    if n == 0 {
        (s, Seq::empty())
    } else {
        let (t, rs) = allocate_times(s, size, align, (n - 1) as nat);
        let (u, r) = t.alloc_step(size, align);
        (u, rs.push(r))
    }
}

/// A request to an empty class, when the region has room, carves ten
/// blocks from the end of the carved part; the next ten requests of that
/// class, with no block given back in between and an alignment that divides
/// the word alignment, get them from the highest address down.
pub proof fn lemma_refill_hands_out_in_order(s: SlabModel, size: int, align: int, n: nat)
    requires
        s.wf(),
        slab_class(size, align) matches Some(k) && s.free_count(k) == 0 && s.can_refill(k),
        align > 0,
        word_align() % align == 0,
        n <= BLOCKS_PER_REFILL,
    ensures
        ({
            let k = slab_class(size, align)->0;
            &&& allocate_times(s, size, align, n).1 == Seq::new(
                n,
                |i: int| Some((s.carve_end() + (9 - i) * class_size(k)) as usize),
            )
            &&& n > 0 ==> allocate_times(s, size, align, n).0 == (SlabModel {
                free_lists: s.free_lists.update(
                    k,
                    s.fresh_blocks(k).take(BLOCKS_PER_REFILL - n),
                ),
                ..s.refilled(k)
            })
        }),
    decreases n,
{
    let k = slab_class(size, align)->0;
    lemma_word_align_is_small();
    lemma_refill_blocks_in_unused_region(s, k);
    if n > 0 {
        lemma_refill_hands_out_in_order(s, size, align, (n - 1) as nat);
        let (t, rs) = allocate_times(s, size, align, (n - 1) as nat);
        let i = n - 1;
        let b = s.fresh_block(k, 9 - i);
        lemma_multiple_of_divisor(b as int, word_align(), align);
        let want = SlabModel {
            free_lists: s.free_lists.update(k, s.fresh_blocks(k).take(BLOCKS_PER_REFILL - n)),
            ..s.refilled(k)
        };
        if n == 1 {
            assert(t == s);
            let r = s.refilled(k);
            assert(r.free_lists[k] =~= s.fresh_blocks(k));
            assert(r.free_lists[k].last() == b);
            assert(r.popped(k).free_lists =~= want.free_lists);
        } else {
            assert(t.free_lists[k] == s.fresh_blocks(k).take(BLOCKS_PER_REFILL - i));
            assert(t.free_count(k) > 0);
            assert(t.free_lists[k].last() == b);
            assert(t.free_lists[k].drop_last() =~= s.fresh_blocks(k).take(BLOCKS_PER_REFILL - n));
            assert(t.popped(k).free_lists =~= want.free_lists);
        }
        assert(allocate_times(s, size, align, n).1 =~= Seq::new(
            n,
            |i: int| Some((s.carve_end() + (9 - i) * class_size(k)) as usize),
        ));
    } else {
        assert(allocate_times(s, size, align, n).1 =~= Seq::new(
            n,
            |i: int| Some((s.carve_end() + (9 - i) * class_size(k)) as usize),
        ));
    }
}

/// A request whose class's head, when there is one, meets its alignment,
/// and whose alignment divides the word alignment, fails exactly when no
/// class serves it, or its class has no free block and the region has no
/// room for ten more.
pub proof fn lemma_allocate_fails_only_when_full(s: SlabModel, size: int, align: int)
    requires
        s.wf(),
        align > 0,
        word_align() % align == 0,
        slab_class(size, align) matches Some(k) ==> (s.free_count(k) > 0 ==> s.free_lists[k].last()
            as int % align == 0),
    ensures
        s.alloc_step(size, align).1 is None <==> match slab_class(size, align) {
            None => true,
            Some(k) => s.free_count(k) == 0 && !s.can_refill(k),
        },
{
    lemma_word_align_is_small();
    match slab_class(size, align) {
        None => {},
        Some(k) => {
            if s.free_count(k) == 0 && s.can_refill(k) {
                lemma_refill_blocks_in_unused_region(s, k);
                let t = s.refilled(k);
                assert(t.free_lists[k] =~= s.fresh_blocks(k));
                let b = t.free_lists[k].last();
                assert(b == s.fresh_block(k, 9));
                lemma_multiple_of_divisor(b as int, word_align(), align);
            }
        },
    }
}

/// A request that fails changes the allocator only by the refill it made:
/// when the class had no free block and the region no room, nothing
/// changes at all.
pub proof fn lemma_failed_allocate_changes_only_by_refill(s: SlabModel, size: int, align: int)
    requires
        s.wf(),
        s.alloc_step(size, align).1 is None,
    ensures
        s.alloc_step(size, align).0 == s || ({
            let k = slab_class(size, align)->0;
            &&& slab_class(size, align) is Some
            &&& s.free_count(k) == 0
            &&& s.can_refill(k)
            &&& s.alloc_step(size, align).0 == s.refilled(k)
        }),
        slab_class(size, align) matches Some(k) && s.free_count(k) == 0 && !s.can_refill(k)
            ==> s.alloc_step(size, align).0 == s,
{
}

/// After ten blocks of class `k` are carved and pushed on its list, the
/// next ten requests of that class, with no block given back in between and
/// an alignment that divides the word alignment, get them from the highest
/// address down; each spans its class's size, and together they fill the
/// bytes from the old end of the carved part up to the new one, inside the
/// region.
pub proof fn lemma_refilled_blocks_handed_out_in_order(s: SlabModel, size: int, align: int, n: nat)
    requires
        s.wf(),
        slab_class(size, align) matches Some(k) && s.can_refill(k),
        align > 0,
        word_align() % align == 0,
        n <= BLOCKS_PER_REFILL,
    ensures
        ({
            let k = slab_class(size, align)->0;
            let t = s.refilled(k);
            &&& allocate_times(t, size, align, n).1 == Seq::new(
                n,
                |i: int| Some((s.carve_end() + (9 - i) * class_size(k)) as usize),
            )
            &&& allocate_times(t, size, align, n).0 == (SlabModel {
                free_lists: s.free_lists.update(
                    k,
                    s.free_lists[k] + s.fresh_blocks(k).take(BLOCKS_PER_REFILL - n),
                ),
                ..t
            })
            &&& t.carve_end() == s.carve_end() + BLOCKS_PER_REFILL * class_size(k)
            &&& t.carve_end() <= s.end
        }),
    decreases n,
{
    let k = slab_class(size, align)->0;
    let t = s.refilled(k);
    lemma_word_align_is_small();
    lemma_refill_blocks_in_unused_region(s, k);
    let old_k = s.free_lists[k];
    if n > 0 {
        lemma_refilled_blocks_handed_out_in_order(s, size, align, (n - 1) as nat);
        let (u, rs) = allocate_times(t, size, align, (n - 1) as nat);
        let i = n - 1;
        let b = s.fresh_block(k, 9 - i);
        lemma_multiple_of_divisor(b as int, word_align(), align);
        let lst = old_k + s.fresh_blocks(k).take(BLOCKS_PER_REFILL - i);
        assert(u.free_lists[k] == lst);
        assert(u.free_count(k) > 0);
        assert(lst.last() == b);
        assert(lst.drop_last() =~= old_k + s.fresh_blocks(k).take(BLOCKS_PER_REFILL - n));
        let want = SlabModel {
            free_lists: s.free_lists.update(
                k,
                old_k + s.fresh_blocks(k).take(BLOCKS_PER_REFILL - n),
            ),
            ..t
        };
        assert(u.popped(k).free_lists =~= want.free_lists);
        assert(allocate_times(t, size, align, n).1 =~= Seq::new(
            n,
            |i: int| Some((s.carve_end() + (9 - i) * class_size(k)) as usize),
        ));
    } else {
        assert(t.free_lists[k] =~= old_k + s.fresh_blocks(k).take(10));
        assert(allocate_times(t, size, align, n).0.free_lists =~= s.free_lists.update(
            k,
            old_k + s.fresh_blocks(k).take(10),
        ));
        assert(allocate_times(t, size, align, n).1 =~= Seq::new(
            n,
            |i: int| Some((s.carve_end() + (9 - i) * class_size(k)) as usize),
        ));
    }
}

/// An allocation whose class has no free block: when the unused part of
/// the region, from its first word-aligned address `b`, cannot hold ten
/// blocks of the class, it fails and changes nothing; otherwise ten blocks
/// are carved at `b`, `b + size`, ..., `b + 9 * size`, whatever the class
/// carved before, and the highest one is handed out when it meets the
/// requested alignment, whatever that alignment is; if it does not, the
/// request fails and the ten blocks stay free.
pub proof fn lemma_allocate_from_empty_class(s: SlabModel, size: int, align: int)
    requires
        s.wf(),
        align > 0,
        slab_class(size, align) is Some,
        s.free_lists[slab_class(size, align)->0].len() == 0,
    ensures
        ({
            let k = slab_class(size, align)->0;
            let c = class_size(k);
            let b = align_up(s.used_end(), word_align());
            let (t, r) = s.alloc_step(size, align);
            &&& b + BLOCKS_PER_REFILL * c > s.end ==> t == s && r is None
            &&& b + BLOCKS_PER_REFILL * c <= s.end ==> {
                &&& t.start == s.start
                &&& t.end == s.end
                &&& t.counts == s.counts.update(k, (s.counts[k] + BLOCKS_PER_REFILL) as usize)
                &&& t.free_lists.len() == NUM_CLASSES
                &&& forall|k2: int| 0 <= k2 < NUM_CLASSES && k2 != k ==> #[trigger] t.free_lists[k2]
                    == s.free_lists[k2]
                &&& (b + 9 * c) % align == 0 ==> r == Some((b + 9 * c) as usize) && t.free_lists[k]
                    == Seq::new(9, |i: int| (b + i * c) as usize)
                &&& (b + 9 * c) % align != 0 ==> r is None && t.free_lists[k] == Seq::new(
                    10,
                    |i: int| (b + i * c) as usize,
                )
            }
        }),
{
    let k = slab_class(size, align)->0;
    let c = class_size(k);
    lemma_word_align_is_small();
    let a = word_align();
    s.lemma_used_bytes_multiple_of_16();
    lemma_align_up_shift(s.start, s.used_bytes(), a);
    let b = align_up(s.used_end(), a);
    assert(b == s.carve_end());
    if s.can_refill(k) {
        lemma_refill_blocks_in_unused_region(s, k);
        let t = s.refilled(k);
        assert(t.free_lists[k] =~= s.fresh_blocks(k));
        assert(s.fresh_block(k, 9) == b + 9 * c);
        assert(t.free_lists[k].last() == s.fresh_block(k, 9));
        assert(s.fresh_blocks(k) =~= Seq::new(10, |i: int| (b + i * c) as usize));
        assert(s.fresh_blocks(k).drop_last() =~= Seq::new(9, |i: int| (b + i * c) as usize));
        assert(t.popped(k).free_lists[k] == s.fresh_blocks(k).drop_last());
    }
}

/// An allocation whose class has a free block: the block at the head of the
/// list is handed out and leaves the list when it meets the requested
/// alignment; otherwise the request fails and nothing changes. No block is
/// carved either way.
pub proof fn lemma_allocate_from_nonempty_class(s: SlabModel, size: int, align: int)
    requires
        s.wf(),
        align > 0,
        slab_class(size, align) is Some,
        s.free_lists[slab_class(size, align)->0].len() > 0,
    ensures
        ({
            let k = slab_class(size, align)->0;
            let h = s.free_lists[k][s.free_lists[k].len() - 1];
            let (t, r) = s.alloc_step(size, align);
            &&& h as int % align == 0 ==> r == Some(h) && t == (SlabModel {
                start: s.start,
                end: s.end,
                free_lists: s.free_lists.update(k, s.free_lists[k].subrange(0, s.free_lists[k].len() - 1)),
                counts: s.counts,
            })
            &&& h as int % align != 0 ==> r is None && t == s
        }),
{
    let k = slab_class(size, align)->0;
    assert(s.free_lists[k].drop_last() =~= s.free_lists[k].subrange(0, s.free_lists[k].len() - 1));
}

/// A request that no class serves, larger than 128 bytes or aligned to more
/// than 128 bytes, fails and changes nothing.
pub proof fn lemma_allocate_too_large(s: SlabModel, size: int, align: int)
    requires
        size > 128 || align > 128,
    ensures
        s.alloc_step(size, align) == (s, None::<usize>),
{
    lemma_class_is_smallest_fit(size, align);
}

/// Giving back a block puts its address on top of the free list of the
/// class its size and alignment select, and changes nothing else; for a
/// request no class serves, nothing changes.
pub proof fn lemma_dealloc_pushes_on_class_list(s: SlabModel, ptr: usize, size: int, align: int)
    ensures
        slab_class(size, align) matches Some(k) ==> s.dealloc_step(ptr, size, align) == (SlabModel {
            start: s.start,
            end: s.end,
            free_lists: s.free_lists.update(k, s.free_lists[k] + seq![ptr]),
            counts: s.counts,
        }),
        (size > 128 || align > 128) ==> s.dealloc_step(ptr, size, align) == s,
{
    lemma_class_is_smallest_fit(size, align);
    if let Some(k) = slab_class(size, align) {
        assert(s.free_lists[k].push(ptr) =~= s.free_lists[k] + seq![ptr]);
    }
}

/// A fresh allocator, and one after `init`, keeps its region, has no free
/// block and has carved nothing: its first refill starts at the region's
/// first word-aligned address.
pub proof fn lemma_fresh_and_reset_are_empty(s: SlabModel, start: int, end: int)
    ensures
        ({
            let e = SlabModel::empty(start, end);
            &&& e.start == start && e.end == end
            &&& e.free_lists.len() == NUM_CLASSES && e.counts.len() == NUM_CLASSES
            &&& forall|k: int| 0 <= k < NUM_CLASSES ==> #[trigger] e.free_lists[k].len() == 0
                && e.counts[k] == 0
            &&& e.used_end() == start
        }),
        s.reset() == SlabModel::empty(s.start, s.end),
{
}

} // verus!
