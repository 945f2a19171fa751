use vstd::prelude::*;

use crate::laws::{
    lemma_class_is_smallest_fit, lemma_operations_keep_region, lemma_refill_blocks_in_unused_region,
};
use crate::size_class::{
    class_size, lemma_align_up_bounds, lemma_word_align_is_small, slab_class, word_align,
    NUM_CLASSES,
};
use crate::slab::SlabModel;

verus! {

/// A block handed out and not given back yet, with the request it served.
pub struct LiveBlock {
    pub addr: usize,
    pub size: int,
    pub align: int,
}

impl LiveBlock {
    /// The class the block belongs to.
    pub open spec fn class(self) -> int {
        slab_class(self.size, self.align)->0
    }

    /// Bytes the block spans: the size of its class.
    pub open spec fn block_len(self) -> int {
        class_size(self.class())
    }

    /// The request is one a class serves, and the address meets its
    /// alignment.
    pub open spec fn well_requested(self) -> bool {
        &&& slab_class(self.size, self.align) is Some
        &&& self.align > 0
        &&& self.addr as int % self.align == 0
    }
}

/// The byte ranges `[a, a + la)` and `[b, b + lb)` do not overlap.
pub open spec fn apart(a: int, la: int, b: int, lb: int) -> bool {
    a + la <= b || b + lb <= a
}

/// `(k, i)` is a position in the free lists.
pub open spec fn is_slot(s: SlabModel, k: int, i: int) -> bool {
    0 <= k < NUM_CLASSES && 0 <= i < s.free_lists[k].len()
}

/// `[b, b + len)` lies in the carved part of the region.
pub open spec fn in_carved(s: SlabModel, b: int, len: int) -> bool {
    s.carve_base() <= b && b + len <= s.carve_end()
}

/// Every free block lies in the carved part and starts at a multiple of
/// the word alignment.
pub open spec fn free_blocks_placed(s: SlabModel) -> bool {
    forall|k: int, i: int|
        #![trigger s.free_lists[k][i]]
        is_slot(s, k, i) ==> in_carved(s, s.free_lists[k][i] as int, class_size(k))
            && s.free_lists[k][i] as int % word_align() == 0
}

/// Every block in use served a request some class serves, meets its
/// alignment, lies in the carved part and starts at a multiple of the word
/// alignment.
pub open spec fn live_blocks_placed(s: SlabModel, live: Seq<LiveBlock>) -> bool {
    forall|j: int|
        #![trigger live[j]]
        0 <= j < live.len() ==> live[j].well_requested() && in_carved(
            s,
            live[j].addr as int,
            live[j].block_len(),
        ) && live[j].addr as int % word_align() == 0
}

/// Free blocks at distinct positions do not overlap.
pub open spec fn free_blocks_apart(s: SlabModel) -> bool {
    forall|k1: int, i1: int, k2: int, i2: int|
        #![trigger s.free_lists[k1][i1], s.free_lists[k2][i2]]
        is_slot(s, k1, i1) && is_slot(s, k2, i2) && !(k1 == k2 && i1 == i2) ==> apart(
            s.free_lists[k1][i1] as int,
            class_size(k1),
            s.free_lists[k2][i2] as int,
            class_size(k2),
        )
}

/// No free block overlaps a block in use.
pub open spec fn free_live_apart(s: SlabModel, live: Seq<LiveBlock>) -> bool {
    forall|k: int, i: int, j: int|
        #![trigger s.free_lists[k][i], live[j]]
        is_slot(s, k, i) && 0 <= j < live.len() ==> apart(
            s.free_lists[k][i] as int,
            class_size(k),
            live[j].addr as int,
            live[j].block_len(),
        )
}

/// Blocks in use do not overlap one another.
pub open spec fn live_blocks_apart(live: Seq<LiveBlock>) -> bool {
    forall|j1: int, j2: int|
        #![trigger live[j1], live[j2]]
        0 <= j1 < live.len() && 0 <= j2 < live.len() && j1 != j2 ==> apart(
            live[j1].addr as int,
            live[j1].block_len(),
            live[j2].addr as int,
            live[j2].block_len(),
        )
}

/// The allocator in state `s`, with the blocks `live` in use, owns its
/// memory soundly: every block, free or in use, lies in the carved part of
/// the region, and no two of them overlap.
pub open spec fn ownership_inv(s: SlabModel, live: Seq<LiveBlock>) -> bool {
    &&& s.wf()
    &&& free_blocks_placed(s)
    &&& live_blocks_placed(s, live)
    &&& free_blocks_apart(s)
    &&& free_live_apart(s, live)
    &&& live_blocks_apart(live)
}

/// A fresh allocator, with no block in use, owns its memory soundly.
pub proof fn lemma_ownership_at_start(start: int, end: int)
    requires
        SlabModel::empty(start, end).wf(),
    ensures
        ownership_inv(SlabModel::empty(start, end), Seq::empty()),
{
}

/// After `init`, with no block in use, the allocator owns its memory
/// soundly again.
pub proof fn lemma_ownership_after_init(s: SlabModel)
    requires
        s.wf(),
    ensures
        ownership_inv(s.reset(), Seq::empty()),
{
    assert(s.reset().used_bytes() == 0);
}

/// Taking the head of a class's list, when it meets the request's
/// alignment, moves it from the free blocks to the blocks in use.
proof fn lemma_ownership_kept_by_pop(s: SlabModel, live: Seq<LiveBlock>, k: int, size: int, align: int)
    requires
        ownership_inv(s, live),
        slab_class(size, align) == Some(k),
        align > 0,
        s.free_count(k) > 0,
        s.free_lists[k].last() as int % align == 0,
    ensures
        ownership_inv(
            s.popped(k),
            live.push(LiveBlock { addr: s.free_lists[k].last(), size, align }),
        ),
{
    let t = s.popped(k);
    let n = s.free_lists[k].len() - 1;
    let b = s.free_lists[k][n];
    let nb = LiveBlock { addr: b, size, align };
    let l = live.push(nb);
    assert(t.used_bytes() == s.used_bytes());
    assert(nb.block_len() == class_size(k));
    assert(s.free_lists[k][n] == b);
    assert forall|k2: int, i2: int| #[trigger] is_slot(t, k2, i2) implies is_slot(s, k2, i2) && !(k2
        == k && i2 == n) && t.free_lists[k2][i2] == s.free_lists[k2][i2] by {}
    assert(free_blocks_placed(t)) by {
        assert forall|k2: int, i2: int| #[trigger] is_slot(t, k2, i2) implies in_carved(
            t,
            t.free_lists[k2][i2] as int,
            class_size(k2),
        ) && t.free_lists[k2][i2] as int % word_align() == 0 by {
            assert(is_slot(s, k2, i2));
            assert(t.free_lists[k2][i2] == s.free_lists[k2][i2]);
        }
    }
    assert(live_blocks_placed(t, l)) by {
        assert forall|j: int| 0 <= j < l.len() implies #[trigger] l[j].well_requested() && in_carved(
            t,
            l[j].addr as int,
            l[j].block_len(),
        ) && l[j].addr as int % word_align() == 0 by {
            if j < live.len() {
                assert(l[j] == live[j]);
            } else {
                assert(l[j] == nb);
                assert(is_slot(s, k, n));
            }
        }
    }
    assert(free_blocks_apart(t)) by {
        assert forall|k1: int, i1: int, k2: int, i2: int|
            is_slot(t, k1, i1) && is_slot(t, k2, i2) && !(k1 == k2 && i1 == i2) implies apart(
            #[trigger] t.free_lists[k1][i1] as int,
            class_size(k1),
            #[trigger] t.free_lists[k2][i2] as int,
            class_size(k2),
        ) by {
            assert(is_slot(s, k1, i1) && is_slot(s, k2, i2));
            assert(t.free_lists[k1][i1] == s.free_lists[k1][i1]);
            assert(t.free_lists[k2][i2] == s.free_lists[k2][i2]);
        }
    }
    assert(free_live_apart(t, l)) by {
        assert forall|k2: int, i2: int, j: int| is_slot(t, k2, i2) && 0 <= j < l.len() implies apart(
            #[trigger] t.free_lists[k2][i2] as int,
            class_size(k2),
            #[trigger] l[j].addr as int,
            l[j].block_len(),
        ) by {
            assert(is_slot(s, k2, i2));
            assert(t.free_lists[k2][i2] == s.free_lists[k2][i2]);
            if j < live.len() {
                assert(l[j] == live[j]);
            } else {
                assert(l[j] == nb);
                assert(is_slot(s, k, n));
                assert(apart(
                    s.free_lists[k2][i2] as int,
                    class_size(k2),
                    s.free_lists[k][n] as int,
                    class_size(k),
                ));
            }
        }
    }
    assert(live_blocks_apart(l)) by {
        assert forall|j1: int, j2: int|
            0 <= j1 < l.len() && 0 <= j2 < l.len() && j1 != j2 implies apart(
            #[trigger] l[j1].addr as int,
            l[j1].block_len(),
            #[trigger] l[j2].addr as int,
            l[j2].block_len(),
        ) by {
            assert(is_slot(s, k, n));
            if j1 < live.len() && j2 < live.len() {
                assert(l[j1] == live[j1] && l[j2] == live[j2]);
            } else if j1 < live.len() {
                assert(l[j1] == live[j1] && l[j2] == nb);
                assert(apart(
                    s.free_lists[k][n] as int,
                    class_size(k),
                    live[j1].addr as int,
                    live[j1].block_len(),
                ));
            } else {
                assert(l[j2] == live[j2] && l[j1] == nb);
                assert(apart(
                    s.free_lists[k][n] as int,
                    class_size(k),
                    live[j2].addr as int,
                    live[j2].block_len(),
                ));
            }
        }
    }
}

/// Carving ten blocks for an empty class adds them to the free blocks
/// without overlapping any block already owned.
proof fn lemma_ownership_kept_by_refill(s: SlabModel, live: Seq<LiveBlock>, k: int)
    requires
        ownership_inv(s, live),
        0 <= k < NUM_CLASSES,
        s.free_count(k) == 0,
        s.can_refill(k),
    ensures
        ownership_inv(s.refilled(k), live),
{
    let t = s.refilled(k);
    lemma_word_align_is_small();
    lemma_refill_blocks_in_unused_region(s, k);
    s.lemma_used_bytes_multiple_of_16();
    lemma_align_up_bounds(s.start, word_align());
    assert(t.carve_base() == s.carve_base());
    assert(s.carve_base() <= s.carve_end());
    assert(t.free_lists[k] =~= s.fresh_blocks(k));
    assert forall|k2: int, i2: int| #[trigger] is_slot(t, k2, i2) implies (k2 == k ==> 0 <= i2 < 10
        && t.free_lists[k2][i2] == s.fresh_block(k, i2)) && (k2 != k ==> is_slot(s, k2, i2)
        && t.free_lists[k2][i2] == s.free_lists[k2][i2]) by {}
    assert(t.wf());
    assert(free_blocks_placed(t)) by {
        assert forall|k2: int, i2: int| #[trigger] is_slot(t, k2, i2) implies in_carved(
            t,
            t.free_lists[k2][i2] as int,
            class_size(k2),
        ) && t.free_lists[k2][i2] as int % word_align() == 0 by {
            if k2 == k {
                assert(s.fresh_block(k, i2) + class_size(k) <= t.carve_end());
            } else {
                assert(t.free_lists[k2][i2] == s.free_lists[k2][i2]);
            }
        }
    }
    assert(live_blocks_placed(t, live));
    assert(free_blocks_apart(t)) by {
        assert forall|k1: int, i1: int, k2: int, i2: int|
            is_slot(t, k1, i1) && is_slot(t, k2, i2) && !(k1 == k2 && i1 == i2) implies apart(
            #[trigger] t.free_lists[k1][i1] as int,
            class_size(k1),
            #[trigger] t.free_lists[k2][i2] as int,
            class_size(k2),
        ) by {
            if k1 == k && k2 == k {
                if i1 < i2 {
                    assert(s.fresh_block(k, i1) + class_size(k) <= s.fresh_block(k, i2));
                } else {
                    assert(s.fresh_block(k, i2) + class_size(k) <= s.fresh_block(k, i1));
                }
            } else if k1 == k {
                assert(t.free_lists[k2][i2] == s.free_lists[k2][i2]);
                assert(s.carve_end() <= s.fresh_block(k, i1));
            } else if k2 == k {
                assert(t.free_lists[k1][i1] == s.free_lists[k1][i1]);
                assert(s.carve_end() <= s.fresh_block(k, i2));
            } else {
                assert(t.free_lists[k1][i1] == s.free_lists[k1][i1]);
                assert(t.free_lists[k2][i2] == s.free_lists[k2][i2]);
            }
        }
    }
    assert(free_live_apart(t, live)) by {
        assert forall|k2: int, i2: int, j: int| is_slot(t, k2, i2) && 0 <= j < live.len() implies apart(
            #[trigger] t.free_lists[k2][i2] as int,
            class_size(k2),
            #[trigger] live[j].addr as int,
            live[j].block_len(),
        ) by {
            if k2 == k {
                assert(s.carve_end() <= s.fresh_block(k, i2));
                assert(in_carved(s, live[j].addr as int, live[j].block_len()));
            } else {
                assert(t.free_lists[k2][i2] == s.free_lists[k2][i2]);
            }
        }
    }
}

/// Giving back a block in use, with the request it served, moves it from
/// the blocks in use to the free blocks.
proof fn lemma_ownership_kept_by_push(s: SlabModel, live: Seq<LiveBlock>, j: int)
    requires
        ownership_inv(s, live),
        0 <= j < live.len(),
    ensures
        ownership_inv(s.pushed(live[j].class(), live[j].addr), live.remove(j)),
{
    let nb = live[j];
    let k = nb.class();
    let t = s.pushed(k, nb.addr);
    let l = live.remove(j);
    let n = s.free_lists[k].len();
    assert(nb.well_requested());
    assert(0 <= k < NUM_CLASSES);
    assert(t.used_bytes() == s.used_bytes());
    assert forall|k2: int, i2: int| #[trigger] is_slot(t, k2, i2) implies (k2 == k && i2 == n
        && t.free_lists[k2][i2] == nb.addr) || (is_slot(s, k2, i2) && t.free_lists[k2][i2]
        == s.free_lists[k2][i2]) by {}
    assert forall|j2: int| 0 <= j2 < l.len() implies #[trigger] l[j2] == live[if j2 < j {
        j2
    } else {
        j2 + 1
    }] by {}
    assert(free_blocks_placed(t)) by {
        assert forall|k2: int, i2: int| #[trigger] is_slot(t, k2, i2) implies in_carved(
            t,
            t.free_lists[k2][i2] as int,
            class_size(k2),
        ) && t.free_lists[k2][i2] as int % word_align() == 0 by {
            if !(k2 == k && i2 == n) {
                assert(t.free_lists[k2][i2] == s.free_lists[k2][i2]);
            }
        }
    }
    assert(live_blocks_placed(t, l)) by {
        assert forall|j2: int| 0 <= j2 < l.len() implies #[trigger] l[j2].well_requested()
            && in_carved(t, l[j2].addr as int, l[j2].block_len()) && l[j2].addr as int
            % word_align() == 0 by {
            let jj = if j2 < j {
                j2
            } else {
                j2 + 1
            };
            assert(l[j2] == live[jj]);
        }
    }
    assert(free_blocks_apart(t)) by {
        assert forall|k1: int, i1: int, k2: int, i2: int|
            is_slot(t, k1, i1) && is_slot(t, k2, i2) && !(k1 == k2 && i1 == i2) implies apart(
            #[trigger] t.free_lists[k1][i1] as int,
            class_size(k1),
            #[trigger] t.free_lists[k2][i2] as int,
            class_size(k2),
        ) by {
            if k1 == k && i1 == n {
                assert(t.free_lists[k2][i2] == s.free_lists[k2][i2]);
                assert(apart(
                    s.free_lists[k2][i2] as int,
                    class_size(k2),
                    live[j].addr as int,
                    live[j].block_len(),
                ));
            } else if k2 == k && i2 == n {
                assert(t.free_lists[k1][i1] == s.free_lists[k1][i1]);
                assert(apart(
                    s.free_lists[k1][i1] as int,
                    class_size(k1),
                    live[j].addr as int,
                    live[j].block_len(),
                ));
            } else {
                assert(t.free_lists[k1][i1] == s.free_lists[k1][i1]);
                assert(t.free_lists[k2][i2] == s.free_lists[k2][i2]);
            }
        }
    }
    assert(free_live_apart(t, l)) by {
        assert forall|k2: int, i2: int, j2: int| is_slot(t, k2, i2) && 0 <= j2 < l.len() implies apart(
            #[trigger] t.free_lists[k2][i2] as int,
            class_size(k2),
            #[trigger] l[j2].addr as int,
            l[j2].block_len(),
        ) by {
            let jj = if j2 < j {
                j2
            } else {
                j2 + 1
            };
            assert(l[j2] == live[jj]);
            assert(jj != j);
            if k2 == k && i2 == n {
                assert(apart(
                    live[j].addr as int,
                    live[j].block_len(),
                    live[jj].addr as int,
                    live[jj].block_len(),
                ));
            } else {
                assert(t.free_lists[k2][i2] == s.free_lists[k2][i2]);
                assert(apart(
                    s.free_lists[k2][i2] as int,
                    class_size(k2),
                    live[jj].addr as int,
                    live[jj].block_len(),
                ));
            }
        }
    }
    assert(live_blocks_apart(l)) by {
        assert forall|j1: int, j2: int|
            0 <= j1 < l.len() && 0 <= j2 < l.len() && j1 != j2 implies apart(
            #[trigger] l[j1].addr as int,
            l[j1].block_len(),
            #[trigger] l[j2].addr as int,
            l[j2].block_len(),
        ) by {
            let a1 = if j1 < j {
                j1
            } else {
                j1 + 1
            };
            let a2 = if j2 < j {
                j2
            } else {
                j2 + 1
            };
            assert(l[j1] == live[a1] && l[j2] == live[a2]);
        }
    }
}

/// Every allocation keeps the ownership invariant: a block handed out joins
/// the blocks in use, with the request it served.
pub proof fn lemma_ownership_kept_by_allocate(
    s: SlabModel,
    live: Seq<LiveBlock>,
    size: int,
    align: int,
)
    requires
        ownership_inv(s, live),
        align > 0,
    ensures
        ownership_inv(
            s.alloc_step(size, align).0,
            match s.alloc_step(size, align).1 {
                Some(p) => live.push(LiveBlock { addr: p, size, align }),
                None => live,
            },
        ),
{
    match slab_class(size, align) {
        None => {},
        Some(k) => {
            if s.free_count(k) == 0 && !s.can_refill(k) {
            } else {
                let s1 = if s.free_count(k) == 0 {
                    lemma_ownership_kept_by_refill(s, live, k);
                    assert(s.refilled(k).free_lists[k] =~= s.fresh_blocks(k));
                    s.refilled(k)
                } else {
                    s
                };
                assert(ownership_inv(s1, live));
                assert(s1.free_count(k) > 0);
                let b = s1.free_lists[k].last();
                if b as int % align != 0 {
                } else {
                    lemma_ownership_kept_by_pop(s1, live, k, size, align);
                }
            }
        },
    }
}

/// Giving back a block in use, with the size and alignment it was
/// allocated for, keeps the ownership invariant; the block leaves the
/// blocks in use.
pub proof fn lemma_ownership_kept_by_dealloc(s: SlabModel, live: Seq<LiveBlock>, j: int)
    requires
        ownership_inv(s, live),
        0 <= j < live.len(),
    ensures
        ownership_inv(
            s.dealloc_step(live[j].addr, live[j].size, live[j].align),
            live.remove(j),
        ),
{
    assert(live[j].well_requested());
    lemma_ownership_kept_by_push(s, live, j);
}

/// While the allocator owns its memory soundly, the blocks in use lie
/// within the region, meet the alignment they were requested with, and do
/// not overlap as byte ranges of their requested sizes.
pub proof fn lemma_live_blocks_disjoint_in_region(s: SlabModel, live: Seq<LiveBlock>)
    requires
        ownership_inv(s, live),
    ensures
        forall|j: int|
            0 <= j < live.len() ==> s.start <= #[trigger] live[j].addr && live[j].addr
                + live[j].size <= s.end && live[j].addr as int % live[j].align == 0,
        forall|j1: int, j2: int|
            0 <= j1 < live.len() && 0 <= j2 < live.len() && j1 != j2 ==> apart(
                #[trigger] live[j1].addr as int,
                live[j1].size,
                #[trigger] live[j2].addr as int,
                live[j2].size,
            ),
{
    lemma_word_align_is_small();
    lemma_align_up_bounds(s.start, word_align());
    assert forall|j: int| 0 <= j < live.len() implies live[j].size <= live[j].block_len()
        && s.start <= #[trigger] live[j].addr && live[j].addr + live[j].size <= s.end by {
        assert(live[j].well_requested());
        lemma_class_is_smallest_fit(live[j].size, live[j].align);
        assert(in_carved(s, live[j].addr as int, live[j].block_len()));
        assert(s.used_bytes() > 0);
    }
    assert forall|j1: int, j2: int|
        0 <= j1 < live.len() && 0 <= j2 < live.len() && j1 != j2 implies apart(
        #[trigger] live[j1].addr as int,
        live[j1].size,
        #[trigger] live[j2].addr as int,
        live[j2].size,
    ) by {
        assert(live[j1].size <= live[j1].block_len());
        assert(live[j2].size <= live[j2].block_len());
    }
}

/// While the allocator owns its memory soundly, a block handed out lies
/// within the region, meets the requested alignment, and overlaps no block
/// still in use.
pub proof fn lemma_allocation_apart_from_live(
    s: SlabModel,
    live: Seq<LiveBlock>,
    size: int,
    align: int,
)
    requires
        ownership_inv(s, live),
        align > 0,
        s.alloc_step(size, align).1 is Some,
    ensures
        ({
            let p = s.alloc_step(size, align).1->0;
            &&& s.start <= p
            &&& p + size <= s.end
            &&& p as int % align == 0
            &&& forall|j: int|
                0 <= j < live.len() ==> apart(
                    p as int,
                    size,
                    #[trigger] live[j].addr as int,
                    live[j].size,
                )
        }),
{
    let (t, r) = s.alloc_step(size, align);
    let p = r->0;
    let nb = LiveBlock { addr: p, size, align };
    let l = live.push(nb);
    lemma_ownership_kept_by_allocate(s, live, size, align);
    lemma_operations_keep_region(s, p, size, align);
    lemma_live_blocks_disjoint_in_region(t, l);
    let n = live.len() as int;
    assert(l[n] == nb);
    assert forall|j: int| 0 <= j < live.len() implies apart(
        p as int,
        size,
        #[trigger] live[j].addr as int,
        live[j].size,
    ) by {
        assert(l[j] == live[j]);
        assert(apart(l[n].addr as int, l[n].size, l[j].addr as int, l[j].size));
    }
}

} // verus!
