use vstd::prelude::*;

use crate::size_class::{
    align_address, align_up, class_fits, lemma_align_up_bounds, lemma_align_up_shift, class_size, required_size, slab_class, slab_size,
    word_align, word_align_exec, word_align_is_small, word_size_exec, BLOCKS_PER_REFILL,
    NUM_CLASSES,
};

verus! {

/// Abstract state of a slab allocator.
///
/// `free_lists[k]` holds the free blocks of class `k` as a stack: its last
/// element is the head of the list, the block the next allocation takes.
/// `counts[k]` is the number of blocks of class `k` carved from the region
/// so far; the carved blocks occupy the start of the region, and the rest,
/// from `used_end()` to `end`, is still unused.
pub struct SlabModel {
    pub start: int,
    pub end: int,
    pub free_lists: Seq<Seq<usize>>,
    pub counts: Seq<usize>,
}

impl SlabModel {
    /// A fresh allocator over `[start, end)`: no free block, nothing carved.
    pub open spec fn empty(start: int, end: int) -> SlabModel {
        SlabModel {
            start,
            end,
            free_lists: Seq::new(NUM_CLASSES as nat, |k: int| Seq::<usize>::empty()),
            counts: Seq::new(NUM_CLASSES as nat, |k: int| 0usize),
        }
    }

    /// Bytes carved so far by the classes below `n`.
    pub open spec fn carved_below(self, n: int) -> int {
        if n <= 0 {
            0
        } else if n == 1 {
            self.counts[0] * 16
        } else if n == 2 {
            self.counts[0] * 16 + self.counts[1] * 32
        } else if n == 3 {
            self.counts[0] * 16 + self.counts[1] * 32 + self.counts[2] * 64
        } else {
            self.counts[0] * 16 + self.counts[1] * 32 + self.counts[2] * 64 + self.counts[3] * 128
        }
    }

    /// Bytes carved so far from the region, all classes together.
    pub open spec fn used_bytes(self) -> int {
        self.carved_below(NUM_CLASSES as int)
    }

    /// First address of the region not yet carved into blocks.
    pub open spec fn used_end(self) -> int {
        self.start + self.used_bytes()
    }

    /// One free list and one count per class; the carved part, once there
    /// is one, lies within the region, which lies within the address space.
    pub open spec fn wf(self) -> bool {
        &&& self.free_lists.len() == NUM_CLASSES
        &&& self.counts.len() == NUM_CLASSES
        &&& 0 <= self.start <= self.used_end() <= self.end <= usize::MAX
        &&& self.used_bytes() > 0 ==> self.carve_end() <= self.end
    }

    /// Number of free blocks of class `k`.
    pub open spec fn free_count(self, k: int) -> nat {
        self.free_lists[k].len()
    }

    /// Address of the `i`-th block carved for class `k` at the next refill:
    /// consecutive blocks of the class size, from the unused part of the
    /// region, each rounded up to the alignment of a machine word.
    pub open spec fn fresh_block(self, k: int, i: int) -> usize {
        align_up(self.used_end() + i * class_size(k), word_align()) as usize
    }

    /// The blocks a refill of class `k` carves, in the order they are pushed.
    pub open spec fn fresh_blocks(self, k: int) -> Seq<usize> {
        Seq::new(BLOCKS_PER_REFILL as nat, |i: int| self.fresh_block(k, i))
    }

    /// The unused part of the region, from its first word-aligned address,
    /// holds ten more blocks of class `k`.
    pub open spec fn can_refill(self, k: int) -> bool {
        align_up(self.used_end(), word_align()) + BLOCKS_PER_REFILL * class_size(k) <= self.end
    }

    /// Address of the first carved block: the region's start rounded up to
    /// the alignment of a machine word.
    pub open spec fn carve_base(self) -> int {
        align_up(self.start, word_align())
    }

    /// End of the carved part: carved blocks fill `[carve_base(), carve_end())`.
    pub open spec fn carve_end(self) -> int {
        self.carve_base() + self.used_bytes()
    }

    /// The carved bytes are a multiple of 16, the smallest block size.
    pub proof fn lemma_used_bytes_multiple_of_16(self)
        ensures
            self.used_bytes() % 16 == 0,
            self.used_bytes() >= 0,
    {
        let c0 = self.counts[0] as int;
        let c1 = self.counts[1] as int;
        let c2 = self.counts[2] as int;
        let c3 = self.counts[3] as int;
        assert(self.used_bytes() == 16 * (c0 + 2 * c1 + 4 * c2 + 8 * c3));
    }

    /// The state after ten blocks of class `k` are carved and pushed on
    /// its free list.
    pub open spec fn refilled(self, k: int) -> SlabModel {
        SlabModel {
            free_lists: self.free_lists.update(k, self.free_lists[k] + self.fresh_blocks(k)),
            counts: self.counts.update(k, (self.counts[k] + BLOCKS_PER_REFILL) as usize),
            ..self
        }
    }

    /// The state after `b` is pushed on the free list of class `k`.
    pub open spec fn pushed(self, k: int, b: usize) -> SlabModel {
        SlabModel { free_lists: self.free_lists.update(k, self.free_lists[k].push(b)), ..self }
    }

    /// The state after the head of the free list of class `k` is taken.
    pub open spec fn popped(self, k: int) -> SlabModel {
        SlabModel { free_lists: self.free_lists.update(k, self.free_lists[k].drop_last()), ..self }
    }

    /// The state after all free lists are emptied and nothing is carved.
    pub open spec fn reset(self) -> SlabModel {
        SlabModel::empty(self.start, self.end)
    }

    /// New state and result of an allocation of `size` bytes aligned to
    /// `align`: the request goes to the smallest class that fits; an empty
    /// class is refilled first, and the request fails when the region has
    /// no room left for it; the head of the list is handed out if its
    /// address is a multiple of `align`, otherwise it stays on the list and
    /// the request fails.
    pub open spec fn alloc_step(self, size: int, align: int) -> (SlabModel, Option<usize>) {
        match slab_class(size, align) {
            None => (self, None),
            Some(k) => if self.free_count(k) == 0 && !self.can_refill(k) {
                (self, None)
            } else {
                let s = if self.free_count(k) == 0 {
                    self.refilled(k)
                } else {
                    self
                };
                let b = s.free_lists[k].last();
                if (b as int) % align != 0 {
                    (s, None)
                } else {
                    (s.popped(k), Some(b))
                }
            },
        }
    }

    /// New state after `ptr` is given back for a request of `size` bytes
    /// aligned to `align`: it goes on the head of its class's free list; a
    /// request that no class serves is ignored.
    pub open spec fn dealloc_step(self, ptr: usize, size: int, align: int) -> SlabModel {
        match slab_class(size, align) {
            Some(k) => self.pushed(k, ptr),
            None => self,
        }
    }
}

/// A request made to an allocator: an allocation, or a block given back.
pub enum Request {
    Allocate { size: int, align: int },
    Dealloc { ptr: usize, size: int, align: int },
}

/// State and results after the requests `reqs`, in order, starting from
/// `s`; a block given back yields `None`.
pub open spec fn run_slab(s: SlabModel, reqs: Seq<Request>) -> (SlabModel, Seq<Option<usize>>)
    decreases reqs.len(),
{
    if reqs.len() == 0 {
        (s, Seq::empty())
    } else {
        let (t, rs) = run_slab(s, reqs.drop_last());
        match reqs.last() {
            Request::Allocate { size, align } => {
                let (u, r) = t.alloc_step(size, align);
                (u, rs.push(r))
            },
            Request::Dealloc { ptr, size, align } => (t.dealloc_step(ptr, size, align), rs.push(None)),
        }
    }
}

/// A slab allocator over the address range `[memory_start, memory_end)`.
///
/// The allocator only computes addresses; it never reads or writes the
/// memory it manages. Its free lists are vectors on the process heap, not
/// lists threaded through the free blocks.
pub struct SlabAllocator {
    memory_start: usize,
    memory_end: usize,
    free_lists: [Vec<usize>; 4],
    allocated_counts: [usize; 4],
}

impl View for SlabAllocator {
    type V = SlabModel;

    closed spec fn view(&self) -> SlabModel {
        SlabModel {
            start: self.memory_start as int,
            end: self.memory_end as int,
            free_lists: self.free_lists@.map_values(|l: Vec<usize>| l@),
            counts: self.allocated_counts@,
        }
    }
}

impl SlabAllocator {
    /// The allocator's state is well formed (see [`SlabModel::wf`]).
    pub open spec fn wf(&self) -> bool {
        self@.wf()
    }

    /// An allocator over the `size` bytes that start at address `start`,
    /// with every free list empty.
    pub fn new(start: usize, size: usize) -> (r: Self)
        requires
            start + size <= usize::MAX,
        ensures
            r.wf(),
            r@ == SlabModel::empty(start as int, start + size),
    {
        let r = SlabAllocator {
            memory_start: start,
            memory_end: start + size,
            free_lists: [Vec::new(), Vec::new(), Vec::new(), Vec::new()],
            allocated_counts: [0, 0, 0, 0],
        };
        assert(r@.free_lists =~= SlabModel::empty(start as int, start + size).free_lists);
        assert(r@.counts =~= SlabModel::empty(start as int, start + size).counts);
        r
    }

    /// Empties every free list and forgets every carved block.
    pub fn init(&mut self)
        requires
            old(self).wf(),
        ensures
            final(self).wf(),
            final(self)@ == old(self)@.reset(),
    {
        let mut i: usize = 0;
        while i < NUM_CLASSES
            invariant
                0 <= i <= NUM_CLASSES,
                self.memory_start == old(self).memory_start,
                self.memory_end == old(self).memory_end,
                old(self).wf(),
                forall|j: int| 0 <= j < i ==> self.free_lists@[j]@.len() == 0,
                forall|j: int| 0 <= j < i ==> self.allocated_counts@[j] == 0,
            decreases NUM_CLASSES - i,
        {
            self.free_lists[i] = Vec::new();
            self.allocated_counts[i] = 0;
            i = i + 1;
        }
        assert(self.free_lists@.len() == NUM_CLASSES);
        assert forall|j: int| 0 <= j < NUM_CLASSES implies #[trigger] self@.free_lists[j]
            == old(self)@.reset().free_lists[j] by {
            assert(self.free_lists@[j]@ =~= Seq::<usize>::empty());
        }
        assert(self@.free_lists =~= old(self)@.reset().free_lists);
        assert(self@.counts =~= old(self)@.reset().counts);
    }

    /// The class that serves a request of `size` bytes aligned to `align`.
    pub fn find_slab_index(&self, size: usize, align: usize) -> (r: Option<usize>)
        ensures
            match r {
                Some(k) => slab_class(size as int, align as int) == Some(k as int),
                None => slab_class(size as int, align as int) is None,
            },
    {
        let word = word_size_exec();
        let required = if size > word {
            size
        } else {
            word
        };
        let mut i: usize = 0;
        while i < NUM_CLASSES
            invariant
                0 <= i <= NUM_CLASSES,
                required == required_size(size as int),
                forall|j: int| 0 <= j < i ==> !class_fits(j, size as int, align as int),
            decreases NUM_CLASSES - i,
        {
            let s = slab_size(i);
            if s >= required && align <= s {
                return Some(i);
            }
            i = i + 1;
        }
        None
    }

    /// First address of the region not yet carved into blocks.
    fn current_alloc(&self) -> (r: usize)
        requires
            self.wf(),
        ensures
            r == self@.used_end(),
    {
        let mut sum: usize = 0;
        let mut i: usize = 0;
        while i < NUM_CLASSES
            invariant
                0 <= i <= NUM_CLASSES,
                self.wf(),
                sum == self@.carved_below(i as int),
            decreases NUM_CLASSES - i,
        {
            let s = slab_size(i);
            let c = self.allocated_counts[i];
            proof {
                assert(c == self@.counts[i as int]);
                assert(c * s == self@.carved_below(i + 1) - self@.carved_below(i as int)) by {
                    if i == 0 {
                        assert(s == 16);
                    } else if i == 1 {
                        assert(s == 32);
                    } else if i == 2 {
                        assert(s == 64);
                    } else {
                        assert(s == 128);
                    }
                }
                assert(self@.carved_below(i + 1) <= self@.used_bytes());
            }
            sum = sum + c * s;
            i = i + 1;
        }
        self.memory_start + sum
    }

    /// Carves ten blocks of class `slab_index` from the unused part of the
    /// region and pushes them on its free list; fails, changing nothing,
    /// when the region has no room for them.
    fn allocate_more_slabs(&mut self, slab_index: usize) -> (r: Result<(), ()>)
        requires
            old(self).wf(),
            slab_index < NUM_CLASSES,
        ensures
            final(self).wf(),
            r is Ok <==> align_up(old(self)@.used_end(), word_align()) + BLOCKS_PER_REFILL
                * class_size(slab_index as int) <= old(self)@.end,
            r is Ok ==> final(self)@ == old(self)@.refilled(slab_index as int),
            r is Err ==> final(self)@ == old(self)@,
    {
        let k = slab_index;
        let slab_size = slab_size(k);
        let slabs_to_create = BLOCKS_PER_REFILL;
        assert(slab_size * slabs_to_create <= 1280) by (nonlinear_arith)
            requires
                slab_size <= 128,
                slabs_to_create == 10,
        ;
        let required_memory = slab_size * slabs_to_create;
        let current_alloc = self.current_alloc();
        let alignment = word_align_exec();
        proof {
            lemma_align_up_bounds(current_alloc as int, alignment as int);
        }
        // The first block starts at the first word-aligned address; the ten
        // blocks must fit between it and the end of the region.
        if self.memory_end - current_alloc < alignment {
            return Err(());
        }
        let first_block = align_address(current_alloc, alignment);
        if self.memory_end - first_block < required_memory {
            return Err(());
        }
        let ghost old_lists = self.free_lists@;
        let mut i: usize = 0;
        while i < slabs_to_create
            invariant
                0 <= i <= slabs_to_create,
                slabs_to_create == BLOCKS_PER_REFILL,
                k < NUM_CLASSES,
                slab_size == class_size(k as int),
                required_memory == slabs_to_create * slab_size,
                current_alloc == old(self)@.used_end(),
                current_alloc + required_memory <= self.memory_end,
                alignment == word_align(),
                word_align_is_small(),
                self.memory_start == old(self).memory_start,
                self.memory_end == old(self).memory_end,
                self.allocated_counts == old(self).allocated_counts,
                old_lists == old(self).free_lists@,
                forall|j: int| 0 <= j < NUM_CLASSES && j != k ==> #[trigger] self.free_lists@[j]@
                    == old_lists[j]@,
                self.free_lists@[k as int]@ == old_lists[k as int]@ + old(self)@.fresh_blocks(
                    k as int,
                ).take(i as int),
            decreases slabs_to_create - i,
        {
            assert(i * slab_size <= 9 * slab_size) by (nonlinear_arith)
                requires
                    i <= 9,
            ;
            let block_addr = current_alloc + i * slab_size;
            let aligned_addr = align_address(block_addr, alignment);
            proof {
                assert(aligned_addr == old(self)@.fresh_block(k as int, i as int));
            }
            self.free_lists[k].push(aligned_addr);
            proof {
                assert(old(self)@.fresh_blocks(k as int).take(i + 1) =~= old(self)@.fresh_blocks(
                    k as int,
                ).take(i as int).push(aligned_addr));
            }
            i = i + 1;
        }
        proof {
            let c = self.allocated_counts@[k as int];
            if k == 0 {
                assert(c * 16 <= usize::MAX);
            } else if k == 1 {
                assert(c * 32 <= usize::MAX);
            } else if k == 2 {
                assert(c * 64 <= usize::MAX);
            } else {
                assert(c * 128 <= usize::MAX);
            }
        }
        self.allocated_counts[k] = self.allocated_counts[k] + slabs_to_create;
        proof {
            let want = old(self)@.refilled(k as int);
            assert(old(self)@.fresh_blocks(k as int).take(10) =~= old(self)@.fresh_blocks(
                k as int,
            ));
            assert(self@.free_lists =~= want.free_lists);
            assert(self@.counts =~= want.counts);
            let o = old(self)@;
            o.lemma_used_bytes_multiple_of_16();
            lemma_align_up_shift(o.start, o.used_bytes(), word_align());
            assert(first_block == o.carve_end());
            assert(self@.used_bytes() == o.used_bytes() + required_memory);
        }
        Ok(())
    }

    /// Allocates a block for `size` bytes aligned to `align`; `None` stands
    /// for the null pointer.
    pub fn allocate(&mut self, size: usize, align: usize) -> (r: Option<usize>)
        requires
            old(self).wf(),
            align > 0,
        ensures
            final(self).wf(),
            (final(self)@, r) == old(self)@.alloc_step(size as int, align as int),
    {
        if let Some(slab_index) = self.find_slab_index(size, align) {
            if self.free_lists[slab_index].len() == 0 {
                if self.allocate_more_slabs(slab_index).is_err() {
                    return None;
                }
            }
            let ghost refilled = self@;
            proof {
                let k = slab_index as int;
                assert(self.free_lists@[k]@ == refilled.free_lists[k]);
                if old(self)@.free_count(k) == 0 {
                    assert(refilled.free_lists[k] == old(self)@.free_lists[k] + old(
                        self,
                    )@.fresh_blocks(k));
                } else {
                    assert(refilled == old(self)@);
                }
                assert(refilled.free_lists[k].len() > 0);
            }
            let block = self.free_lists[slab_index].pop().unwrap();
            proof {
                assert(self@.free_lists =~= refilled.popped(slab_index as int).free_lists);
            }
            if block % align != 0 {
                self.free_lists[slab_index].push(block);
                proof {
                    let k = slab_index as int;
                    assert(self.free_lists@[k]@ =~= refilled.free_lists[k]);
                    assert(self@.free_lists =~= refilled.free_lists);
                }
                return None;
            }
            return Some(block);
        }
        None
    }

    /// Gives back the block at `ptr`, allocated for `size` bytes aligned to
    /// `align`: it goes on the head of its class's free list.
    pub fn dealloc(&mut self, ptr: usize, size: usize, align: usize)
        requires
            old(self).wf(),
        ensures
            final(self).wf(),
            final(self)@ == old(self)@.dealloc_step(ptr, size as int, align as int),
    {
        if let Some(slab_index) = self.find_slab_index(size, align) {
            self.free_lists[slab_index].push(ptr);
            proof {
                assert(self@.free_lists =~= old(self)@.pushed(slab_index as int, ptr).free_lists);
            }
        }
    }
}

} // verus!
