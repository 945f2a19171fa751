use slab_allocator::{slab_size, SlabAllocator, BLOCKS_PER_REFILL, NUM_CLASSES};

const BASE: usize = 0x10_0000;

/// `x` rounded up to a multiple of the machine word's alignment.
fn word_aligned(x: usize) -> usize {
    let a = std::mem::align_of::<usize>();
    (x + a - 1) / a * a
}

#[test]
fn class_sizes_are_16_32_64_128() {
    assert_eq!(NUM_CLASSES, 4);
    assert_eq!(BLOCKS_PER_REFILL, 10);
    assert_eq!(slab_size(0), 16);
    assert_eq!(slab_size(1), 32);
    assert_eq!(slab_size(2), 64);
    assert_eq!(slab_size(3), 128);
}

#[test]
fn request_goes_to_smallest_class_that_fits() {
    let a = SlabAllocator::new(BASE, 4096);
    assert_eq!(a.find_slab_index(1, 1), Some(0));
    assert_eq!(a.find_slab_index(16, 8), Some(0));
    assert_eq!(a.find_slab_index(17, 1), Some(1));
    assert_eq!(a.find_slab_index(20, 4), Some(1));
    assert_eq!(a.find_slab_index(48, 8), Some(2));
    assert_eq!(a.find_slab_index(65, 1), Some(3));
    assert_eq!(a.find_slab_index(128, 128), Some(3));
    assert_eq!(a.find_slab_index(0, 1), Some(0));
    // the alignment alone can push a request to a larger class
    assert_eq!(a.find_slab_index(4, 64), Some(2));
    // nothing serves more than 128 bytes or an alignment above 128
    assert_eq!(a.find_slab_index(129, 1), None);
    assert_eq!(a.find_slab_index(8, 256), None);
}

#[test]
fn refill_carves_ten_blocks_and_hands_out_the_last_first() {
    let mut a = SlabAllocator::new(BASE, 4096);
    // blocks of class 0 are carved at BASE, BASE + 16, ..., BASE + 144
    assert_eq!(a.allocate(4, 4), Some(BASE + 144));
    assert_eq!(a.allocate(4, 4), Some(BASE + 128));
    // class 1 is carved after the 160 bytes of class 0
    assert_eq!(a.allocate(20, 4), Some(BASE + 160 + 9 * 32));
    // class 3 after the 320 bytes of class 1
    assert_eq!(a.allocate(100, 8), Some(BASE + 480 + 9 * 128));
}

#[test]
fn request_fails_when_region_has_no_room() {
    let mut a = SlabAllocator::new(BASE, 159);
    assert_eq!(a.allocate(8, 8), None);
    // the failed refill changed nothing
    assert_eq!(a.allocate(8, 8), None);

    let mut b = SlabAllocator::new(BASE, 160);
    for i in 0..10 {
        assert_eq!(b.allocate(8, 8), Some(BASE + 144 - 16 * i));
    }
    assert_eq!(b.allocate(8, 8), None);
    // no room for a larger class either
    assert_eq!(b.allocate(32, 8), None);
}

#[test]
fn too_large_request_fails() {
    let mut a = SlabAllocator::new(BASE, 1 << 20);
    assert_eq!(a.allocate(129, 8), None);
    assert_eq!(a.allocate(16, 256), None);
    // a block given back for a request no class serves is ignored
    a.dealloc(BASE, 200, 8);
    assert_eq!(a.allocate(200, 8), None);
}

#[test]
fn misaligned_head_stays_on_its_list() {
    // a region starting 8 bytes past a multiple of 16
    let start = BASE + 8;
    let mut a = SlabAllocator::new(start, 4096);
    // the head block, start + 144, is not a multiple of 16
    assert_eq!(a.allocate(16, 16), None);
    assert_eq!(a.allocate(16, 16), None);
    // it is still there for a request that needs only 8-byte alignment
    assert_eq!(a.allocate(16, 8), Some(start + 144));
}

#[test]
fn blocks_are_rounded_up_to_word_alignment() {
    let start = BASE + 1;
    let mut a = SlabAllocator::new(start, 4096);
    assert_eq!(a.allocate(4, 1), Some(word_aligned(start + 144)));
    assert_eq!(a.allocate(4, 1), Some(word_aligned(start + 128)));
}

#[test]
fn dealloc_then_allocate_reuses_the_block() {
    let mut a = SlabAllocator::new(BASE, 4096);
    let p = a.allocate(24, 8).unwrap();
    let q = a.allocate(24, 8).unwrap();
    assert_ne!(p, q);
    a.dealloc(p, 24, 8);
    assert_eq!(a.allocate(24, 8), Some(p));
    // any address given back is handed out next, last in first out
    a.dealloc(q, 24, 8);
    a.dealloc(BASE + 4000, 24, 8);
    assert_eq!(a.allocate(24, 8), Some(BASE + 4000));
    assert_eq!(a.allocate(24, 8), Some(q));
}

#[test]
fn allocate_then_dealloc_restores() {
    let mut a = SlabAllocator::new(BASE, 4096);
    let first = a.allocate(64, 8).unwrap();
    let p = a.allocate(64, 8).unwrap();
    a.dealloc(p, 64, 8);
    let again = a.allocate(64, 8).unwrap();
    assert_eq!(again, p);
    assert_eq!(first, BASE + 9 * 64);
}

#[test]
fn size_and_alignment_pick_the_list() {
    let mut a = SlabAllocator::new(BASE, 4096);
    let small = a.allocate(8, 8).unwrap();
    // given back with a layout of another class, it joins that class
    a.dealloc(small, 100, 8);
    assert_eq!(a.allocate(100, 8), Some(small));
}

#[test]
fn init_forgets_every_block() {
    let mut a = SlabAllocator::new(BASE, 4096);
    let p = a.allocate(8, 8).unwrap();
    assert_eq!(p, BASE + 144);
    a.allocate(8, 8).unwrap();
    a.dealloc(BASE + 2000, 8, 8);
    a.init();
    // the region is carved again from its start
    assert_eq!(a.allocate(8, 8), Some(BASE + 144));
    assert_eq!(a.allocate(8, 8), Some(BASE + 128));
}

#[test]
fn allocation_near_top_of_address_space_fails() {
    // the region ends so close to usize::MAX that a refill's end cannot be
    // represented; the request fails instead of overflowing
    let start = usize::MAX - 100;
    let mut a = SlabAllocator::new(start, 50);
    assert_eq!(a.allocate(8, 8), None);
    assert_eq!(a.allocate(500, 8), None);
}

#[test]
fn blocks_stay_inside_a_region_with_unaligned_start() {
    let start = BASE + 1;
    let base = word_aligned(start);
    // ten 16-byte blocks from the first word-aligned address end exactly at
    // the region's end
    let size = base - start + 160;
    let mut a = SlabAllocator::new(start, size);
    assert_eq!(a.allocate(16, 1), Some(base + 144));
    // one byte less and they would end past it
    let mut b = SlabAllocator::new(start, size - 1);
    assert_eq!(b.allocate(16, 1), None);
}

#[test]
fn live_blocks_never_overlap() {
    let mut a = SlabAllocator::new(BASE, 4096);
    let requests = [(8usize, 8usize), (20, 4), (64, 8), (100, 16), (16, 16), (1, 1), (48, 8)];
    let mut live: Vec<(usize, usize, usize)> = Vec::new();
    for round in 0..3 {
        for &(size, align) in requests.iter() {
            let p = a.allocate(size, align).unwrap();
            assert_eq!(p % align, 0);
            assert!(BASE <= p && p + size <= BASE + 4096);
            live.push((p, size, align));
        }
        // give back every other block with the layout it was allocated with
        let mut kept = Vec::new();
        for (i, &(p, size, align)) in live.iter().enumerate() {
            if (i + round) % 2 == 0 {
                a.dealloc(p, size, align);
            } else {
                kept.push((p, size, align));
            }
        }
        live = kept;
        for i in 0..live.len() {
            for j in 0..live.len() {
                if i != j {
                    let (p, sp, _) = live[i];
                    let (q, sq, _) = live[j];
                    assert!(p + sp <= q || q + sq <= p);
                }
            }
        }
    }
}

#[test]
fn request_fails_only_when_class_is_full() {
    let mut a = SlabAllocator::new(BASE, 160 + 320);
    // class 0 and class 1 each get one refill, then nothing is left
    for _ in 0..10 {
        assert!(a.allocate(16, 8).is_some());
    }
    for _ in 0..10 {
        assert!(a.allocate(32, 8).is_some());
    }
    assert_eq!(a.allocate(16, 8), None);
    assert_eq!(a.allocate(32, 8), None);
    // a block given back makes the class serve one more request
    a.dealloc(BASE + 16, 16, 8);
    assert_eq!(a.allocate(16, 8), Some(BASE + 16));
    assert_eq!(a.allocate(16, 8), None);
}

#[test]
fn refill_hands_out_ten_blocks_from_the_top_down() {
    let mut a = SlabAllocator::new(BASE, 4096);
    // carve class 0 first so that class 2 starts after it
    a.allocate(8, 8).unwrap();
    for i in 0..10 {
        assert_eq!(a.allocate(64, 8), Some(BASE + 160 + (9 - i) * 64));
    }
}

#[test]
fn failed_request_changes_nothing() {
    let mut a = SlabAllocator::new(BASE, 100);
    let mut fresh = SlabAllocator::new(BASE, 100);
    assert_eq!(a.allocate(64, 8), None);
    // the failed request left the allocator as it was
    for &(size, align) in [(8usize, 8usize), (1, 1), (16, 4)].iter() {
        assert_eq!(a.allocate(size, align), fresh.allocate(size, align));
    }
}

#[test]
fn foreign_aligned_free_block_keeps_failure_rule() {
    let mut a = SlabAllocator::new(BASE, 160);
    for _ in 0..10 {
        assert!(a.allocate(8, 8).is_some());
    }
    assert_eq!(a.allocate(8, 8), None);
    // an address the allocator never handed out, but word-aligned
    a.dealloc(BASE + 4000, 8, 8);
    assert_eq!(a.allocate(8, 8), Some(BASE + 4000));
    assert_eq!(a.allocate(8, 8), None);
}
