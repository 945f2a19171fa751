use core::alloc::Layout;
use slab_allocator::SlabAllocator;

/// Address at which the tests pretend their memory region starts.
const BASE: usize = 0x10_0000;

/// Writes `value` at address `addr` of a region that starts at `BASE`.
fn write_u32(memory: &mut [u8], addr: usize, value: u32) {
    let off = addr - BASE;
    memory[off..off + 4].copy_from_slice(&value.to_ne_bytes());
}

/// Reads the `u32` at address `addr` of a region that starts at `BASE`.
fn read_u32(memory: &[u8], addr: usize) -> u32 {
    let off = addr - BASE;
    let mut bytes = [0u8; 4];
    bytes.copy_from_slice(&memory[off..off + 4]);
    u32::from_ne_bytes(bytes)
}

#[test]
fn allocator_tests_test_alloc_dealloc() {
    let mut memory = vec![0u8; 1024 * 1024];
    let mut allocator = SlabAllocator::new(BASE, memory.len());
    allocator.init();

    // Allocate memory for a u32
    let layout = Layout::new::<u32>();
    let ptr = allocator.allocate(layout.size(), layout.align());
    assert!(ptr.is_some());
    let ptr = ptr.unwrap();

    // Check the alignment
    println!("Pointeur alloué: {:#x}", ptr);
    assert_eq!(ptr % layout.align(), 0, "Le pointeur n'est pas aligné correctement");

    // Write to the allocated memory
    write_u32(&mut memory, ptr, 42);
    assert_eq!(read_u32(&memory, ptr), 42);

    allocator.dealloc(ptr, layout.size(), layout.align());
}

#[test]
fn lib_test_alloc_dealloc() {
    let mut memory = vec![0u8; 1024 * 1024];
    let mut allocator = SlabAllocator::new(BASE, memory.len());
    allocator.init();

    let layout = Layout::new::<u32>();
    let ptr = allocator.allocate(layout.size(), layout.align());
    assert!(ptr.is_some());
    let ptr = ptr.unwrap();

    write_u32(&mut memory, ptr, 42);
    assert_eq!(read_u32(&memory, ptr), 42);

    allocator.dealloc(ptr, layout.size(), layout.align());
}

#[allow(dead_code)]
struct TestStruct {
    a: u32,
    b: u64,
    c: [u8; 32],
}

#[test]
fn test_different_sizes() {
    let memory = vec![0u8; 1024 * 1024];
    let mut allocator = SlabAllocator::new(BASE, memory.len());
    allocator.init();

    let layouts = [
        Layout::new::<u8>(),
        Layout::new::<u32>(),
        Layout::new::<u64>(),
        Layout::new::<[u8; 32]>(),
        Layout::new::<TestStruct>(),
    ];

    let mut ptrs = [(None, Layout::from_size_align(0, 1).unwrap()); 5];

    for (i, &layout) in layouts.iter().enumerate() {
        let ptr = allocator.allocate(layout.size(), layout.align());
        assert!(ptr.is_some());
        ptrs[i] = (ptr, layout);
    }

    for (ptr, layout) in ptrs.iter() {
        if let Some(p) = ptr {
            allocator.dealloc(*p, layout.size(), layout.align());
        }
    }
}

#[test]
fn test_reuse_blocks() {
    let memory = vec![0u8; 1024 * 1024];
    let mut allocator = SlabAllocator::new(BASE, memory.len());
    allocator.init();

    let layout = Layout::new::<u32>();

    let ptr1 = allocator.allocate(layout.size(), layout.align());
    assert!(ptr1.is_some());

    allocator.dealloc(ptr1.unwrap(), layout.size(), layout.align());

    // The second allocation must reuse the same block
    let ptr2 = allocator.allocate(layout.size(), layout.align());
    assert!(ptr2.is_some());

    assert_eq!(ptr1, ptr2);

    allocator.dealloc(ptr2.unwrap(), layout.size(), layout.align());
}

#[test]
fn test_small_alloc() {
    let mut memory = vec![0u8; 4096];
    let mut allocator = SlabAllocator::new(BASE, 4096);
    allocator.init();

    let layout = Layout::from_size_align(16, 8).unwrap();
    let ptr = allocator.allocate(layout.size(), layout.align());
    assert!(ptr.is_some(), "L'allocation a échoué");
    let ptr = ptr.unwrap();

    let off = ptr - BASE;
    for i in 0..16 {
        memory[off + i] = i as u8;
    }
    for i in 0..16 {
        assert_eq!(memory[off + i], i as u8);
    }

    allocator.dealloc(ptr, layout.size(), layout.align());
}

#[test]
fn test_multiple_allocs() {
    let mut memory = vec![0u8; 4096];
    let mut allocator = SlabAllocator::new(BASE, 4096);
    allocator.init();

    let layouts = [
        Layout::from_size_align(8, 8).unwrap(),
        Layout::from_size_align(16, 8).unwrap(),
        Layout::from_size_align(32, 8).unwrap(),
        Layout::from_size_align(64, 8).unwrap(),
    ];

    let mut ptrs = [0usize; 4];

    for (i, &layout) in layouts.iter().enumerate() {
        let ptr = allocator.allocate(layout.size(), layout.align());
        assert!(ptr.is_some(), "L'allocation #{} a échoué", i);
        ptrs[i] = ptr.unwrap();
        let off = ptrs[i] - BASE;
        for j in 0..layout.size() {
            memory[off + j] = (j % 255) as u8;
        }
    }

    for (i, &layout) in layouts.iter().enumerate() {
        let off = ptrs[i] - BASE;
        for j in 0..layout.size() {
            assert_eq!(memory[off + j], (j % 255) as u8, "Données corrompues dans l'allocation #{}", i);
        }
    }

    for (i, &layout) in layouts.iter().enumerate() {
        allocator.dealloc(ptrs[i], layout.size(), layout.align());
    }

    for (i, &layout) in layouts.iter().enumerate() {
        let ptr = allocator.allocate(layout.size(), layout.align());
        assert!(ptr.is_some(), "La réallocation #{} a échoué", i);
        allocator.dealloc(ptr.unwrap(), layout.size(), layout.align());
    }
}
