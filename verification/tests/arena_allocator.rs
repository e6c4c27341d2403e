use support_crates::allocators::{Arena, ArenaAlloc, Layout, MutGlobalAlloc};

#[derive(Copy, Clone, Debug, PartialEq, Eq)]
struct Point {
    x: usize,
    y: usize,
}

#[derive(Clone, Debug, PartialEq, Eq)]
struct Page([u8; 4096]);

fn can_alloc_free_single<T>(allocator: &mut Arena<T>) {
    let layout = Layout::new::<T>();
    let ptr = allocator.alloc_block(layout);
    assert!(ptr.is_some());
    allocator.dealloc_block(ptr.unwrap(), layout);
}

fn can_alloc_free_count<T>(allocator: &mut Arena<T>, count: usize) {
    let layout = Layout::new::<T>();
    let mut ptrs = Vec::new();
    for _ in 0..count {
        let ptr = allocator.alloc_block(layout);
        assert!(ptr.is_some());
        ptrs.push(ptr.unwrap());
    }
    for ptr in ptrs {
        allocator.dealloc_block(ptr, layout);
    }
}

fn allocs_dont_alias<T: std::fmt::Debug + Eq + Clone>(allocator: &mut Arena<T>, items: &[T]) {
    let layout = Layout::new::<T>();
    let mut ptrs = Vec::new();
    for item in items {
        let ptr = allocator.alloc_block(layout).unwrap();
        allocator.set(ptr, item.clone());
        ptrs.push(ptr);
    }
    for (i, ptr) in ptrs.into_iter().enumerate() {
        assert_eq!(&items[i], allocator.get(ptr));
        allocator.dealloc_block(ptr, layout);
    }
}

#[test]
fn can_alloc_single() {
    const ITEMS: usize = 1;
    let points = vec![Point { x: 0, y: 0 }; ITEMS];
    let mut mem = Arena::new(points);
    can_alloc_free_single::<Point>(&mut mem);
}

#[test]
fn arena_allocator_can_alloc_memory() {
    const ITEMS: usize = 20;
    let points = vec![Point { x: 0, y: 0 }; ITEMS];
    let mut mem = Arena::new(points);
    can_alloc_free_count::<Point>(&mut mem, ITEMS);
}

#[test]
fn arena_allocator_can_alloc_page() {
    const ITEMS: usize = 200;
    let mut pages = Vec::with_capacity(ITEMS);
    for _ in 0..ITEMS {
        pages.push(Page([0; 4096]));
    }
    assert!(pages.len() == pages.capacity());
    let mut mem = Arena::new(pages);
    can_alloc_free_count::<Page>(&mut mem, ITEMS);
}

#[test]
fn arena_allocator_can_alloc_pages() {
    const ITEMS: usize = 200;
    let mut pages = Vec::with_capacity(ITEMS);
    for _ in 0..ITEMS {
        pages.push(Page([0; 4096]));
    }
    let mut mem = Arena::new(pages);
    assert!(mem.alloc_many(20).is_some());
}

#[test]
fn arena_allocator_allocs_dont_alias() {
    const ITEMS: usize = 20;
    let points = vec![Point { x: 0, y: 0 }; ITEMS];
    let mut mem = Arena::new(points);
    let mut items = Vec::new();
    for i in 0..ITEMS {
        items.push(Point { x: i, y: i });
    }
    allocs_dont_alias(&mut mem, &items);
}

#[test]
fn arena_hands_out_blocks_in_address_order() {
    let points = vec![Point { x: 0, y: 0 }; 4];
    let mut mem = Arena::from_contigious_blocks(points, 0x1000);
    assert_eq!(mem.alloc_one(), Some(0x1000));
    assert_eq!(mem.alloc_one(), Some(0x1010));
    assert_eq!(mem.alloc_many(2), Some(0x1020));
    assert_eq!(mem.alloc_one(), None);
}

#[test]
fn arena_run_search_skips_blocks_before_the_run() {
    let points = vec![Point { x: 0, y: 0 }; 4];
    let mut mem = Arena::from_contigious_blocks(points, 0x1000);
    let layout = Layout::new::<Point>();
    let a = mem.alloc_block(layout).unwrap();
    let b = mem.alloc_block(layout).unwrap();
    // free list is now: block 2, block 3; giving back block 0 puts it in front
    mem.dealloc_block(a, layout);
    let _ = b;
    // blocks 0 and 2 do not follow each other, so the search restarts at block 2 and takes 2 and 3
    assert_eq!(mem.alloc_many(2), Some(0x1020));
    // block 0 was passed over and stays on the free list
    assert_eq!(mem.alloc_one(), Some(0x1000));
    assert_eq!(mem.alloc_one(), None);
}

#[test]
fn arena_allocator_can_create_memory() {
    const ITEMS: usize = 20;
    let points = vec![Point { x: 0, y: 0 }; ITEMS];
    let mut mem = Arena::from_contigious_blocks(points, 0x1000);
    mem.init_freelist();
}
