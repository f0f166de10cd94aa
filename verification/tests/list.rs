use ralloc::{AllocError, Block, BlockEntry, BlockList, BrkError, Resized, Segment};

const BASE: usize = 0x1000;

fn heap() -> BlockList {
    BlockList::new(Segment::new(BASE, 0x100_0000))
}

fn records(list: &BlockList) -> Vec<BlockEntry> {
    (0..list.len()).map(|i| list.entry(i)).collect()
}

fn free_record(address: usize, size: usize) -> BlockEntry {
    BlockEntry { block: Block { address, size }, free: true }
}

fn placeholder(address: usize, size: usize) -> BlockEntry {
    BlockEntry { block: Block { address, size }, free: false }
}

fn free_records(list: &BlockList) -> Vec<Block> {
    records(list).into_iter().filter(|e| e.is_active()).map(|e| e.block).collect()
}

#[test]
fn new_list_is_empty_and_in_order() {
    let list = heap();
    assert_eq!(list.len(), 0);
    assert_eq!(list.capacity(), 0);
    assert_eq!(list.segment(), Segment { end: BASE, limit: 0x100_0000 });
    assert!(list.in_order());
}

#[test]
fn first_allocation_grows_the_heap_by_the_canonical_size() {
    let mut list = heap();
    assert_eq!(list.allocate(64, 8), Ok(BASE));
    assert_eq!(list.segment().end, BASE + 200);
    // No bytes were skipped to reach a multiple of 8: their record is empty.
    assert_eq!(records(&list), vec![free_record(BASE, 0), free_record(BASE + 64, 136)]);
    assert_eq!(free_records(&list), vec![Block { address: BASE + 64, size: 136 }]);
    assert!(list.in_order());
}

#[test]
fn second_allocation_is_served_from_the_leftover() {
    let mut list = heap();
    assert_eq!(list.allocate(64, 8), Ok(BASE));
    let end = list.segment().end;
    assert_eq!(list.allocate(64, 8), Ok(BASE + 64));
    assert_eq!(list.segment().end, end);
    assert_eq!(records(&list), vec![free_record(BASE, 0), free_record(BASE + 128, 72)]);
    assert!(list.in_order());
}

#[test]
fn growth_skips_to_a_multiple_of_the_alignment() {
    let mut list = BlockList::new(Segment::new(BASE + 3, 0x100_0000));
    assert_eq!(list.allocate(64, 8), Ok(BASE + 8));
    assert_eq!(list.segment().end, BASE + 3 + 5 + 200);
    assert_eq!(
        records(&list),
        vec![free_record(BASE + 3, 5), free_record(BASE + 72, 136)]
    );
    assert!(list.in_order());
    let end = list.segment().end;
    assert_eq!(list.allocate(64, 8), Ok(BASE + 72));
    assert_eq!(list.segment().end, end);
    assert!(list.in_order());
}

#[test]
fn two_halves_fill_the_freed_block() {
    let mut list = heap();
    let a = list.allocate(10, 1).unwrap();
    list.free(Block { address: a, size: 10 });
    let b = list.allocate(5, 1).unwrap();
    let c = list.allocate(5, 1).unwrap();
    assert_eq!(b, a);
    assert_eq!(c, a + 5);
    assert!(list.in_order());
}

#[test]
fn freed_block_is_allocated_again() {
    let mut list = heap();
    let keep = list.allocate(48, 16).unwrap();
    let a = list.allocate(40, 8).unwrap();
    assert_ne!(keep, a);
    list.free(Block { address: a, size: 40 });
    assert_eq!(list.allocate(40, 8), Ok(a));
    assert!(list.in_order());
}

#[test]
fn freed_block_that_joins_lower_free_memory_is_served_from_there() {
    let mut list = heap();
    assert_eq!(list.allocate(192, 1), Ok(BASE));
    assert_eq!(free_records(&list), vec![Block { address: BASE + 192, size: 192 }]);
    // No record has room for 200 bytes: the heap grows.
    assert_eq!(list.allocate(200, 8), Ok(BASE + 384));
    list.free(Block { address: BASE + 384, size: 200 });
    assert_eq!(free_records(&list), vec![Block { address: BASE + 192, size: 592 }]);
    assert_eq!(list.allocate(200, 8), Ok(BASE + 192));
    assert!(list.in_order());
}

#[test]
fn lowest_fitting_record_wins() {
    let entries = vec![
        free_record(BASE, 16),
        free_record(BASE + 100, 64),
        free_record(BASE + 300, 64),
        free_record(BASE + 500, 1000),
    ];
    let mut list = BlockList::from_parts(Segment::new(BASE + 2000, 0x100_0000), 4, entries);
    assert!(list.in_order());
    assert_eq!(list.allocate(64, 1), Ok(BASE + 100));
    assert_eq!(list.allocate(64, 1), Ok(BASE + 300));
    assert_eq!(list.allocate(64, 1), Ok(BASE + 500));
    assert_eq!(list.allocate(16, 1), Ok(BASE));
    assert_eq!(list.segment().end, BASE + 2000);
    assert!(list.in_order());
}

#[test]
fn alignment_can_rule_a_record_out() {
    let entries = vec![free_record(BASE + 1, 64), free_record(BASE + 128, 64)];
    let mut list = BlockList::from_parts(Segment::new(BASE + 2000, 0x100_0000), 2, entries);
    // The first record has 64 bytes, but only 49 from the next multiple of 16.
    assert_eq!(list.allocate(50, 16), Ok(BASE + 128));
    assert_eq!(list.allocate(49, 16), Ok(BASE + 16));
    assert_eq!(
        records(&list),
        vec![free_record(BASE + 1, 15), free_record(BASE + 178, 14)]
    );
    assert!(list.in_order());
}

#[test]
fn split_leaves_padding_and_rest() {
    let entries = vec![free_record(BASE + 1, 100)];
    let mut list = BlockList::from_parts(Segment::new(BASE + 2000, 0x100_0000), 1, entries);
    assert_eq!(list.allocate(10, 8), Ok(BASE + 8));
    assert_eq!(
        records(&list),
        vec![free_record(BASE + 1, 7), free_record(BASE + 18, 83)]
    );
    assert_eq!(list.capacity(), 4);
    assert!(list.in_order());
}

#[test]
fn used_up_record_stays_as_a_placeholder() {
    let mut list = heap();
    let a = list.allocate(16, 1).unwrap();
    let b = list.allocate(184, 1).unwrap();
    assert_eq!((a, b), (BASE, BASE + 16));
    assert_eq!(records(&list), vec![free_record(BASE, 0), placeholder(BASE + 16, 184)]);
    assert!(free_records(&list).is_empty());
    assert!(list.in_order());
}

#[test]
fn insertion_takes_the_slot_of_a_placeholder() {
    let mut list = heap();
    let a = list.allocate(16, 1).unwrap();
    let b = list.allocate(184, 1).unwrap();
    list.free(Block { address: a, size: 16 });
    assert_eq!(records(&list), vec![free_record(BASE, 16), placeholder(BASE + 16, 184)]);
    assert_eq!(list.capacity(), 2);
    list.free(Block { address: b, size: 184 });
    assert_eq!(records(&list), vec![free_record(BASE, 200), placeholder(BASE + 16, 184)]);
    assert!(list.in_order());
}

#[test]
fn insertion_moves_only_the_records_before_the_placeholder() {
    let entries = vec![
        free_record(BASE + 10, 10),
        free_record(BASE + 30, 10),
        placeholder(BASE + 50, 10),
        free_record(BASE + 70, 10),
    ];
    let mut list = BlockList::from_parts(Segment::new(BASE + 100, 0x100_0000), 4, entries);
    list.insert(0, free_record(BASE, 5));
    assert_eq!(
        records(&list),
        vec![
            free_record(BASE, 5),
            free_record(BASE + 10, 10),
            free_record(BASE + 30, 10),
            free_record(BASE + 70, 10),
        ]
    );
    assert_eq!(list.capacity(), 4);
    assert!(list.in_order());
}

#[test]
fn insertion_without_a_placeholder_makes_room() {
    let entries = vec![placeholder(BASE, 10), free_record(BASE + 30, 10)];
    let mut list = BlockList::from_parts(Segment::new(BASE + 100, 0x100_0000), 2, entries);
    list.insert(1, free_record(BASE + 12, 4));
    assert_eq!(
        records(&list),
        vec![placeholder(BASE, 10), free_record(BASE + 12, 4), free_record(BASE + 30, 10)]
    );
    assert_eq!(list.capacity(), 6);
    assert!(list.in_order());
}

#[test]
fn push_appends_or_joins() {
    let mut list = BlockList::new(Segment::new(BASE + 100, 0x100_0000));
    list.push(free_record(BASE, 10));
    assert_eq!(list.capacity(), 2);
    list.push(free_record(BASE + 20, 10));
    list.push(free_record(BASE + 30, 10));
    assert_eq!(records(&list), vec![free_record(BASE, 10), free_record(BASE + 20, 20)]);
    assert!(list.in_order());
}

#[test]
fn push_of_an_empty_block_appends_it() {
    let mut list = BlockList::new(Segment::new(BASE + 100, 0x100_0000));
    list.push(free_record(BASE, 0));
    assert_eq!(records(&list), vec![free_record(BASE, 0)]);
    assert_eq!(list.capacity(), 2);
    list.push(free_record(BASE + 10, 0));
    assert_eq!(records(&list), vec![free_record(BASE, 0), free_record(BASE + 10, 0)]);
    list.push(free_record(BASE + 20, 8));
    list.push(free_record(BASE + 28, 0));
    assert_eq!(list.len(), 4);
    assert_eq!(list.entry(3), free_record(BASE + 28, 0));
    assert_eq!(list.capacity(), 6);
    assert!(free_records(&list) == vec![Block { address: BASE + 20, size: 8 }]);
    assert!(list.in_order());
}

#[test]
fn push_takes_the_slot_of_a_placeholder_at_its_address() {
    let mut list = BlockList::new(Segment::new(BASE + 100, 0x100_0000));
    list.push(free_record(BASE, 0));
    list.push(free_record(BASE, 10));
    assert_eq!(records(&list), vec![free_record(BASE, 10)]);
    list.push(free_record(BASE + 10, 0));
    list.push(free_record(BASE + 10, 5));
    assert_eq!(records(&list), vec![free_record(BASE, 15), free_record(BASE + 10, 0)]);
    assert!(list.in_order());
}

#[test]
fn push_joins_across_placeholders_at_the_end() {
    let entries = vec![free_record(BASE, 10), placeholder(BASE + 4, 2), placeholder(BASE + 9, 0)];
    let mut list = BlockList::from_parts(Segment::new(BASE + 100, 0x100_0000), 3, entries);
    list.push(free_record(BASE + 10, 5));
    assert_eq!(
        records(&list),
        vec![free_record(BASE, 15), placeholder(BASE + 4, 2), placeholder(BASE + 9, 0)]
    );
    list.push(free_record(BASE + 20, 5));
    assert_eq!(list.len(), 4);
    assert_eq!(list.entry(3), free_record(BASE + 20, 5));
    assert_eq!(list.capacity(), 8);
    assert!(list.in_order());
}

#[test]
fn a_copy_of_the_list_is_a_list_of_its_own() {
    let mut list = heap();
    let a = list.allocate(10, 1).unwrap();
    let copy = list.clone();
    list.free(Block { address: a, size: 10 });
    assert_eq!(records(&copy), vec![free_record(BASE, 0), free_record(BASE + 10, 190)]);
    assert_eq!(records(&list), vec![free_record(BASE, 200), placeholder(BASE + 10, 190)]);
    assert_eq!(copy.segment(), list.segment());
}

#[test]
fn search_and_find() {
    let entries = vec![
        free_record(BASE + 10, 10),
        placeholder(BASE + 30, 10),
        free_record(BASE + 50, 10),
    ];
    let list = BlockList::from_parts(Segment::new(BASE + 100, 0x100_0000), 3, entries);
    assert_eq!(list.search(&Block::new(BASE + 30, 1)), Ok(1));
    assert_eq!(list.search(&Block::new(BASE + 50, 99)), Ok(2));
    assert_eq!(list.search(&Block::new(BASE, 1)), Err(0));
    assert_eq!(list.search(&Block::new(BASE + 31, 1)), Err(2));
    assert_eq!(list.search(&Block::new(BASE + 99, 1)), Err(3));
    assert_eq!(list.find(&Block::new(BASE + 10, 1)), 0);
    assert_eq!(list.find(&Block::new(BASE + 11, 1)), 1);
    assert_eq!(list.find(&Block::new(BASE + 99, 1)), 3);
    let empty = heap();
    assert_eq!(empty.search(&Block::new(5, 5)), Err(0));
}

#[test]
fn free_between_two_free_records_joins_all_three() {
    let mut list = heap();
    let a = list.allocate(10, 1).unwrap();
    let b = list.allocate(10, 1).unwrap();
    let c = list.allocate(10, 1).unwrap();
    assert_eq!((a, b, c), (BASE, BASE + 10, BASE + 20));
    list.free(Block { address: a, size: 10 });
    assert_eq!(
        records(&list),
        vec![free_record(BASE, 10), free_record(BASE + 30, 170)]
    );
    list.free(Block { address: c, size: 10 });
    assert_eq!(
        records(&list),
        vec![free_record(BASE, 10), free_record(BASE + 20, 180)]
    );
    list.free(Block { address: b, size: 10 });
    assert_eq!(free_records(&list), vec![Block { address: BASE, size: 200 }]);
    assert!(list.in_order());
}

#[test]
fn adjacent_blocks_merge_in_either_order() {
    for first_low in [true, false] {
        let mut list = heap();
        let guard_low = list.allocate(8, 1).unwrap();
        let a = list.allocate(24, 1).unwrap();
        let b = list.allocate(40, 1).unwrap();
        let guard_high = list.allocate(128, 1).unwrap();
        assert_eq!((guard_low, a, b, guard_high), (BASE, BASE + 8, BASE + 32, BASE + 72));
        assert!(free_records(&list).is_empty());
        let low = Block { address: a, size: 24 };
        let high = Block { address: b, size: 40 };
        if first_low {
            list.free(low);
            list.free(high);
        } else {
            list.free(high);
            list.free(low);
        }
        assert_eq!(free_records(&list), vec![Block { address: a, size: 64 }]);
        assert!(list.in_order());
    }
}

#[test]
fn free_of_an_empty_block_changes_nothing() {
    let mut list = heap();
    let a = list.allocate(10, 1).unwrap();
    let before = records(&list);
    list.free(Block { address: a + 3, size: 0 });
    assert_eq!(records(&list), before);
}

#[test]
fn free_joins_across_placeholders() {
    let entries = vec![
        free_record(BASE, 10),
        placeholder(BASE + 4, 0),
        placeholder(BASE + 10, 6),
        placeholder(BASE + 12, 0),
        free_record(BASE + 20, 10),
    ];
    let mut list = BlockList::from_parts(Segment::new(BASE + 100, 0x100_0000), 5, entries);
    assert!(list.in_order());
    assert!(list.is_live(&Block::new(BASE + 10, 10)));
    list.free(Block::new(BASE + 10, 10));
    assert_eq!(free_records(&list), vec![Block { address: BASE, size: 30 }]);
    assert_eq!(list.len(), 5);
    assert!(list.in_order());
}

#[test]
fn free_joins_a_record_behind_placeholders() {
    let entries = vec![
        free_record(BASE, 5),
        placeholder(BASE + 10, 6),
        placeholder(BASE + 12, 0),
        free_record(BASE + 20, 10),
    ];
    let mut list = BlockList::from_parts(Segment::new(BASE + 100, 0x100_0000), 4, entries);
    list.free(Block::new(BASE + 10, 10));
    assert_eq!(
        records(&list),
        vec![
            free_record(BASE, 5),
            free_record(BASE + 10, 20),
            placeholder(BASE + 12, 0),
            placeholder(BASE + 20, 10),
        ]
    );
    assert!(list.in_order());
}

#[test]
fn zero_sized_allocation_takes_nothing() {
    let mut list = heap();
    assert_eq!(list.allocate(0, 4), Ok(BASE));
    assert_eq!(records(&list), vec![free_record(BASE, 200)]);
    assert_eq!(list.allocate(0, 4), Ok(BASE));
    assert_eq!(records(&list), vec![free_record(BASE, 200)]);
    assert_eq!(list.segment().end, BASE + 200);
    assert!(list.in_order());
}

#[test]
fn allocation_fails_when_the_segment_cannot_grow() {
    let mut list = BlockList::new(Segment::new(BASE, BASE + 199));
    assert_eq!(
        list.allocate(10, 1),
        Err(AllocError::SegmentExhausted(BrkError { handle: BASE }))
    );
    assert_eq!(list.len(), 0);
    assert_eq!(list.segment(), Segment { end: BASE, limit: BASE + 199 });
    list.raise_limit(BASE + 200);
    assert_eq!(list.allocate(10, 1), Ok(BASE));
    assert_eq!(list.segment().end, BASE + 200);
}

#[test]
fn allocation_fails_when_padding_does_not_fit() {
    let mut list = BlockList::new(Segment::new(BASE + 1, BASE + 201));
    assert_eq!(
        list.allocate(10, 2),
        Err(AllocError::SegmentExhausted(BrkError { handle: BASE + 1 }))
    );
    assert_eq!(list.allocate(10, 1), Ok(BASE + 1));
}

#[test]
fn allocation_of_a_huge_size_fails() {
    let mut list = heap();
    assert_eq!(list.allocate(usize::MAX, 1), Err(AllocError::SizeOverflow));
    assert_eq!(list.allocate(usize::MAX - 499, 1), Err(AllocError::SizeOverflow));
    assert_eq!(
        list.allocate(usize::MAX - 500, 1),
        Err(AllocError::SegmentExhausted(BrkError { handle: BASE }))
    );
    assert_eq!(
        list.alloc_new(usize::MAX - 500, 4096),
        Err(AllocError::SegmentExhausted(BrkError { handle: BASE }))
    );
    assert_eq!(list.len(), 0);
    assert!(list.in_order());
}

#[test]
fn alloc_new_grows_even_when_a_record_fits() {
    let mut list = heap();
    assert_eq!(list.allocate(10, 1), Ok(BASE));
    assert_eq!(list.alloc_new(10, 1), Ok(BASE + 200));
    assert_eq!(list.segment().end, BASE + 400);
    assert_eq!(
        records(&list),
        vec![
            free_record(BASE, 0),
            free_record(BASE + 10, 190),
            free_record(BASE + 200, 0),
            free_record(BASE + 210, 190),
        ]
    );
    assert!(list.in_order());
}

#[test]
fn alloc_new_joins_padding_to_a_free_record_at_the_end() {
    let entries = vec![free_record(BASE, 3)];
    let mut list = BlockList::from_parts(Segment::new(BASE + 3, 0x100_0000), 1, entries);
    assert_eq!(list.alloc_new(100, 8), Ok(BASE + 8));
    assert_eq!(
        records(&list),
        vec![free_record(BASE, 8), free_record(BASE + 108, 100)]
    );
    assert_eq!(list.segment().end, BASE + 3 + 5 + 200);
    assert!(list.in_order());
}

#[test]
fn realloc_grows_into_the_free_record_behind() {
    let mut list = heap();
    let a = list.allocate(10, 1).unwrap();
    let b = list.allocate(10, 1).unwrap();
    assert_eq!((a, b), (BASE, BASE + 10));
    let r = list.realloc(Block { address: b, size: 10 }, 15, 1);
    assert_eq!(r, Ok(Resized { address: b, copy: 0 }));
    assert_eq!(records(&list), vec![free_record(BASE, 0), free_record(BASE + 25, 175)]);
    assert_eq!(list.segment().end, BASE + 200);
    assert!(list.in_order());
}

#[test]
fn growth_in_place_that_uses_the_record_up_leaves_a_placeholder_behind_the_block() {
    let entries = vec![placeholder(100, 10), free_record(110, 10)];
    let mut list = BlockList::from_parts(Segment::new(1000, 0x100_0000), 2, entries);
    assert!(list.in_order());
    assert!(list.realloc_inplace(Block { address: 100, size: 10 }, 20));
    assert_eq!(records(&list), vec![placeholder(100, 10), placeholder(120, 0)]);
    assert_eq!((list.len(), list.capacity()), (2, 2));
    assert!(list.in_order());
}

#[test]
fn growth_in_place_moves_the_start_of_the_record_behind() {
    let entries = vec![free_record(110, 10), free_record(200, 10)];
    let mut list = BlockList::from_parts(Segment::new(1000, 0x100_0000), 2, entries);
    assert!(list.realloc_inplace(Block { address: 100, size: 10 }, 14));
    assert_eq!(records(&list), vec![free_record(114, 6), free_record(200, 10)]);
    assert!(list.realloc_inplace(Block { address: 100, size: 14 }, 14));
    assert_eq!(records(&list), vec![free_record(114, 6), free_record(200, 10)]);
    assert!(!list.realloc_inplace(Block { address: 100, size: 14 }, 21));
    assert_eq!(records(&list), vec![free_record(114, 6), free_record(200, 10)]);
    assert_eq!((list.len(), list.capacity()), (2, 2));
    assert!(list.in_order());
}

#[test]
fn growth_in_place_keeps_the_order_when_a_record_is_in_the_way() {
    // A record starts at the new start already: the slot keeps the old start.
    let entries = vec![free_record(110, 10), placeholder(120, 0), free_record(200, 10)];
    let mut list = BlockList::from_parts(Segment::new(1000, 0x100_0000), 3, entries);
    assert!(list.realloc_inplace(Block { address: 100, size: 10 }, 20));
    assert_eq!(
        records(&list),
        vec![placeholder(110, 0), placeholder(120, 0), free_record(200, 10)]
    );
    assert!(list.in_order());
    // What is left of the record goes behind the record in the way.
    let entries = vec![free_record(110, 10), placeholder(112, 0), free_record(200, 10)];
    let mut list = BlockList::from_parts(Segment::new(1000, 0x100_0000), 3, entries);
    assert!(list.realloc_inplace(Block { address: 100, size: 10 }, 14));
    assert_eq!(
        records(&list),
        vec![placeholder(110, 0), placeholder(112, 0), free_record(114, 6), free_record(200, 10)]
    );
    assert_eq!(list.capacity(), 8);
    assert!(list.in_order());
}

#[test]
fn growth_in_place_up_to_the_end_of_the_segment_leaves_a_placeholder_there() {
    let entries = vec![free_record(110, 10)];
    let mut list = BlockList::from_parts(Segment::new(120, 0x100_0000), 1, entries);
    assert!(list.realloc_inplace(Block { address: 100, size: 10 }, 20));
    assert_eq!(records(&list), vec![placeholder(120, 0)]);
    assert!(list.in_order());
    // The next growth of the segment starts at the placeholder and takes its slot.
    assert_eq!(list.alloc_new(0, 1), Ok(120));
    assert_eq!(records(&list), vec![free_record(120, 200)]);
    assert!(list.in_order());
}

#[test]
fn realloc_that_uses_up_the_last_record_and_the_growth_behind_it() {
    let mut list = heap();
    let a = list.allocate(10, 1).unwrap();
    let r = list.realloc(Block { address: a, size: 10 }, 200, 1);
    assert_eq!(r, Ok(Resized { address: a, copy: 0 }));
    assert_eq!(records(&list), vec![free_record(BASE, 0), placeholder(BASE + 200, 0)]);
    assert!(list.in_order());
    assert_eq!(list.allocate(8, 8), Ok(BASE + 200));
    assert_eq!(
        records(&list),
        vec![free_record(BASE, 0), free_record(BASE + 200, 0), free_record(BASE + 208, 192)]
    );
    assert!(list.in_order());
}

#[test]
fn nothing_is_resized_in_place_without_a_free_record_behind() {
    let mut list = BlockList::new(Segment::new(2000, 0x100_0000));
    assert!(!list.realloc_inplace(Block { address: 1000, size: 200 }, 100));
    assert!(!list.realloc_inplace(Block { address: 1000, size: 200 }, 200));
    assert!(!list.realloc_inplace(Block { address: 1000, size: 200 }, 300));
    assert_eq!((list.len(), list.capacity()), (0, 0));
    let entries = vec![placeholder(1200, 50), free_record(1201, 50)];
    let mut list = BlockList::from_parts(Segment::new(2000, 0x100_0000), 2, entries.clone());
    assert!(!list.realloc_inplace(Block { address: 1000, size: 200 }, 100));
    assert!(!list.realloc_inplace(Block { address: 1000, size: 200 }, 201));
    assert_eq!(records(&list), entries);
}

#[test]
fn realloc_shrinks_in_place_into_the_record_behind() {
    let mut list = heap();
    let a = list.allocate(10, 1).unwrap();
    assert_eq!(records(&list), vec![free_record(BASE, 0), free_record(BASE + 10, 190)]);
    let r = list.realloc(Block { address: a, size: 10 }, 4, 1);
    assert_eq!(r, Ok(Resized { address: a, copy: 0 }));
    // The record behind the block starts where the block now ends.
    assert_eq!(records(&list), vec![free_record(BASE, 0), free_record(BASE + 4, 196)]);
    let r = list.realloc(Block { address: a, size: 4 }, 4, 1);
    assert_eq!(r, Ok(Resized { address: a, copy: 0 }));
    assert_eq!(records(&list), vec![free_record(BASE, 0), free_record(BASE + 4, 196)]);
    assert_eq!(list.segment().end, BASE + 200);
    assert!(list.in_order());
}

#[test]
fn realloc_moves_a_block_that_shrinks_without_a_free_record_behind() {
    let mut list = heap();
    let a = list.allocate(10, 1).unwrap();
    let b = list.allocate(10, 1).unwrap();
    assert_eq!((a, b), (BASE, BASE + 10));
    let r = list.realloc(Block { address: a, size: 10 }, 4, 1);
    assert_eq!(r, Ok(Resized { address: BASE + 20, copy: 4 }));
    assert_eq!(records(&list), vec![free_record(BASE, 10), free_record(BASE + 24, 176)]);
    // A block that keeps its size moves as well.
    let r = list.realloc(Block { address: b, size: 10 }, 10, 1);
    assert_eq!(r, Ok(Resized { address: BASE, copy: 10 }));
    assert_eq!(
        records(&list),
        vec![placeholder(BASE, 10), free_record(BASE + 10, 10), free_record(BASE + 24, 176)]
    );
    assert!(list.in_order());
}

#[test]
fn realloc_moves_a_block_that_cannot_grow() {
    let mut list = heap();
    let a = list.allocate(10, 1).unwrap();
    let b = list.allocate(10, 1).unwrap();
    assert_eq!((a, b), (BASE, BASE + 10));
    let r = list.realloc(Block { address: a, size: 10 }, 20, 1);
    assert_eq!(r, Ok(Resized { address: BASE + 20, copy: 10 }));
    assert_eq!(
        records(&list),
        vec![free_record(BASE, 10), free_record(BASE + 40, 160)]
    );
    assert!(list.in_order());
}

#[test]
fn realloc_does_not_grow_into_a_record_that_is_too_small() {
    let mut list = heap();
    let a = list.allocate(100, 1).unwrap();
    let before = vec![free_record(BASE, 0), free_record(BASE + 100, 100)];
    assert_eq!(records(&list), before);
    assert!(!list.realloc_inplace(Block { address: a, size: 100 }, 201));
    assert_eq!(records(&list), before);
    let r = list.realloc(Block { address: a, size: 100 }, 201, 1);
    assert_eq!(r, Ok(Resized { address: BASE + 200, copy: 100 }));
    assert_eq!(list.segment().end, BASE + 200 + 402);
    assert_eq!(
        records(&list),
        vec![
            free_record(BASE, 200),
            placeholder(BASE + 100, 100),
            free_record(BASE + 200, 0),
            free_record(BASE + 401, 201),
        ]
    );
    assert!(list.in_order());
}

#[test]
fn realloc_that_fails_changes_nothing() {
    let mut list = BlockList::new(Segment::new(BASE, BASE + 300));
    let a = list.allocate(150, 1).unwrap();
    let before = records(&list);
    assert_eq!(before, vec![free_record(BASE, 0), free_record(BASE + 150, 150)]);
    let r = list.realloc(Block { address: a, size: 150 }, 301, 1);
    assert_eq!(r, Err(AllocError::SegmentExhausted(BrkError { handle: BASE + 300 })));
    assert_eq!(records(&list), before);
    assert!(list.is_live(&Block { address: a, size: 150 }));
    assert_eq!(
        list.realloc(Block { address: a, size: 150 }, usize::MAX, 1),
        Err(AllocError::SizeOverflow)
    );
}

#[test]
fn reserve_doubles_what_is_needed() {
    let mut list = heap();
    list.reserve(0);
    assert_eq!(list.capacity(), 0);
    list.reserve(3);
    assert_eq!(list.capacity(), 6);
    list.reserve(6);
    assert_eq!(list.capacity(), 6);
    list.reserve(2);
    assert_eq!(list.capacity(), 6);
    list.reserve(7);
    assert_eq!(list.capacity(), 14);
    assert_eq!(list.len(), 0);
    assert!(list.in_order());
}

#[test]
fn reserve_of_more_than_half_the_numbers_gives_all_the_room_there_is() {
    let mut list = heap();
    list.reserve(usize::MAX / 2 + 1);
    assert_eq!(list.capacity(), usize::MAX);
    list.reserve(usize::MAX);
    assert_eq!(list.capacity(), usize::MAX);
    assert_eq!(list.len(), 0);
}

#[test]
fn reserve_leaves_the_records_alone() {
    let mut list = heap();
    list.allocate(10, 1).unwrap();
    let before = records(&list);
    assert_eq!(list.capacity(), 2);
    list.reserve(2);
    assert_eq!((records(&list), list.capacity()), (before.clone(), 2));
    list.reserve(5);
    assert_eq!((records(&list), list.capacity()), (before, 10));
    assert_eq!(list.segment().end, BASE + 200);
}

#[test]
fn allocations_do_not_overlap() {
    let mut list = heap();
    let mut blocks: Vec<Block> = Vec::new();
    let sizes = [10usize, 64, 3, 500, 1, 200, 33, 7, 128, 1000, 0, 12];
    let aligns = [1usize, 8, 2, 16, 4, 64, 1, 32, 8, 4096, 4, 3];
    for round in 0..4 {
        for (k, (&size, &align)) in sizes.iter().zip(aligns.iter()).enumerate() {
            let address = list.allocate(size, align).unwrap();
            assert_eq!(address % align, 0);
            let block = Block { address, size };
            for other in &blocks {
                assert!(
                    block.size == 0
                        || other.size == 0
                        || block.end() <= other.address
                        || other.end() <= block.address
                );
            }
            assert!(list.is_live(&block));
            blocks.push(block);
            if (k + round) % 3 == 0 {
                let gone = blocks.remove((k * 7 + round) % blocks.len());
                list.free(gone);
            }
            assert!(list.in_order());
            for other in &blocks {
                assert!(list.is_live(other));
            }
        }
    }
    while let Some(block) = blocks.pop() {
        list.free(block);
        assert!(list.in_order());
    }
    let end = list.segment().end;
    assert_eq!(free_records(&list), vec![Block { address: BASE, size: end - BASE }]);
}

#[test]
fn is_live_tells_used_memory_from_free() {
    let mut list = heap();
    let a = list.allocate(10, 1).unwrap();
    assert!(list.is_live(&Block { address: a, size: 10 }));
    assert!(list.is_live(&Block { address: a + 2, size: 3 }));
    assert!(!list.is_live(&Block { address: a, size: 11 }));
    assert!(!list.is_live(&Block { address: a + 10, size: 1 }));
    assert!(list.is_live(&Block { address: a + 10, size: 0 }));
    assert!(!list.is_live(&Block { address: BASE + 199, size: 2 }));
    assert!(!list.is_live(&Block { address: BASE + 201, size: 0 }));
    assert!(!list.is_live(&Block { address: usize::MAX, size: usize::MAX }));
    assert!(list.is_live(&Block { address: 0, size: BASE }));
}

#[test]
fn check_rejects_overlapping_free_records() {
    let entries = vec![free_record(BASE, 20), free_record(BASE + 10, 20)];
    let list = BlockList::from_parts(Segment::new(BASE + 100, 0x100_0000), 2, entries);
    assert!(!list.in_order());
}

#[test]
fn check_rejects_touching_free_records() {
    let entries = vec![free_record(BASE, 10), free_record(BASE + 10, 20)];
    let list = BlockList::from_parts(Segment::new(BASE + 100, 0x100_0000), 2, entries);
    assert!(!list.in_order());
    let apart = vec![free_record(BASE, 10), free_record(BASE + 11, 20)];
    assert!(BlockList::from_parts(Segment::new(BASE + 100, 0x100_0000), 2, apart).in_order());
}

#[test]
fn check_rejects_free_records_that_touch_across_a_placeholder() {
    let entries = vec![free_record(BASE, 10), placeholder(BASE + 5, 0), free_record(BASE + 10, 20)];
    let list = BlockList::from_parts(Segment::new(BASE + 100, 0x100_0000), 3, entries);
    assert!(!list.in_order());
}

#[test]
fn check_rejects_unsorted_records() {
    let entries = vec![free_record(BASE + 50, 10), free_record(BASE, 10)];
    let list = BlockList::from_parts(Segment::new(BASE + 100, 0x100_0000), 2, entries);
    assert!(!list.in_order());
    let twice = vec![placeholder(BASE, 10), free_record(BASE, 10)];
    assert!(!BlockList::from_parts(Segment::new(BASE + 100, 0x100_0000), 2, twice).in_order());
}

#[test]
fn check_rejects_more_records_than_room() {
    let entries = vec![free_record(BASE, 10), free_record(BASE + 50, 10)];
    let list = BlockList::from_parts(Segment::new(BASE + 100, 0x100_0000), 1, entries);
    assert!(!list.in_order());
}

#[test]
fn check_rejects_records_outside_the_segment() {
    let seg = Segment::new(BASE + 100, 0x100_0000);
    let over = vec![free_record(BASE + 95, 10)];
    assert!(!BlockList::from_parts(seg, 1, over).in_order());
    let above = vec![placeholder(BASE + 101, 0)];
    assert!(!BlockList::from_parts(seg, 1, above).in_order());
    let empty_above = vec![free_record(BASE + 101, 0)];
    assert!(!BlockList::from_parts(seg, 1, empty_above).in_order());
    let at_the_end = vec![free_record(BASE + 90, 10), placeholder(BASE + 100, 0)];
    assert!(BlockList::from_parts(seg, 2, at_the_end).in_order());
    let wide = vec![free_record(BASE, usize::MAX)];
    assert!(!BlockList::from_parts(seg, 1, wide).in_order());
    let bad_segment = Segment { end: BASE + 100, limit: BASE };
    assert!(!BlockList::from_parts(bad_segment, 0, Vec::new()).in_order());
}

#[test]
fn check_accepts_free_records_without_bytes() {
    let entries = vec![
        free_record(BASE, 0),
        free_record(BASE + 10, 10),
        free_record(BASE + 20, 0),
        free_record(BASE + 25, 0),
        free_record(BASE + 30, 10),
    ];
    let list = BlockList::from_parts(Segment::new(BASE + 100, 0x100_0000), 5, entries);
    assert!(list.in_order());
    let twice = vec![free_record(BASE, 0), free_record(BASE, 10)];
    assert!(!BlockList::from_parts(Segment::new(BASE + 100, 0x100_0000), 2, twice).in_order());
}

#[test]
fn check_accepts_placeholders_inside_free_records() {
    let entries = vec![
        free_record(BASE, 50),
        placeholder(BASE + 10, 1000),
        free_record(BASE + 60, 10),
        placeholder(BASE + 99, usize::MAX),
    ];
    let list = BlockList::from_parts(Segment::new(BASE + 100, 0x100_0000), 10, entries);
    assert!(list.in_order());
}

#[test]
fn capacity_doubles_what_is_needed() {
    let mut list = heap();
    let mut blocks = Vec::new();
    for _ in 0..8 {
        blocks.push(list.allocate(16, 1).unwrap());
    }
    assert_eq!(list.capacity(), 2);
    // Free every other block: each free adds a record.
    list.free(Block { address: blocks[0], size: 16 });
    assert_eq!((list.len(), list.capacity()), (2, 2));
    list.free(Block { address: blocks[2], size: 16 });
    assert_eq!((list.len(), list.capacity()), (3, 6));
    list.free(Block { address: blocks[4], size: 16 });
    list.free(Block { address: blocks[6], size: 16 });
    assert_eq!((list.len(), list.capacity()), (5, 6));
    assert!(list.in_order());
}

#[test]
fn rest_goes_behind_a_placeholder_in_the_way() {
    let entries = vec![free_record(BASE, 100), placeholder(BASE + 10, 0)];
    let mut list = BlockList::from_parts(Segment::new(BASE + 100, 0x100_0000), 2, entries);
    assert!(list.in_order());
    assert_eq!(list.carve(0, 0, 30), BASE);
    assert_eq!(
        records(&list),
        vec![
            placeholder(BASE, 100),
            placeholder(BASE + 10, 0),
            free_record(BASE + 30, 70),
        ]
    );
    assert!(list.in_order());
}

#[test]
fn records_stay_sorted_and_apart() {
    let mut list = heap();
    let mut blocks: Vec<Block> = Vec::new();
    for step in 0usize..200 {
        if step % 5 == 3 && !blocks.is_empty() {
            let gone = blocks.remove((step * 13) % blocks.len());
            list.free(gone);
        } else if step % 7 == 6 && !blocks.is_empty() {
            let at = (step * 11) % blocks.len();
            let block = blocks[at];
            let new_size = (step * 37) % 90;
            let moved = list.realloc(block, new_size, 4).unwrap();
            blocks[at] = Block { address: moved.address, size: new_size };
        } else {
            let size = (step * 29) % 70 + 1;
            let address = list.allocate(size, 1 << (step % 5)).unwrap();
            blocks.push(Block { address, size });
        }
        let all = list.as_slice();
        assert_eq!(all.len(), list.len());
        assert!(all.len() <= list.capacity());
        for pair in all.windows(2) {
            assert!(pair[0].block.address < pair[1].block.address);
        }
        let free = free_records(&list);
        for pair in free.windows(2) {
            assert!(pair[0].end() < pair[1].address);
        }
        for record in &free {
            assert!(record.size > 0);
            assert!(record.end() <= list.segment().end);
            for block in &blocks {
                assert!(!record.overlaps(block));
            }
        }
        for (k, block) in blocks.iter().enumerate() {
            for other in &blocks[k + 1..] {
                assert!(!block.overlaps(other));
            }
        }
    }
}

#[test]
fn realloc_keeps_the_content_of_a_block() {
    let mut list = heap();
    let mut memory = vec![0u8; 4096];
    let a = list.allocate(10, 1).unwrap();
    let _b = list.allocate(10, 1).unwrap();
    for k in 0..10 {
        memory[a - BASE + k] = 0xA0 + k as u8;
    }
    // The block cannot grow where it is: it moves, and its bytes with it.
    let moved = list.realloc(Block { address: a, size: 10 }, 30, 8).unwrap();
    assert_ne!(moved.address, a);
    assert_eq!(moved.address % 8, 0);
    assert_eq!(moved.copy, 10);
    memory.copy_within(a - BASE..a - BASE + moved.copy, moved.address - BASE);
    for k in 0..10 {
        assert_eq!(memory[moved.address - BASE + k], 0xA0 + k as u8);
    }
    // It shrinks where it is: nothing has to be copied.
    let shrunk = list.realloc(Block { address: moved.address, size: 30 }, 6, 8).unwrap();
    assert_eq!(shrunk, Resized { address: moved.address, copy: 0 });
    for k in 0..6 {
        assert_eq!(memory[shrunk.address - BASE + k], 0xA0 + k as u8);
    }
    assert!(list.in_order());
}

#[test]
fn shortfall_tells_what_the_segment_lacks() {
    let list = BlockList::new(Segment::new(BASE + 3, BASE + 3));
    assert_eq!(list.shortfall(64, 8), Some(205));
    assert_eq!(list.shortfall(64, 1), Some(200));
    assert_eq!(list.shortfall(1000, 4096), Some(1500 + 4093));
    assert_eq!(list.shortfall(usize::MAX - 500, 1), Some(usize::MAX));
    assert_eq!(list.shortfall(usize::MAX - 500, 2), None);
    assert_eq!(list.shortfall(usize::MAX - 499, 1), None);
    let roomy = BlockList::new(Segment::new(BASE + 3, BASE + 103));
    assert_eq!(roomy.shortfall(64, 8), Some(105));
    assert_eq!(roomy.shortfall(0, 1), Some(100));
    let wide = BlockList::new(Segment::new(BASE + 3, BASE + 208));
    assert_eq!(wide.shortfall(64, 8), Some(0));
    assert_eq!(wide.shortfall(64, 16), Some(8));
}

#[test]
fn raising_the_limit_by_the_shortfall_lets_the_allocation_pass() {
    let mut list = BlockList::new(Segment::new(BASE + 3, BASE + 50));
    assert!(list.allocate(64, 8).is_err());
    let missing = list.shortfall(64, 8).unwrap();
    assert_eq!(missing, 205 - 47);
    list.raise_limit(BASE + 50 + missing - 1);
    assert!(list.allocate(64, 8).is_err());
    list.raise_limit(BASE + 50 + missing);
    assert_eq!(list.shortfall(64, 8), Some(0));
    assert_eq!(list.allocate(64, 8), Ok(BASE + 8));
    assert_eq!(list.segment(), Segment { end: BASE + 208, limit: BASE + 208 });
}

#[test]
fn check_passes_over_a_list_in_order() {
    let mut list = heap();
    list.check();
    let a = list.allocate(10, 1).unwrap();
    assert!(list.in_order());
    list.check();
    list.free(Block { address: a, size: 10 });
    assert!(list.in_order());
    list.check();
    assert_eq!(records(&list), vec![free_record(BASE, 200), placeholder(BASE + 10, 190)]);
}

#[test]
fn granted_memory_raises_the_limit() {
    let mut list = BlockList::new(Segment::new(BASE, BASE + 50));
    assert!(list.granted(BASE + 50, 150));
    assert_eq!(list.segment(), Segment { end: BASE, limit: BASE + 200 });
    assert!(list.granted(BASE + 200, 0));
    assert_eq!(list.segment(), Segment { end: BASE, limit: BASE + 200 });
    assert_eq!(list.len(), 0);
    assert_eq!(list.allocate(10, 1), Ok(BASE));
    assert!(list.in_order());
}

#[test]
fn memory_that_does_not_follow_the_segment_is_turned_down() {
    let mut list = BlockList::new(Segment::new(BASE, BASE + 50));
    let before = list.segment();
    assert!(!list.granted(BASE + 51, 150));
    assert!(!list.granted(BASE + 49, 150));
    assert!(!list.granted(BASE, 150));
    assert!(!list.granted(0, 0));
    assert_eq!(list.segment(), before);
    // Memory that would end beyond the last address is turned down as well.
    assert!(!list.granted(BASE + 50, usize::MAX - BASE - 49));
    assert_eq!(list.segment(), before);
    assert!(list.granted(BASE + 50, usize::MAX - BASE - 50));
    assert_eq!(list.segment(), Segment { end: BASE, limit: usize::MAX });
}

#[test]
fn the_shortfall_granted_lets_the_allocation_pass() {
    let mut list = BlockList::new(Segment::new(BASE + 3, BASE + 50));
    assert!(list.allocate(64, 8).is_err());
    let missing = list.shortfall(64, 8).unwrap();
    assert!(list.granted(BASE + 50, missing));
    assert_eq!(list.allocate(64, 8), Ok(BASE + 8));
    assert_eq!(list.segment(), Segment { end: BASE + 208, limit: BASE + 208 });
    assert!(list.in_order());
}
