//! What holds of the block list over several operations.
//!
//! Each law is stated over the states before and after the operations, as
//! the contracts of the operations relate them.
use vstd::prelude::*;
use crate::block::Block;
use crate::block_list::{AllocError, BlockList, Resized};
use crate::edits::{lemma_released, released};
use crate::outcome::{lemma_allocate, lemma_grow, lemma_realloc};
use crate::ranges::{
    first_fit, free_bytes, lemma_first_fit, lemma_one_record_per_byte,
    lemma_run_in_one_record,
};
use crate::sizes::{
    capacity_for, lemma_capacity_holds, lemma_padding_aligns, lemma_padding_least, padding,
};

verus! {

/// The record at index `i` is free and holds every byte from `lo` up to `hi`.
pub open spec fn spans(list: BlockList, i: int, lo: int, hi: int) -> bool {
    &&& 0 <= i < list@.len()
    &&& list@[i].free
    &&& list@[i].block.address <= lo
    &&& hi <= list@[i].block.spec_end()
}

/// Every free byte lies below the end of the segment.
pub proof fn lemma_free_below_top(list: BlockList, x: int)
    requires
        list.wf(),
        list.free_set().contains(x),
    ensures
        0 <= x < list.top(),
{
    let i = choose|i: int| 0 <= i < list@.len() && (#[trigger] list@[i]).covers(x);
}

/// The records of a list in order are sorted: of two records, the earlier
/// starts at the lower address.  Every operation of the list keeps it in
/// order, so this holds in every state that they reach from an empty list.
pub proof fn law_sorted(list: BlockList, i: int, j: int)
    requires
        list.wf(),
        0 <= i < j < list@.len(),
    ensures
        list@[i].block.address < list@[j].block.address,
{
}

/// Two records of free bytes of a list in order neither overlap nor touch:
/// the earlier ends below the start of the later, and the byte at its end is
/// not free.
pub proof fn law_free_records_apart(list: BlockList, i: int, j: int)
    requires
        list.wf(),
        0 <= i < j < list@.len(),
        list@[i].active(),
        list@[j].active(),
    ensures
        list@[i].block.spec_end() < list@[j].block.address,
        !list.free_set().contains(list@[i].block.spec_end()),
{
    let x = list@[i].block.spec_end();
    if list.free_set().contains(x) {
        let k = choose|k: int| 0 <= k < list@.len() && (#[trigger] list@[k]).covers(x);
        assert(false);
    }
}

/// `next` is the list that one operation makes of `list`: an allocation, the
/// release of a block in use, the resize of a block in use, or a rise of the
/// limit of the segment.
pub open spec fn follows(list: BlockList, next: BlockList) -> bool {
    &&& next.spec_capacity() == capacity_for(
        list.spec_capacity(),
        list@.len() as int,
        next@.len() as int,
    )
    &&& {
        ||| exists|size: usize, align: usize|
            align > 0 && next@ == #[trigger] list.alloc_records(size, align)
                && next.spec_segment() == list.alloc_segment(size, align)
        ||| exists|block: Block|
            list.live(block) && next@ == #[trigger] released(list@, block) && next.spec_segment()
                == list.spec_segment()
        ||| exists|block: Block, new_size: usize, align: usize|
            align > 0 && list.live(block) && next@ == #[trigger] list.realloc_records(
                block,
                new_size,
                align,
            ) && next.spec_segment() == list.realloc_segment(block, new_size, align)
        ||| next@ == list@ && next.spec_segment().end == list.spec_segment().end
            && next.spec_segment().limit >= list.spec_segment().limit
    }
}

/// The lists of `states` are the states of one list over time: the first is
/// empty, and each of the others follows from the one before it.
pub open spec fn history(states: Seq<BlockList>) -> bool {
    &&& states.len() > 0
    &&& states[0]@.len() == 0
    &&& states[0].spec_segment().wf()
    &&& forall|i: int| 0 <= i < states.len() - 1 ==> follows(#[trigger] states[i], states[i + 1])
}

/// An operation on a list in order leaves a list in order.
pub proof fn lemma_follows(list: BlockList, next: BlockList)
    requires
        list.wf(),
        follows(list, next),
    ensures
        next.wf(),
{
    if exists|size: usize, align: usize|
        align > 0 && next@ == #[trigger] list.alloc_records(size, align) && next.spec_segment()
            == list.alloc_segment(size, align) {
        let (size, align) = choose|size: usize, align: usize|
            align > 0 && next@ == #[trigger] list.alloc_records(size, align)
                && next.spec_segment() == list.alloc_segment(size, align);
        lemma_allocate(list, size, align);
    } else if exists|block: Block|
        list.live(block) && next@ == #[trigger] released(list@, block) && next.spec_segment()
            == list.spec_segment() {
        let block = choose|block: Block|
            list.live(block) && next@ == #[trigger] released(list@, block) && next.spec_segment()
                == list.spec_segment();
        lemma_released(list@, list.top(), block);
    } else if exists|block: Block, new_size: usize, align: usize|
        align > 0 && list.live(block) && next@ == #[trigger] list.realloc_records(
            block,
            new_size,
            align,
        ) && next.spec_segment() == list.realloc_segment(block, new_size, align) {
        let (block, new_size, align) = choose|block: Block, new_size: usize, align: usize|
            align > 0 && list.live(block) && next@ == #[trigger] list.realloc_records(
                block,
                new_size,
                align,
            ) && next.spec_segment() == list.realloc_segment(block, new_size, align);
        lemma_realloc(list, block, new_size, align);
    }
    next.lemma_len();
    lemma_capacity_holds(list.spec_capacity(), list@.len() as int, next@.len() as int);
}

/// Every state that a list reaches from the empty list by allocations,
/// releases and resizes is in order: its records are sorted strictly
/// ascending by address, and no two of its records of free bytes overlap or
/// touch.
pub proof fn law_reachable_in_order(states: Seq<BlockList>, k: int)
    requires
        history(states),
        0 <= k < states.len(),
    ensures
        states[k].wf(),
        forall|i: int, j: int|
            0 <= i < j < states[k]@.len() ==> (#[trigger] states[k]@[i]).block.address < (
            #[trigger] states[k]@[j]).block.address,
        forall|i: int, j: int|
            0 <= i < j < states[k]@.len() && (#[trigger] states[k]@[i]).active() && (
            #[trigger] states[k]@[j]).active() ==> states[k]@[i].block.spec_end()
                < states[k]@[j].block.address,
    decreases k,
{
    if k > 0 {
        law_reachable_in_order(states, k - 1);
        lemma_follows(states[k - 1], states[k]);
    }
}

/// The bytes that `allocate` hands out were free, or lie in the part by
/// which the segment grew.  They start at a multiple of the alignment and
/// end in the segment.
pub proof fn lemma_allocated_bytes(list: BlockList, size: usize, align: usize, address: usize)
    requires
        list.wf(),
        align > 0,
        list.alloc_result(size, align) == Ok::<usize, AllocError>(address),
    ensures
        address % align == 0,
        address + size <= list.alloc_segment(size, align).end,
        list.top() <= list.alloc_segment(size, align).end,
        forall|x: int|
            address <= x < address + size ==> list.free_set().contains(x) || list.top() <= x,
        forall|x: int|
            list.alloc_free_set(size, align).contains(x) ==> list.free_set().contains(x)
                || list.top() <= x,
{
    assert forall|x: int| list.free_set().contains(x) implies 0 <= x < list.top() by {
        lemma_free_below_top(list, x);
    }
    if list.can_serve(size, align) {
        let n = first_fit(list@, 0, size as int, align as int);
        lemma_first_fit(list@, 0, size as int, align as int);
        lemma_padding_aligns(list@[n].block.address as int, align as int);
        assert forall|x: int| address <= x < address + size implies list.free_set().contains(
            x,
        ) by {
            assert(list@[n].covers(x));
        }
    } else {
        lemma_padding_aligns(list.top(), align as int);
    }
}

/// An allocation is valid: its address is a multiple of the alignment, its
/// bytes are in use afterwards, and it has no byte in common with a block
/// that was in use before, which stays in use.
pub proof fn law_allocation_validity(
    pre: BlockList,
    post: BlockList,
    size: usize,
    align: usize,
    address: usize,
    other: Block,
)
    requires
        pre.wf(),
        align > 0,
        pre.alloc_result(size, align) == Ok::<usize, AllocError>(address),
        post.free_set() == pre.alloc_free_set(size, align),
        post.spec_segment() == pre.alloc_segment(size, align),
        pre.live(other),
    ensures
        address % align == 0,
        post.live(Block { address, size }),
        post.live(other),
        other.disjoint(Block { address, size }),
{
    let taken = Block { address, size };
    other.lemma_disjoint(taken);
    lemma_allocated_bytes(pre, size, align, address);
    assert forall|x: int| pre.free_set().contains(x) implies 0 <= x < pre.top() by {
        lemma_free_below_top(pre, x);
    }
}

/// A block in use stays in use when another block, which has no byte in
/// common with it, is freed.
pub proof fn law_free_keeps_others(pre: BlockList, post: BlockList, block: Block, other: Block)
    requires
        pre.wf(),
        pre.live(block),
        pre.live(other),
        other.disjoint(block),
        post.free_set() == pre.free_set().union(block.range()),
        post.spec_segment() == pre.spec_segment(),
    ensures
        post.live(other),
{
    other.lemma_disjoint(block);
}

/// A block in use stays in use when another block, which has no byte in
/// common with it, is resized, and the resized block has no byte in common
/// with it either.
pub proof fn law_realloc_keeps_others(
    pre: BlockList,
    post: BlockList,
    block: Block,
    new_size: usize,
    align: usize,
    moved: Resized,
    other: Block,
)
    requires
        pre.wf(),
        align > 0,
        pre.live(block),
        pre.live(other),
        other.disjoint(block),
        pre.realloc_result(block, new_size, align) == Ok::<Resized, AllocError>(moved),
        post.free_set() == pre.realloc_free_set(block, new_size, align),
        post.spec_segment() == pre.realloc_segment(block, new_size, align),
    ensures
        post.live(other),
        post.live(Block { address: moved.address, size: new_size }),
        other.disjoint(Block { address: moved.address, size: new_size }),
{
    let resized = Block { address: moved.address, size: new_size };
    other.lemma_disjoint(block);
    other.lemma_disjoint(resized);
    assert forall|x: int| pre.free_set().contains(x) implies 0 <= x < pre.top() by {
        lemma_free_below_top(pre, x);
    }
    if pre.resizes_in_place(block, new_size) {
        if new_size > block.size {
            let i = choose|i: int|
                0 <= i < pre@.len() && (#[trigger] pre@[i]).free && pre@[i].block.address
                    == block.spec_end() && block.size + pre@[i].block.size >= new_size;
            assert forall|x: int| block.spec_end() <= x < block.address + new_size implies
                pre.free_set().contains(x) by {
                assert(pre@[i].covers(x));
            }
        }
    } else {
        lemma_allocated_bytes(pre, new_size, align, moved.address);
    }
}

/// The bytes of `free` have room for `size` bytes from `x` on.  A request
/// for no bytes needs a free byte at `x` or just before it.
pub open spec fn has_room(free: Set<int>, x: int, size: int) -> bool {
    &&& forall|y: int| x <= y < x + size ==> free.contains(y)
    &&& size == 0 ==> free.contains(x) || free.contains(x - 1)
}

/// Every byte from `x` up to the end of the segment is free.
pub open spec fn free_up_to_top(list: BlockList, x: int) -> bool {
    forall|y: int| x <= y < list.top() ==> list.free_set().contains(y)
}

/// Where the free bytes have room for a request at a multiple of the
/// alignment, some record can serve the request, and `allocate` returns that
/// address or a lower one.
pub proof fn lemma_room_is_served(list: BlockList, size: usize, align: usize, x: int)
    requires
        list.wf(),
        align > 0,
        0 <= x,
        x % (align as int) == 0,
        has_room(list.free_set(), x, size as int),
    ensures
        list.can_serve(size, align),
        list.alloc_result(size, align) is Ok,
        list.alloc_result(size, align)->Ok_0 <= x,
{
    let s = list@;
    let k = if size > 0 {
        lemma_run_in_one_record(s, x, x + size)
    } else if list.free_set().contains(x) {
        choose|k: int| 0 <= k < s.len() && (#[trigger] s[k]).covers(x)
    } else {
        choose|k: int| 0 <= k < s.len() && (#[trigger] s[k]).covers(x - 1)
    };
    lemma_padding_least(s[k].block.address as int, align as int, x);
    lemma_first_fit(s, 0, size as int, align as int);
    let n = first_fit(s, 0, size as int, align as int);
    lemma_padding_aligns(s[n].block.address as int, align as int);
}

/// What `allocate` returns from a record is a multiple of the alignment at
/// which the free bytes have room for the request, unless the request is for
/// no bytes and a record without bytes serves it.
pub proof fn lemma_served_has_room(list: BlockList, size: usize, align: usize)
    requires
        list.wf(),
        align > 0,
        list.can_serve(size, align),
    ensures
        list.alloc_result(size, align) is Ok,
        list.alloc_result(size, align)->Ok_0 % align == 0,
        size > 0 || list@[first_fit(list@, 0, size as int, align as int)].active() ==> has_room(
            list.free_set(),
            list.alloc_result(size, align)->Ok_0 as int,
            size as int,
        ),
{
    let s = list@;
    lemma_first_fit(s, 0, size as int, align as int);
    let n = first_fit(s, 0, size as int, align as int);
    lemma_padding_aligns(s[n].block.address as int, align as int);
    let a = s[n].block.address + padding(s[n].block.address as int, align as int);
    assert forall|y: int| a <= y < a + size implies list.free_set().contains(y) by {
        assert(s[n].covers(y));
    }
    if size == 0 && s[n].active() {
        if a < s[n].block.spec_end() {
            assert(s[n].covers(a));
        } else {
            assert(s[n].covers(a - 1));
        }
    }
}

/// The policy of `allocate`, over the free bytes alone: of the multiples of
/// the alignment at which the free bytes have room for the request, it
/// returns the lowest.  A request for no bytes may also be served at a lower
/// address, by a free record without bytes.
pub proof fn law_lowest_fit(list: BlockList, size: usize, align: usize, x: int)
    requires
        list.wf(),
        align > 0,
        list.can_serve(size, align),
        0 <= x,
        x % (align as int) == 0,
        has_room(list.free_set(), x, size as int),
    ensures
        list.alloc_result(size, align) is Ok,
        size > 0 ==> has_room(
            list.free_set(),
            list.alloc_result(size, align)->Ok_0 as int,
            size as int,
        ),
        list.alloc_result(size, align)->Ok_0 <= x,
{
    lemma_served_has_room(list, size, align);
    lemma_room_is_served(list, size, align, x);
}

/// A block that is allocated and freed at once is allocated again at the same
/// address by the next request of the same size and alignment, and without
/// growth of the segment.
///
/// This holds where a record served the first request.  Where the segment
/// grew for it, it holds unless free bytes ran up to the old end of the
/// segment from a multiple of the alignment: the freed block joins them, and
/// the next request is served from that lower address.
pub proof fn law_round_trip(
    before: BlockList,
    allocated: BlockList,
    freed: BlockList,
    size: usize,
    align: usize,
    address: usize,
)
    requires
        before.wf(),
        freed.wf(),
        align > 0,
        before.alloc_result(size, align) == Ok::<usize, AllocError>(address),
        allocated@ == before.alloc_records(size, align),
        allocated.free_set() == before.alloc_free_set(size, align),
        allocated.spec_segment() == before.alloc_segment(size, align),
        freed@ == released(allocated@, Block { address, size }),
        freed.free_set() == allocated.free_set().union((Block { address, size }).range()),
        freed.spec_segment() == allocated.spec_segment(),
        before.can_serve(size, align) || forall|x: int|
            0 <= x < before.top() && x % (align as int) == 0 ==> !#[trigger] free_up_to_top(
                before,
                x,
            ),
    ensures
        freed.can_serve(size, align),
        freed.alloc_result(size, align) == Ok::<usize, AllocError>(address),
        freed.alloc_segment(size, align) == freed.spec_segment(),
{
    assert forall|x: int| before.free_set().contains(x) implies 0 <= x < before.top() by {
        lemma_free_below_top(before, x);
    }
    if before.can_serve(size, align) {
        if size == 0 {
            // Nothing was taken and nothing given back: the records are the same.
            assert(freed@ == before@);
        } else {
            lemma_served_has_room(before, size, align);
            assert(freed.free_set() =~= before.free_set());
            lemma_room_is_served(freed, size, align, address as int);
            lemma_served_has_room(freed, size, align);
            lemma_room_is_served(
                before,
                size,
                align,
                freed.alloc_result(size, align)->Ok_0 as int,
            );
        }
    } else {
        let top = before.top();
        let fresh = before.spec_segment().fresh(before.growth(size, align));
        lemma_padding_aligns(top, align as int);
        assert(freed.free_set() =~= before.free_set().union(fresh));
        assert(has_room(freed.free_set(), address as int, size as int)) by {
            assert(fresh.contains(address as int));
        }
        lemma_room_is_served(freed, size, align, address as int);
        lemma_served_has_room(freed, size, align);
        lemma_first_fit(freed@, 0, size as int, align as int);
        lemma_first_fit(before@, 0, size as int, align as int);
        let n = first_fit(freed@, 0, size as int, align as int);
        let again = freed.alloc_result(size, align)->Ok_0 as int;
        if again < address {
            if again >= top {
                lemma_padding_least(top, align as int, again);
            }
            if size == 0 && !freed@[n].active() {
                // A record without bytes serves: it was there before, or holds
                // the bytes skipped, of which there are none.
                lemma_grow(before, size, align);
                assert(freed@ == before.grow_records(size, align));
                if n < before@.len() && freed@[n] == before@[n] {
                    assert(crate::ranges::suits(before@[n], size as int, align as int));
                }
            } else if size > 0 && again + size > top {
                assert(free_up_to_top(before, again)) by {
                    assert forall|y: int| again <= y < top implies before.free_set().contains(
                        y,
                    ) by {
                        assert(freed.free_set().contains(y));
                    }
                }
            } else {
                assert(has_room(before.free_set(), again, size as int)) by {
                    assert forall|y: int|
                        again <= y < again + size implies before.free_set().contains(y) by {
                        assert(freed.free_set().contains(y));
                    }
                    if size == 0 {
                        if freed.free_set().contains(again) {
                            assert(before.free_set().contains(again));
                        } else {
                            assert(freed.free_set().contains(again - 1));
                            assert(before.free_set().contains(again - 1));
                        }
                    }
                }
                lemma_room_is_served(before, size, align, again);
            }
        }
    }
}

/// Two blocks that touch, taken as one block.
pub open spec fn joined(first: Block, second: Block) -> Block {
    Block {
        address: if first.address < second.address { first.address } else { second.address },
        size: (first.size + second.size) as usize,
    }
}

/// Two blocks that touch, freed one after the other in either order, end
/// up in one free record that holds all their bytes: the record at the index
/// that this law returns.  No other record holds a byte of theirs, and where
/// the bytes on both sides of the two blocks are not free, the record is
/// exactly the two blocks joined.
pub proof fn law_merge(
    pre: BlockList,
    mid: BlockList,
    post: BlockList,
    first: Block,
    second: Block,
) -> (i: int)
    requires
        pre.wf(),
        post.wf(),
        pre.live(first),
        pre.live(second),
        first.size > 0,
        second.size > 0,
        first.spec_left_to(second) || second.spec_left_to(first),
        mid.free_set() == pre.free_set().union(first.range()),
        post.free_set() == mid.free_set().union(second.range()),
    ensures
        spans(post, i, joined(first, second).address as int, joined(first, second).spec_end()),
        forall|j: int, x: int|
            0 <= j < post@.len() && joined(first, second).contains(x) && (
            #[trigger] post@[j].covers(x)) ==> j == i,
        !pre.free_set().contains(joined(first, second).address - 1) && !pre.free_set().contains(
            joined(first, second).spec_end(),
        ) ==> post@[i].block == joined(first, second),
{
    let whole = joined(first, second);
    let lo = whole.address as int;
    let hi = whole.spec_end();
    assert forall|x: int| lo <= x < hi implies free_bytes(post@).contains(x) by {
        assert(first.contains(x) || second.contains(x));
    }
    let i = lemma_run_in_one_record(post@, lo, hi);
    assert forall|j: int, x: int|
        0 <= j < post@.len() && whole.contains(x) && (#[trigger] post@[j].covers(x)) implies j
        == i by {
        assert(post@[i].covers(x));
        lemma_one_record_per_byte(post@, i, j, x);
    }
    if !pre.free_set().contains(lo - 1) && !pre.free_set().contains(hi) {
        if post@[i].block.address < lo {
            assert(post@[i].covers(lo - 1));
            assert(post.free_set().contains(lo - 1));
            assert(!first.contains(lo - 1) && !second.contains(lo - 1));
        }
        if hi < post@[i].block.spec_end() {
            assert(post@[i].covers(hi));
            assert(post.free_set().contains(hi));
            assert(!first.contains(hi) && !second.contains(hi));
        }
    }
    i
}

/// A resized block keeps what it held, as far as the bookkeeping goes: it
/// either stays at its address, so that no byte moves, or it goes to memory
/// that has no byte in common with the old block, and the bytes to copy
/// there are as many as the smaller of the two sizes.
pub proof fn law_realloc_keeps_content(
    pre: BlockList,
    block: Block,
    new_size: usize,
    align: usize,
    moved: Resized,
)
    requires
        pre.wf(),
        align > 0,
        pre.live(block),
        pre.realloc_result(block, new_size, align) == Ok::<Resized, AllocError>(moved),
    ensures
        pre.resizes_in_place(block, new_size) ==> moved.address == block.address && moved.copy
            == 0,
        !pre.resizes_in_place(block, new_size) ==> {
            &&& moved.copy == if block.size < new_size { block.size } else { new_size }
            &&& block.disjoint(Block { address: moved.address, size: new_size })
            &&& moved.address + new_size <= pre.alloc_segment(new_size, align).end
        },
{
    if !pre.resizes_in_place(block, new_size) {
        block.lemma_disjoint(Block { address: moved.address, size: new_size });
        lemma_allocated_bytes(pre, new_size, align, moved.address);
    }
}

/// Once the limit of the segment has risen by the shortfall of a request,
/// the segment can grow for it: `alloc_new` succeeds, and so does
/// `allocate`.
pub proof fn law_shortfall(pre: BlockList, post: BlockList, size: usize, align: usize, bytes: usize)
    requires
        pre.wf(),
        align > 0,
        pre.spec_shortfall(size, align) == Some(bytes),
        post@ == pre@,
        post.spec_segment().end == pre.spec_segment().end,
        post.spec_segment().limit >= pre.spec_segment().limit + bytes,
    ensures
        post.grow_result(size, align) is Ok,
        post.alloc_result(size, align) is Ok,
        bytes == 0 ==> pre.grow_result(size, align) is Ok,
{
}

} // verus!
