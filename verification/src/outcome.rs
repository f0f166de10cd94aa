//! What the operations of the block list return and leave behind, as
//! functions of the list before them.
use vstd::prelude::*;
use crate::block::{Block, BlockEntry};
use crate::block_list::{AllocError, BlockList, Resized};
use crate::edits::{
    advanced, carved, lemma_advanced, lemma_carved, lemma_free_bytes_below, lemma_pushed,
    lemma_released, pushed, released,
};
use crate::ranges::{
    first_fit, free_bytes, in_order, lemma_first_fit, lemma_position, position,
};
use crate::segment::{BrkError, Segment};
use crate::sizes::{canonical_size, lemma_padding_aligns, padding, BRK_MIN_EXTRA};

verus! {

impl BlockList {
    /// Some free record has room for `size` bytes at a multiple of `align`.
    pub open spec fn can_serve(&self, size: usize, align: usize) -> bool {
        first_fit(self@, 0, size as int, align as int) < self@.len()
    }

    /// The number of bytes by which the segment grows for an allocation that
    /// no free record can serve: what it takes to reach a multiple of `align`
    /// from the end of the segment, and the canonical size.
    pub open spec fn growth(&self, size: usize, align: usize) -> int {
        padding(self.top(), align as int) + canonical_size(size as int)
    }

    /// What `shortfall` returns: the part of the growth that the segment
    /// has no room for, where the growth is a size at all.
    pub open spec fn spec_shortfall(&self, size: usize, align: usize) -> Option<usize> {
        let room = self.spec_segment().limit - self.spec_segment().end;
        if size > usize::MAX - BRK_MIN_EXTRA || self.growth(size, align) > usize::MAX {
            None
        } else if self.growth(size, align) > room {
            Some((self.growth(size, align) - room) as usize)
        } else {
            Some(0)
        }
    }

    /// What `alloc_new` returns: the first multiple of `align` at or above
    /// the end of the segment, unless the size is too large or the segment
    /// cannot grow by what it takes.
    pub open spec fn grow_result(&self, size: usize, align: usize) -> Result<usize, AllocError> {
        if size > usize::MAX - BRK_MIN_EXTRA {
            Err(AllocError::SizeOverflow)
        } else if self.top() + self.growth(size, align) > self.spec_segment().limit {
            Err(AllocError::SegmentExhausted(BrkError { handle: self.spec_segment().end }))
        } else {
            Ok((self.top() + padding(self.top(), align as int)) as usize)
        }
    }

    /// The free bytes after `alloc_new`: with success the bytes by which the
    /// segment grew become free, but for the bytes allocated.
    pub open spec fn grow_free_set(&self, size: usize, align: usize) -> Set<int> {
        match self.grow_result(size, align) {
            Ok(address) => self.free_set().union(
                self.spec_segment().fresh(self.growth(size, align)),
            ).difference((Block { address, size }).range()),
            Err(_) => self.free_set(),
        }
    }

    /// The segment after `alloc_new`: with success it has grown.
    pub open spec fn grow_segment(&self, size: usize, align: usize) -> Segment {
        match self.grow_result(size, align) {
            Ok(_) => Segment {
                end: (self.top() + self.growth(size, align)) as usize,
                limit: self.spec_segment().limit,
            },
            Err(_) => self.spec_segment(),
        }
    }

    /// The records after `alloc_new`: with success the bytes skipped to reach
    /// a multiple of `align` and the bytes behind those allocated are pushed.
    pub open spec fn grow_records(&self, size: usize, align: usize) -> Seq<BlockEntry> {
        match self.grow_result(size, align) {
            Ok(address) => {
                let pad = Block {
                    address: self.spec_segment().end,
                    size: padding(self.top(), align as int) as usize,
                };
                let rest = Block {
                    address: (address + size) as usize,
                    size: (canonical_size(size as int) - size) as usize,
                };
                pushed(pushed(self@, BlockEntry::available(pad)), BlockEntry::available(rest))
            },
            Err(_) => self@,
        }
    }

    /// The records after `allocate`: the bytes are carved out of the record
    /// that serves the request, at its first multiple of `align`; without
    /// such a record the records are those after `alloc_new`.
    pub open spec fn alloc_records(&self, size: usize, align: usize) -> Seq<BlockEntry> {
        if self.can_serve(size, align) {
            let n = first_fit(self@, 0, size as int, align as int);
            carved(self@, n, padding(self@[n].block.address as int, align as int), size as int)
        } else {
            self.grow_records(size, align)
        }
    }

    /// What `allocate` returns.  Of the free records with room for the request
    /// the one at the lowest address serves it, at the first multiple of
    /// `align` in it.  If there is none, the segment grows.
    pub open spec fn alloc_result(&self, size: usize, align: usize) -> Result<usize, AllocError> {
        if self.can_serve(size, align) {
            let e = self@[first_fit(self@, 0, size as int, align as int)];
            Ok((e.block.address + padding(e.block.address as int, align as int)) as usize)
        } else {
            self.grow_result(size, align)
        }
    }

    /// The free bytes after `allocate`: with success the bytes allocated are
    /// free no longer.
    pub open spec fn alloc_free_set(&self, size: usize, align: usize) -> Set<int> {
        if self.can_serve(size, align) {
            self.free_set().difference(
                (Block { address: self.alloc_result(size, align)->Ok_0, size }).range(),
            )
        } else {
            self.grow_free_set(size, align)
        }
    }

    /// The segment after `allocate`: it grows only if no free record can serve
    /// the request.
    pub open spec fn alloc_segment(&self, size: usize, align: usize) -> Segment {
        if self.can_serve(size, align) {
            self.spec_segment()
        } else {
            self.grow_segment(size, align)
        }
    }

    /// `block` can be resized to `new_size` bytes where it is: a free record
    /// starts where the block ends, and the two together hold `new_size`
    /// bytes.  Without such a record no block is resized in place, not even
    /// one that shrinks.
    pub open spec fn resizes_in_place(&self, block: Block, new_size: usize) -> bool {
        exists|i: int|
            0 <= i < self@.len() && (#[trigger] self@[i]).free && self@[i].block.address
                == block.spec_end() && block.size + self@[i].block.size >= new_size
    }

    /// The free bytes after `realloc_inplace`: where the block is resized, all
    /// of its old bytes that are not among its new ones are free, and none of
    /// its new ones is.
    pub open spec fn resize_free_set(&self, block: Block, new_size: usize) -> Set<int> {
        if self.resizes_in_place(block, new_size) {
            self.free_set().union(block.range()).difference(
                (Block { address: block.address, size: new_size }).range(),
            )
        } else {
            self.free_set()
        }
    }

    /// The records after `realloc_inplace`.  A block that is resized in place
    /// and shrinks frees the bytes that it loses: the record behind it then
    /// starts where the block now ends.  One that grows takes the bytes that
    /// it gains from the start of the record behind it.
    pub open spec fn resize_records(&self, block: Block, new_size: usize) -> Seq<BlockEntry> {
        if !self.resizes_in_place(block, new_size) {
            self@
        } else if new_size <= block.size {
            released(
                self@,
                Block {
                    address: (block.address + new_size) as usize,
                    size: (block.size - new_size) as usize,
                },
            )
        } else {
            advanced(self@, position(self@, block.spec_end()), new_size - block.size)
        }
    }

    /// The records after `realloc`: those after the resize in place, or else
    /// those after the allocation of the new block and the release of the old
    /// one.
    pub open spec fn realloc_records(&self, block: Block, new_size: usize, align: usize) -> Seq<
        BlockEntry,
    > {
        if self.resizes_in_place(block, new_size) {
            self.resize_records(block, new_size)
        } else if self.alloc_result(new_size, align) is Ok {
            released(self.alloc_records(new_size, align), block)
        } else {
            self@
        }
    }

    /// What `realloc` returns: the block's own address where it can be
    /// resized in place, else what `allocate` returns for the new size.
    pub open spec fn realloc_result(&self, block: Block, new_size: usize, align: usize) -> Result<
        Resized,
        AllocError,
    > {
        if self.resizes_in_place(block, new_size) {
            Ok(Resized { address: block.address, copy: 0 })
        } else {
            match self.alloc_result(new_size, align) {
                Ok(address) => Ok(
                    Resized {
                        address,
                        copy: if block.size < new_size {
                            block.size
                        } else {
                            new_size
                        },
                    },
                ),
                Err(e) => Err(e),
            }
        }
    }

    /// The free bytes after `realloc`.  A block that moves leaves its old
    /// bytes free.
    pub open spec fn realloc_free_set(&self, block: Block, new_size: usize, align: usize) -> Set<
        int,
    > {
        if self.resizes_in_place(block, new_size) {
            self.resize_free_set(block, new_size)
        } else if self.alloc_result(new_size, align) is Ok {
            self.alloc_free_set(new_size, align).union(block.range())
        } else {
            self.free_set()
        }
    }

    /// The segment after `realloc`: it grows only if the block has to move
    /// and no free record can take it.
    pub open spec fn realloc_segment(&self, block: Block, new_size: usize, align: usize) -> Segment {
        if self.resizes_in_place(block, new_size) {
            self.spec_segment()
        } else {
            self.alloc_segment(new_size, align)
        }
    }
}

/// The records and the segment that `alloc_new` leaves behind are in order,
/// and the records say what the contract of `alloc_new` says is free.  Every
/// placeholder among them was there before, or is the record of the bytes
/// skipped.
pub proof fn lemma_grow(list: BlockList, size: usize, align: usize)
    requires
        list.wf(),
        align > 0,
    ensures
        list.grow_segment(size, align).wf(),
        in_order(list.grow_records(size, align), list.grow_segment(size, align).end as int),
        free_bytes(list.grow_records(size, align)) == list.grow_free_set(size, align),
        list@.len() <= list.grow_records(size, align).len(),
        list.grow_result(size, align) is Ok ==> forall|j: int|
            0 <= j < list.grow_records(size, align).len() && !(#[trigger] list.grow_records(
                size,
                align,
            )[j]).active() ==> {
                ||| j < list@.len() && list.grow_records(size, align)[j] == list@[j]
                ||| list.grow_records(size, align)[j] == BlockEntry::available(
                    Block {
                        address: list.spec_segment().end,
                        size: padding(list.top(), align as int) as usize,
                    },
                )
            },
{
    if list.grow_result(size, align) is Ok {
        let address = list.grow_result(size, align)->Ok_0;
        let top = list.grow_segment(size, align).end as int;
        let pad = BlockEntry::available(
            Block {
                address: list.spec_segment().end,
                size: padding(list.top(), align as int) as usize,
            },
        );
        let rest = BlockEntry::available(
            Block {
                address: (address + size) as usize,
                size: (canonical_size(size as int) - size) as usize,
            },
        );
        lemma_padding_aligns(list.top(), align as int);
        lemma_free_bytes_below(list@, list.top());
        lemma_pushed(list@, top, pad);
        lemma_pushed(pushed(list@, pad), top, rest);
        assert(free_bytes(list.grow_records(size, align)) =~= list.grow_free_set(size, align));
    }
}

/// The records and the segment that `allocate` leaves behind are in order,
/// and the records say what the contract of `allocate` says is free.
pub proof fn lemma_allocate(list: BlockList, size: usize, align: usize)
    requires
        list.wf(),
        align > 0,
    ensures
        list.alloc_segment(size, align).wf(),
        in_order(list.alloc_records(size, align), list.alloc_segment(size, align).end as int),
        free_bytes(list.alloc_records(size, align)) == list.alloc_free_set(size, align),
        list@.len() <= list.alloc_records(size, align).len(),
{
    if list.can_serve(size, align) {
        let n = first_fit(list@, 0, size as int, align as int);
        lemma_first_fit(list@, 0, size as int, align as int);
        lemma_padding_aligns(list@[n].block.address as int, align as int);
        lemma_carved(
            list@,
            list.top(),
            n,
            padding(list@[n].block.address as int, align as int),
            size as int,
        );
    } else {
        lemma_grow(list, size, align);
    }
}

/// The records that `realloc_inplace` leaves behind are in order, and say
/// what its contract says is free.
pub proof fn lemma_resize(list: BlockList, block: Block, new_size: usize)
    requires
        list.wf(),
        list.live(block),
    ensures
        in_order(list.resize_records(block, new_size), list.top()),
        free_bytes(list.resize_records(block, new_size)) == list.resize_free_set(block, new_size),
        list@.len() <= list.resize_records(block, new_size).len(),
        list.resizes_in_place(block, new_size) ==> {
            let i = position(list@, block.spec_end());
            &&& 0 <= i < list@.len()
            &&& list@[i].free
            &&& list@[i].block.address == block.spec_end()
            &&& block.size + list@[i].block.size >= new_size
        },
{
    if list.resizes_in_place(block, new_size) {
        let i = choose|i: int|
            0 <= i < list@.len() && (#[trigger] list@[i]).free && list@[i].block.address
                == block.spec_end() && block.size + list@[i].block.size >= new_size;
        lemma_position(list@, 0, i, block.spec_end());
        if new_size <= block.size {
            let tail = Block {
                address: (block.address + new_size) as usize,
                size: (block.size - new_size) as usize,
            };
            lemma_released(list@, list.top(), tail);
        } else {
            lemma_advanced(list@, list.top(), i, new_size - block.size);
            assert forall|x: int| block.spec_end() <= x < block.address + new_size implies
                list.free_set().contains(x) by {
                assert(list@[i].covers(x));
            }
        }
        assert(free_bytes(list.resize_records(block, new_size)) =~= list.resize_free_set(
            block,
            new_size,
        ));
    }
}

/// The records and the segment that `realloc` leaves behind are in order,
/// and the records say what the contract of `realloc` says is free.
pub proof fn lemma_realloc(list: BlockList, block: Block, new_size: usize, align: usize)
    requires
        list.wf(),
        list.live(block),
        align > 0,
    ensures
        list.realloc_segment(block, new_size, align).wf(),
        in_order(
            list.realloc_records(block, new_size, align),
            list.realloc_segment(block, new_size, align).end as int,
        ),
        free_bytes(list.realloc_records(block, new_size, align)) == list.realloc_free_set(
            block,
            new_size,
            align,
        ),
        list@.len() <= list.realloc_records(block, new_size, align).len(),
{
    if list.resizes_in_place(block, new_size) {
        lemma_resize(list, block, new_size);
    } else if list.alloc_result(new_size, align) is Ok {
        lemma_allocate(list, new_size, align);
        lemma_free_bytes_below(list@, list.top());
        lemma_padding_aligns(list.top(), align as int);
        lemma_released(
            list.alloc_records(new_size, align),
            list.alloc_segment(new_size, align).end as int,
            block,
        );
    }
}

} // verus!
