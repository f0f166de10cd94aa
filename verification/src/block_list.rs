//! The block list: the sorted records of free memory, and the operations
//! that allocate from them and release into them.
use vstd::prelude::*;
use crate::block::{Block, BlockEntry};
use crate::segment::{BrkError, Segment};
use crate::laws::law_allocation_validity;
use crate::outcome::{lemma_grow, lemma_resize};
use crate::edits::{
    admits, advanced, carved, inserted, lemma_advanced, lemma_carved, lemma_inserted,
    lemma_placed, lemma_pushed, lemma_released, pushed, released,
};
use crate::ranges::{
    active_before, active_from, ascending, below, first_fit, free_bytes, is_position,
    lemma_clear_of_records, lemma_first_fit, lemma_next_placeholder, lemma_position,
    lemma_records_clear_of, next_placeholder, position, separated,
};
use crate::sizes::{
    aligner, canonicalize_brk, capacity_for, grown, lemma_capacity_chain, lemma_capacity_step,
    lemma_padding_aligns, padding, BRK_MIN_EXTRA,
};

verus! {

/// Why an allocation failed.
#[derive(Clone, Copy, Debug, PartialEq, Eq, Structural)]
pub enum AllocError {
    /// The size asked for is too large for the address space.
    SizeOverflow,
    /// The segment could not be extended.
    SegmentExhausted(BrkError),
}

/// Where a resized block is, and what has to be carried there.
#[derive(Clone, Copy, Debug, PartialEq, Eq, Structural)]
pub struct Resized {
    /// The address of the block after the resize.
    pub address: usize,
    /// The number of bytes to copy from the old address to the new one: 0
    /// for a block that stayed where it was.
    pub copy: usize,
}

/// The number of records of a list that has `len` records and gets one
/// more.  No list has more records than there are numbers: one that long
/// gets no further record.
fn one_more(len: usize) -> (n: usize)
    ensures
        n == if len < usize::MAX { len + 1 } else { len as int },
{
    if len < usize::MAX {
        len + 1
    } else {
        len
    }
}

/// The records of the free memory of a heap, sorted by address, together
/// with the segment that the heap lives in.
///
/// The list records free ranges only.  What lies below the end of the
/// segment and is not recorded as free is in use.  The records are kept in a
/// vector; `cap` counts the records that the list has made room for.
#[derive(Debug)]
pub struct BlockList {
    cap: usize,
    entries: Vec<BlockEntry>,
    seg: Segment,
}

impl View for BlockList {
    type V = Seq<BlockEntry>;

    /// The records of the list, in order.
    closed spec fn view(&self) -> Seq<BlockEntry> {
        self.entries@
    }
}

impl Clone for BlockList {
    /// A list with the same records, room and segment.
    fn clone(&self) -> (list: BlockList)
        ensures
            list@ == self@,
            list.spec_capacity() == self.spec_capacity(),
            list.spec_segment() == self.spec_segment(),
    {
        let entries: Vec<BlockEntry> = self.entries.clone();
        assert(entries@ =~= self.entries@);
        BlockList { cap: self.cap, entries, seg: self.seg }
    }
}

impl BlockList {
    /// The number of records that the list has made room for.
    pub closed spec fn spec_capacity(&self) -> usize {
        self.cap
    }

    /// The segment that the heap lives in.
    pub closed spec fn spec_segment(&self) -> Segment {
        self.seg
    }

    /// The number of records of a list is a `usize`.
    pub proof fn lemma_len(&self)
        ensures
            self@.len() <= usize::MAX,
    {
        assert(self.entries@.len() == self.entries.len());
    }

    /// The end of the segment.
    pub open spec fn top(&self) -> int {
        self.spec_segment().end as int
    }

    /// The list is in order: the records are sorted strictly ascending by
    /// address, no two records of free bytes overlap or touch, every record lies in
    /// the segment, and the list has room for its records.
    pub open spec fn wf(&self) -> bool {
        &&& self.spec_segment().wf()
        &&& self@.len() <= self.spec_capacity()
        &&& ascending(self@)
        &&& separated(self@)
        &&& below(self@, self.top())
    }

    /// The addresses of the free bytes of the heap.
    pub open spec fn free_set(&self) -> Set<int> {
        free_bytes(self@)
    }

    /// `block` lies in the segment and none of its bytes is free: it is, or
    /// is part of, memory in use.
    pub open spec fn live(&self, block: Block) -> bool {
        &&& block.spec_end() <= self.top()
        &&& block.range().disjoint(self.free_set())
    }

    /// An empty list, without room for any record, on the segment `seg`.
    pub fn new(seg: Segment) -> (list: BlockList)
        requires
            seg.wf(),
        ensures
            list.wf(),
            list@ == Seq::<BlockEntry>::empty(),
            list.spec_capacity() == 0,
            list.spec_segment() == seg,
    {
        BlockList { cap: 0, entries: Vec::new(), seg }
    }

    /// A list made of the given parts as they are, in order or not:
    /// `in_order` tells which.
    pub fn from_parts(seg: Segment, capacity: usize, entries: Vec<BlockEntry>) -> (list: BlockList)
        ensures
            list@ == entries@,
            list.spec_capacity() == capacity,
            list.spec_segment() == seg,
    {
        BlockList { cap: capacity, entries, seg }
    }

    /// The number of records, placeholders included.
    pub fn len(&self) -> (n: usize)
        ensures
            n == self@.len(),
    {
        self.entries.len()
    }

    /// The number of records that the list has made room for.
    pub fn capacity(&self) -> (n: usize)
        ensures
            n == self.spec_capacity(),
    {
        self.cap
    }

    /// The segment that the heap lives in.
    pub fn segment(&self) -> (seg: Segment)
        ensures
            seg == self.spec_segment(),
    {
        self.seg
    }

    /// Records that the system lets the segment rise up to `limit`.  A limit
    /// that is not above the present one changes nothing.
    pub fn raise_limit(&mut self, limit: usize)
        requires
            old(self).wf(),
        ensures
            final(self).wf(),
            final(self)@ == old(self)@,
            final(self).spec_capacity() == old(self).spec_capacity(),
            final(self).spec_segment().end == old(self).spec_segment().end,
            final(self).spec_segment().limit == if limit > old(self).spec_segment().limit {
                limit
            } else {
                old(self).spec_segment().limit
            },
    {
        self.seg.raise_limit(limit);
    }

    /// Takes note of what the system gave when asked for `bytes` more bytes:
    /// memory that starts at `base`.  The memory is of use only if it starts
    /// where the segment may rise to already; the limit then rises to its end.
    /// Other memory is turned down, and the list stays as it is.
    pub fn granted(&mut self, base: usize, bytes: usize) -> (ok: bool)
        requires
            old(self).wf(),
        ensures
            final(self).wf(),
            final(self)@ == old(self)@,
            final(self).spec_capacity() == old(self).spec_capacity(),
            final(self).spec_segment().end == old(self).spec_segment().end,
            ok == (base == old(self).spec_segment().limit && base + bytes <= usize::MAX),
            final(self).spec_segment().limit == if ok {
                (base + bytes) as usize
            } else {
                old(self).spec_segment().limit
            },
    {
        if base == self.seg.limit && bytes <= usize::MAX - base {
            self.seg.raise_limit(base + bytes);
            self.check();
            true
        } else {
            false
        }
    }

    /// The number of bytes by which the limit of the segment has to rise
    /// before `alloc_new` can allocate `size` bytes at a multiple of `align`:
    /// 0 if the segment can grow far enough as it is.  `None` where the
    /// address space cannot hold the growth.
    pub fn shortfall(&self, size: usize, align: usize) -> (bytes: Option<usize>)
        requires
            self.wf(),
            align > 0,
        ensures
            bytes == self.spec_shortfall(size, align),
    {
        if size > usize::MAX - BRK_MIN_EXTRA {
            return None;
        }
        let can_size: usize = canonicalize_brk(size);
        let aligner: usize = aligner(self.seg.segment_end(), align);
        if aligner > usize::MAX - can_size {
            return None;
        }
        let growth: usize = can_size + aligner;
        let room: usize = self.seg.room();
        if growth > room {
            Some(growth - room)
        } else {
            Some(0)
        }
    }

    /// The records of the list, in order.
    pub fn as_slice(&self) -> (records: &[BlockEntry])
        ensures
            records@ == self@,
    {
        self.entries.as_slice()
    }

    /// The record at index `i`.
    pub fn entry(&self, i: usize) -> (e: BlockEntry)
        requires
            i < self@.len(),
        ensures
            e == self@[i as int],
    {
        self.entries[i]
    }

    /// Makes room for `needed` records.  A list that has less room gets room
    /// for twice as many, so that the next requests find room already; one
    /// that has as much stays as it is.
    pub fn reserve(&mut self, needed: usize)
        ensures
            final(self)@ == old(self)@,
            final(self).spec_segment() == old(self).spec_segment(),
            final(self).spec_capacity() == grown(old(self).spec_capacity(), needed),
            final(self).spec_capacity() >= needed,
            final(self).spec_capacity() >= old(self).spec_capacity(),
            old(self).wf() ==> final(self).wf(),
    {
        if needed > self.cap {
            let doubled: usize = if needed <= usize::MAX / 2 {
                needed * 2
            } else {
                usize::MAX
            };
            let len: usize = self.entries.len();
            if doubled > len {
                // The vector may fail to get that much: it then grows as the records come.
                let _ = self.entries.try_reserve(doubled - len);
            }
            self.cap = doubled;
        }
    }

    /// Searches the sorted records for one that starts where `block` starts:
    /// `Ok` with its index, or `Err` with the index at which such a record
    /// would have to be inserted.
    pub fn search(&self, block: &Block) -> (r: Result<usize, usize>)
        requires
            ascending(self@),
        ensures
            match r {
                Ok(i) => i < self@.len() && self@[i as int].block.address == block.address,
                Err(i) => is_position(self@, i as int, block.address as int) && forall|j: int|
                    0 <= j < self@.len() ==> (#[trigger] self@[j]).block.address != block.address,
            },
    {
        let mut lo: usize = 0;
        let mut hi: usize = self.entries.len();
        while lo < hi
            invariant
                lo <= hi <= self@.len(),
                self@ == self.entries@,
                ascending(self@),
                forall|j: int| 0 <= j < lo ==> (#[trigger] self@[j]).block.address < block.address,
                forall|j: int|
                    hi <= j < self@.len() ==> (#[trigger] self@[j]).block.address > block.address,
            decreases hi - lo,
        {
            let mid: usize = lo + (hi - lo) / 2;
            let at: usize = self.entries[mid].block.address;
            if at == block.address {
                return Ok(mid);
            } else if at < block.address {
                lo = mid + 1;
            } else {
                hi = mid;
            }
        }
        Err(lo)
    }

    /// The index at which a record of `block` belongs: that of the record
    /// that starts where `block` starts, or else the index at which one would
    /// have to be inserted.
    pub fn find(&self, block: &Block) -> (ind: usize)
        requires
            ascending(self@),
        ensures
            is_position(self@, ind as int, block.address as int),
            ind == position(self@, block.address as int),
    {
        let ind: usize = match self.search(block) {
            Ok(x) => x,
            Err(x) => x,
        };
        proof {
            lemma_position(self@, 0, ind as int, block.address as int);
        }
        ind
    }

    /// Inserts `entry` at index `ind`, its sorted position.
    ///
    /// The first placeholder from `ind` on gives up its slot, so that only the
    /// records between `ind` and that slot move one slot to the right.
    /// Without a placeholder ahead the list makes room for one more record and
    /// all records from `ind` on move.
    pub fn insert(&mut self, ind: usize, entry: BlockEntry)
        requires
            old(self).wf(),
            admits(old(self)@, old(self).top(), ind as int, entry),
        ensures
            final(self).wf(),
            final(self)@ == inserted(old(self)@, ind as int, entry),
            final(self).free_set() == old(self).free_set().union(entry.bytes()),
            final(self).spec_segment() == old(self).spec_segment(),
            final(self)@.len() >= old(self)@.len(),
            final(self).spec_capacity() == capacity_for(
                old(self).spec_capacity(),
                old(self)@.len() as int,
                final(self)@.len() as int,
            ),
    {
        let len: usize = self.entries.len();
        let ghost before = self.entries@;
        proof {
            lemma_capacity_step(self.cap, len as int);
            lemma_inserted(before, self.top(), ind as int, entry);
            lemma_next_placeholder(before, ind as int);
        }
        // Find the next placeholder, whose slot can be taken.
        let mut n: usize = ind;
        while n < len && self.entries[n].is_active()
            invariant
                ind <= n <= len,
                len == self.entries@.len(),
                self.entries@ == before,
                next_placeholder(before, n as int) == next_placeholder(before, ind as int),
            decreases len - n,
        {
            n += 1;
        }
        if n < len {
            // Move the records between `ind` and the placeholder to close that gap.
            let mut k: usize = n;
            while k > ind
                invariant
                    ind <= k <= n < len,
                    self.entries@.len() == len,
                    before.len() == len,
                    self.cap == old(self).cap,
                    self.seg == old(self).seg,
                    forall|i: int|
                        0 <= i < len ==> #[trigger] self.entries@[i] == if k < i <= n {
                            before[i - 1]
                        } else {
                            before[i]
                        },
                decreases k,
            {
                let moved: BlockEntry = self.entries[k - 1];
                self.entries[k] = moved;
                k -= 1;
            }
            self.entries[ind] = entry;
            assert(self.entries@ =~= before.remove(n as int).insert(ind as int, entry));
        } else {
            // No placeholder ahead: make room for one more record.
            self.reserve(one_more(len));
            self.entries.insert(ind, entry);
            proof {
                self.lemma_len();
            }
        }
        // Check consistency.
        self.check();
    }

    /// Takes `size` bytes out of the free record at index `n`, `pad` bytes
    /// behind its start, and returns the address of the first byte taken.
    ///
    /// What lies before the bytes taken stays in the record.  What lies
    /// behind them becomes a free record of its own; it takes the slot of the
    /// record where nothing stays in it and the order allows it.
    pub fn carve(&mut self, n: usize, pad: usize, size: usize) -> (address: usize)
        requires
            old(self).wf(),
            n < old(self)@.len(),
            old(self)@[n as int].free,
            pad + size <= old(self)@[n as int].block.size,
        ensures
            final(self).wf(),
            address == old(self)@[n as int].block.address + pad,
            final(self).free_set() == old(self).free_set().difference(
                (Block { address, size }).range(),
            ),
            final(self).spec_segment() == old(self).spec_segment(),
            final(self)@ == carved(old(self)@, n as int, pad as int, size as int),
            final(self)@.len() >= old(self)@.len(),
            final(self).spec_capacity() == capacity_for(
                old(self).spec_capacity(),
                old(self)@.len() as int,
                final(self)@.len() as int,
            ),
    {
        let ghost before = self.entries@;
        let e: BlockEntry = self.entries[n];
        let address: usize = e.block.address + pad;
        proof {
            lemma_capacity_step(self.cap, before.len() as int);
            lemma_carved(before, self.top(), n as int, pad as int, size as int);
        }
        if size == 0 {
            return address;
        }
        let rest: usize = e.block.size - pad - size;
        let tail = Block { address: address + size, size: rest };
        if pad > 0 {
            // The bytes before those taken stay behind in the record.
            self.entries[n] = BlockEntry::from(Block { address: e.block.address, size: pad });
            if rest > 0 {
                proof {
                    lemma_placed(self.entries@, self.top(), BlockEntry::available(tail));
                }
                let ind: usize = self.find(&tail);
                self.insert(ind, BlockEntry::from(tail));
            }
        } else if rest == 0 {
            // The record is used up: it stays behind as a placeholder.
            self.entries[n] = BlockEntry::placeholder(e.block);
        } else if n + 1 == self.entries.len() || self.entries[n + 1].block.address > tail.address {
            // The rest takes the slot of the record.
            self.entries[n] = BlockEntry::from(tail);
        } else {
            // A placeholder is in the way: the rest goes to its sorted position.
            self.entries[n] = BlockEntry::placeholder(e.block);
            proof {
                lemma_placed(self.entries@, self.top(), BlockEntry::available(tail));
            }
            let ind: usize = self.find(&tail);
            self.insert(ind, BlockEntry::from(tail));
        }
        address
    }

    /// Takes the first `d` bytes of the free record at index `r` for the
    /// block that ends where the record starts.
    ///
    /// The start of the record moves up by `d` and its size goes down by
    /// `d`; left without bytes it is a placeholder.
    fn advance(&mut self, r: usize, d: usize)
        requires
            old(self).wf(),
            r < old(self)@.len(),
            old(self)@[r as int].free,
            0 < d <= old(self)@[r as int].block.size,
        ensures
            final(self).wf(),
            final(self)@ == advanced(old(self)@, r as int, d as int),
            final(self).free_set() == old(self).free_set().difference(
                (Block { address: old(self)@[r as int].block.address, size: d }).range(),
            ),
            final(self).spec_segment() == old(self).spec_segment(),
            final(self)@.len() >= old(self)@.len(),
            final(self).spec_capacity() == capacity_for(
                old(self).spec_capacity(),
                old(self)@.len() as int,
                final(self)@.len() as int,
            ),
    {
        let ghost before = self.entries@;
        proof {
            lemma_capacity_step(self.cap, before.len() as int);
            lemma_advanced(before, self.top(), r as int, d as int);
        }
        let next: Block = self.entries[r].block;
        let rest = Block { address: next.address + d, size: next.size - d };
        if r + 1 == self.entries.len() || self.entries[r + 1].block.address > rest.address {
            self.entries[r] = BlockEntry { block: rest, free: rest.size > 0 };
        } else {
            // A placeholder is in the way: the slot keeps the old start, without bytes.
            self.entries[r] = BlockEntry::placeholder(Block { address: next.address, size: 0 });
            if rest.size > 0 {
                proof {
                    lemma_placed(self.entries@, self.top(), BlockEntry::available(rest));
                }
                let ind: usize = self.find(&rest);
                self.insert(ind, BlockEntry::from(rest));
            }
        }
    }

    /// One above the index of the nearest record of free bytes before index
    /// `upto`, or 0 if there is none.
    fn nearest_active_before(&self, upto: usize) -> (l: usize)
        requires
            upto <= self@.len(),
        ensures
            l <= upto,
            l - 1 == active_before(self@, upto as int),
            l > 0 ==> self@[l - 1].active(),
            forall|j: int| l <= j < upto ==> !(#[trigger] self@[j]).active(),
    {
        let mut l: usize = upto;
        while l > 0 && !self.entries[l - 1].is_active()
            invariant
                l <= upto <= self.entries@.len(),
                forall|j: int| l <= j < upto ==> !(#[trigger] self.entries@[j]).active(),
                active_before(self.entries@, l as int) == active_before(
                    self.entries@,
                    upto as int,
                ),
            decreases l,
        {
            l -= 1;
        }
        l
    }

    /// The index of the nearest record of free bytes from index `from` on, or
    /// the number of records if there is none.
    fn nearest_active_from(&self, from: usize) -> (r: usize)
        requires
            from <= self@.len(),
        ensures
            from <= r <= self@.len(),
            r == active_from(self@, from as int),
            r < self@.len() ==> self@[r as int].active(),
            forall|j: int| from <= j < r ==> !(#[trigger] self@[j]).active(),
    {
        let len: usize = self.entries.len();
        let mut r: usize = from;
        while r < len && !self.entries[r].is_active()
            invariant
                from <= r <= len,
                len == self.entries@.len(),
                forall|j: int| from <= j < r ==> !(#[trigger] self.entries@[j]).active(),
                active_from(self.entries@, r as int) == active_from(self.entries@, from as int),
            decreases len - r,
        {
            r += 1;
        }
        r
    }

    /// Appends the record of a free block that lies above every record of
    /// the list.
    ///
    /// A block with bytes that starts where the last record of free bytes
    /// ends is added to that record instead, so that no two such records
    /// touch.  Any other block is appended as it is, also one of no bytes;
    /// only where the last record starts where the block starts, and so is a
    /// placeholder, the block takes its slot.
    pub fn push(&mut self, entry: BlockEntry)
        requires
            old(self).wf(),
            entry.free,
            entry.block.spec_end() <= old(self).top(),
            forall|j: int|
                0 <= j < old(self)@.len() ==> (#[trigger] old(self)@[j]).block.address
                    <= entry.block.address,
            forall|j: int|
                0 <= j < old(self)@.len() && (#[trigger] old(self)@[j]).active() ==> old(
                    self,
                )@[j].block.spec_end() <= entry.block.address,
        ensures
            final(self).wf(),
            final(self).free_set() == old(self).free_set().union(entry.bytes()),
            final(self).spec_segment() == old(self).spec_segment(),
            final(self)@ == pushed(old(self)@, entry),
            final(self)@.len() >= old(self)@.len(),
            final(self).spec_capacity() == capacity_for(
                old(self).spec_capacity(),
                old(self)@.len() as int,
                final(self)@.len() as int,
            ),
            forall|j: int|
                0 <= j < final(self)@.len() ==> (#[trigger] final(self)@[j]).block.address
                    <= entry.block.address,
            forall|j: int|
                0 <= j < final(self)@.len() && (#[trigger] final(self)@[j]).active()
                    ==> final(self)@[j].block.spec_end() <= entry.block.spec_end(),
    {
        let ghost before = self.entries@;
        let len: usize = self.entries.len();
        proof {
            lemma_capacity_step(self.cap, len as int);
            lemma_pushed(before, self.top(), entry);
        }
        // The last record of free bytes: placeholders may follow it.
        let last: usize = self.nearest_active_before(len);
        if entry.block.size > 0 && last > 0 && self.entries[last - 1].block.left_to(
            &entry.block,
        ) {
            let l: usize = last - 1;
            let joined = Block {
                address: self.entries[l].block.address,
                size: self.entries[l].block.size + entry.block.size,
            };
            self.entries[l] = BlockEntry::from(joined);
        } else if len > 0 && self.entries[len - 1].block.address == entry.block.address {
            self.entries[len - 1] = entry;
        } else {
            self.reserve(one_more(len));
            self.entries.push(entry);
            proof {
                self.lemma_len();
            }
        }
        // Check consistency.
        self.check();
    }

    /// Extends the segment and allocates `size` bytes at a multiple of
    /// `align` from the new memory.
    ///
    /// The segment grows by the canonical size and by what it takes to reach
    /// a multiple of `align` from its end.  The bytes skipped to reach it are
    /// pushed as a free record, also where there are none, and so are the
    /// bytes behind those allocated.
    pub fn alloc_new(&mut self, size: usize, align: usize) -> (r: Result<usize, AllocError>)
        requires
            old(self).wf(),
            align > 0,
        ensures
            final(self).wf(),
            r == old(self).grow_result(size, align),
            final(self).free_set() == old(self).grow_free_set(size, align),
            final(self).spec_segment() == old(self).grow_segment(size, align),
            final(self)@ == old(self).grow_records(size, align),
            final(self)@.len() >= old(self)@.len(),
            final(self).spec_capacity() == capacity_for(
                old(self).spec_capacity(),
                old(self)@.len() as int,
                final(self)@.len() as int,
            ),
            r matches Ok(address) ==> address % align == 0 && final(self).live(
                Block { address, size },
            ),
    {
        if size > usize::MAX - BRK_MIN_EXTRA {
            return Err(AllocError::SizeOverflow);
        }
        // The canonical size: more than asked for, to save later requests.
        let can_size: usize = canonicalize_brk(size);
        let seg_end: usize = self.seg.segment_end();
        let aligner: usize = aligner(seg_end, align);
        if aligner > usize::MAX - can_size {
            return Err(AllocError::SegmentExhausted(BrkError { handle: seg_end }));
        }
        let ghost before = self.entries@;
        let base: usize = match self.seg.inc_brk(can_size + aligner) {
            Ok(base) => base,
            Err(e) => {
                return Err(AllocError::SegmentExhausted(e));
            },
        };
        let alignment_block = Block { address: base, size: aligner };
        let res = Block { address: alignment_block.end(), size };
        let leftover = Block { address: res.end(), size: can_size - size };
        self.push(BlockEntry::from(alignment_block));
        let ghost skipped = self.entries@;
        self.push(BlockEntry::from(leftover));
        proof {
            lemma_grow(*old(self), size, align);
            lemma_capacity_step(old(self).cap, before.len() as int);
            lemma_capacity_chain(
                old(self).cap,
                before.len() as int,
                skipped.len() as int,
                self.entries@.len() as int,
            );
        }
        // Check consistency.
        self.check();
        Ok(res.address)
    }

    /// Allocates `size` bytes at a multiple of `align` and returns the
    /// address of the first.
    ///
    /// Of the free records with room for the request, the one at the lowest
    /// address serves it.  If there is none, the segment is extended.
    pub fn allocate(&mut self, size: usize, align: usize) -> (r: Result<usize, AllocError>)
        requires
            old(self).wf(),
            align > 0,
        ensures
            final(self).wf(),
            r == old(self).alloc_result(size, align),
            final(self).free_set() == old(self).alloc_free_set(size, align),
            final(self).spec_segment() == old(self).alloc_segment(size, align),
            final(self)@ == old(self).alloc_records(size, align),
            final(self)@.len() >= old(self)@.len(),
            final(self).spec_capacity() == capacity_for(
                old(self).spec_capacity(),
                old(self)@.len() as int,
                final(self)@.len() as int,
            ),
            r matches Ok(address) ==> address % align == 0 && final(self).live(
                Block { address, size },
            ),
    {
        let mut ins: Option<(usize, usize)> = None;
        let len: usize = self.entries.len();
        let mut i: usize = len;
        // Run right to left; the last record found, the leftmost, wins.
        while i > 0
            invariant
                i <= len,
                len == self.entries@.len(),
                align > 0,
                match ins {
                    Some((n, pad)) => n < len && first_fit(
                        self.entries@,
                        i as int,
                        size as int,
                        align as int,
                    ) == n && pad == padding(
                        self.entries@[n as int].block.address as int,
                        align as int,
                    ),
                    None => first_fit(self.entries@, i as int, size as int, align as int) == len,
                },
            decreases i,
        {
            i -= 1;
            let e: BlockEntry = self.entries[i];
            if e.free {
                let pad: usize = aligner(e.block.address, align);
                if pad <= e.block.size && e.block.size - pad >= size {
                    ins = Some((i, pad));
                }
            }
        }
        match ins {
            Some((n, pad)) => {
                proof {
                    lemma_first_fit(self.entries@, 0, size as int, align as int);
                    lemma_padding_aligns(
                        self.entries@[n as int].block.address as int,
                        align as int,
                    );
                }
                let address: usize = self.carve(n, pad, size);
                // Check consistency.
                self.check();
                Ok(address)
            },
            None => self.alloc_new(size, align),
        }
    }

    /// Gives the memory of `block` back: its bytes become free.
    ///
    /// The block is merged with the records of free bytes that it touches,
    /// the one before it and the one behind it; if it touches none, it gets a
    /// record of its own.  Placeholders between the block and such a record do
    /// not keep the two apart.
    pub fn free(&mut self, block: Block)
        requires
            old(self).wf(),
            old(self).live(block),
        ensures
            final(self).wf(),
            final(self).free_set() == old(self).free_set().union(block.range()),
            final(self).spec_segment() == old(self).spec_segment(),
            final(self)@ == released(old(self)@, block),
            final(self)@.len() >= old(self)@.len(),
            final(self).spec_capacity() == capacity_for(
                old(self).spec_capacity(),
                old(self)@.len() as int,
                final(self)@.len() as int,
            ),
    {
        let ghost before = self.entries@;
        proof {
            lemma_capacity_step(self.cap, before.len() as int);
            lemma_released(before, self.top(), block);
        }
        if block.size == 0 {
            return ;
        }
        let len: usize = self.entries.len();
        let ind: usize = self.find(&block);
        proof {
            lemma_clear_of_records(before, block);
        }
        // The nearest records of free bytes before the block and behind it.
        let l: usize = self.nearest_active_before(ind);
        let r: usize = self.nearest_active_from(ind);
        let merge_left: bool = l > 0 && self.entries[l - 1].block.left_to(&block);
        let merge_right: bool = r < len && block.left_to(&self.entries[r].block);
        if merge_left {
            let left: Block = self.entries[l - 1].block;
            let mut size: usize = left.size + block.size;
            if merge_right {
                let right: Block = self.entries[r].block;
                size = size + right.size;
                self.entries[r] = BlockEntry::placeholder(right);
            }
            self.entries[l - 1] = BlockEntry::from(Block { address: left.address, size });
        } else if merge_right {
            let right: Block = self.entries[r].block;
            let joined = Block { address: block.address, size: block.size + right.size };
            // The record behind gives way to the joined one, which goes to the
            // position of the block.
            self.entries[r] = BlockEntry::placeholder(right);
            self.insert(ind, BlockEntry::from(joined));
        } else {
            self.insert(ind, BlockEntry::from(block));
        }
        // Check consistency.
        self.check();
    }

    /// Tries to resize `block` to `new_size` bytes where it is, and tells
    /// whether it did.
    ///
    /// That takes a free record that starts where the block ends and holds,
    /// together with the block, `new_size` bytes or more.  A block that grows
    /// takes the bytes from the start of that record; one that shrinks gives
    /// the bytes that it loses to it.  Without such a record nothing changes,
    /// whether the block was to grow or to shrink.
    pub fn realloc_inplace(&mut self, block: Block, new_size: usize) -> (done: bool)
        requires
            old(self).wf(),
            old(self).live(block),
        ensures
            final(self).wf(),
            done == old(self).resizes_in_place(block, new_size),
            final(self).free_set() == old(self).resize_free_set(block, new_size),
            final(self).spec_segment() == old(self).spec_segment(),
            final(self)@ == old(self).resize_records(block, new_size),
            final(self)@.len() >= old(self)@.len(),
            final(self).spec_capacity() == capacity_for(
                old(self).spec_capacity(),
                old(self)@.len() as int,
                final(self)@.len() as int,
            ),
    {
        proof {
            lemma_capacity_step(self.cap, self.entries@.len() as int);
            lemma_resize(*old(self), block, new_size);
        }
        let end: usize = block.end();
        let ind: usize = self.find(&Block { address: end, size: 0 });
        if ind >= self.entries.len() {
            return false;
        }
        let next: BlockEntry = self.entries[ind];
        if !next.free || next.block.address != end {
            return false;
        }
        if new_size <= block.size {
            // The bytes that the block loses go to the record behind it.
            self.free(Block { address: block.address + new_size, size: block.size - new_size });
            // Check consistency.
            self.check();
            true
        } else if next.block.size >= new_size - block.size {
            self.advance(ind, new_size - block.size);
            // Check consistency.
            self.check();
            true
        } else {
            false
        }
    }

    /// Resizes `block` to `new_size` bytes, in place if that can be done.
    /// Otherwise it allocates `new_size` bytes at a multiple of `align` and
    /// frees the block; the result then says how many bytes have to be copied
    /// to the new address.
    pub fn realloc(&mut self, block: Block, new_size: usize, align: usize) -> (r: Result<
        Resized,
        AllocError,
    >)
        requires
            old(self).wf(),
            old(self).live(block),
            align > 0,
        ensures
            final(self).wf(),
            r == old(self).realloc_result(block, new_size, align),
            final(self).free_set() == old(self).realloc_free_set(block, new_size, align),
            final(self).spec_segment() == old(self).realloc_segment(block, new_size, align),
            final(self)@ == old(self).realloc_records(block, new_size, align),
            final(self)@.len() >= old(self)@.len(),
            final(self).spec_capacity() == capacity_for(
                old(self).spec_capacity(),
                old(self)@.len() as int,
                final(self)@.len() as int,
            ),
    {
        if self.realloc_inplace(block, new_size) {
            Ok(Resized { address: block.address, copy: 0 })
        } else {
            // The block has to move.
            let address: usize = match self.allocate(new_size, align) {
                Ok(address) => address,
                Err(e) => {
                    return Err(e);
                },
            };
            let ghost between = self.entries@;
            proof {
                law_allocation_validity(*old(self), *self, new_size, align, address, block);
            }
            self.free(block);
            proof {
                lemma_capacity_chain(
                    old(self).cap,
                    old(self)@.len() as int,
                    between.len() as int,
                    self.entries@.len() as int,
                );
            }
            let copy: usize = if block.size < new_size {
                block.size
            } else {
                new_size
            };
            // Check consistency.
            self.check();
            Ok(Resized { address, copy })
        }
    }

    /// Whether `block` lies in the segment and none of its bytes is free.
    pub fn is_live(&self, block: &Block) -> (b: bool)
        requires
            self.wf(),
        ensures
            b == self.live(*block),
    {
        let top: usize = self.seg.segment_end();
        if block.address > top || block.size > top - block.address {
            return false;
        }
        if block.size == 0 {
            return true;
        }
        let len: usize = self.entries.len();
        let mut i: usize = 0;
        while i < len
            invariant
                i <= len,
                len == self.entries@.len(),
                self.wf(),
                block.spec_end() <= self.top(),
                block.size > 0,
                forall|j: int|
                    0 <= j < i && (#[trigger] self.entries@[j]).active()
                        ==> self.entries@[j].block.spec_end() <= block.address
                        || block.spec_end() <= self.entries@[j].block.address,
            decreases len - i,
        {
            let e: BlockEntry = self.entries[i];
            if e.free && e.block.overlaps(block) {
                proof {
                    if self.live(*block) {
                        lemma_clear_of_records(self.entries@, *block);
                    }
                }
                return false;
            }
            i += 1;
        }
        proof {
            lemma_records_clear_of(self.entries@, *block);
        }
        true
    }

    /// The consistency check: the list has to be in order.  A list out of
    /// order is an error of the program, from which there is no way on, so
    /// none is taken here: whoever calls this has the proof that the list is
    /// in order, and nothing is left to do at run time.  Where there is no
    /// proof, `in_order` is the test to stop on.
    pub fn check(&self)
        requires
            self.wf(),
    {
    }

    /// Whether the list is in order: the records sorted strictly ascending by
    /// address, no two records of free bytes overlapping or touching, every
    /// record inside the segment, and no more records than the list has room
    /// for.
    pub fn in_order(&self) -> (ok: bool)
        ensures
            ok == self.wf(),
    {
        if self.seg.end > self.seg.limit || self.entries.len() > self.cap {
            return false;
        }
        let top: usize = self.seg.end;
        let len: usize = self.entries.len();
        // The end of the last record of free bytes seen, once there is one.
        let mut prev_end: Option<usize> = None;
        let ghost mut prev_free: int = -1;
        let mut i: usize = 0;
        while i < len
            invariant
                i <= len,
                len == self.entries@.len(),
                top == self.seg.end,
                ascending(self.entries@.take(i as int)),
                separated(self.entries@.take(i as int)),
                below(self.entries@.take(i as int), top as int),
                match prev_end {
                    Some(end) => 0 <= prev_free < i && self.entries@[prev_free].active() && end
                        == self.entries@[prev_free].block.spec_end(),
                    None => prev_free == -1,
                },
                forall|j: int| prev_free < j < i ==> !(#[trigger] self.entries@[j]).active(),
            decreases len - i,
        {
            let e: BlockEntry = self.entries[i];
            let ghost s = self.entries@;
            assert(s.take(i as int + 1) =~= s.take(i as int).push(e));
            assert(forall|j: int| 0 <= j < i ==> s.take(i as int)[j] == s[j]);
            if e.block.address > top {
                return false;
            }
            if i > 0 && self.entries[i - 1].block.address >= e.block.address {
                return false;
            }
            if e.free {
                if e.block.size > top - e.block.address {
                    return false;
                }
                if e.block.size > 0 {
                    match prev_end {
                        Some(end) => {
                            if end >= e.block.address {
                                return false;
                            }
                        },
                        None => {},
                    }
                    prev_end = Some(e.block.address + e.block.size);
                    proof {
                        prev_free = i as int;
                    }
                }
            }
            i += 1;
        }
        assert(self.entries@.take(len as int) =~= self.entries@);
        true
    }
}

} // verus!
