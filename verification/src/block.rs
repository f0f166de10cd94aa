//! Blocks of memory and the records that the block list keeps of them.
use vstd::prelude::*;

verus! {

/// A contiguous range of memory: `size` bytes that start at `address`.
///
/// A block describes memory, it does not own it.
#[derive(Clone, Copy, Debug, PartialEq, Eq, Structural)]
pub struct Block {
    pub address: usize,
    pub size: usize,
}

impl Block {
    /// The address just behind the last byte of the block.
    pub open spec fn spec_end(self) -> int {
        self.address + self.size
    }

    /// The block ends inside the address space.
    pub open spec fn fits(self) -> bool {
        self.address + self.size <= usize::MAX
    }

    /// The byte at `x` belongs to the block.
    pub open spec fn contains(self, x: int) -> bool {
        self.address <= x < self.address + self.size
    }

    /// The addresses of the bytes of the block.
    pub open spec fn range(self) -> Set<int> {
        Set::new(|x: int| self.contains(x))
    }

    /// The two blocks have no byte in common.
    pub open spec fn disjoint(self, other: Block) -> bool {
        self.size == 0 || other.size == 0 || self.spec_end() <= other.address
            || other.spec_end() <= self.address
    }

    /// Blocks are disjoint exactly if no address belongs to both.
    pub proof fn lemma_disjoint(self, other: Block)
        ensures
            self.disjoint(other) <==> self.range().disjoint(other.range()),
    {
        if !self.disjoint(other) {
            let x: int = if self.address <= other.address {
                other.address as int
            } else {
                self.address as int
            };
            assert(self.range().contains(x) && other.range().contains(x));
        }
    }

    /// `other` starts where this block ends.
    pub open spec fn spec_left_to(self, other: Block) -> bool {
        self.spec_end() == other.address
    }

    pub fn new(address: usize, size: usize) -> (b: Block)
        ensures
            b.address == address,
            b.size == size,
    {
        Block { address, size }
    }

    /// The address just behind the last byte of the block.
    pub fn end(&self) -> (e: usize)
        requires
            self.fits(),
        ensures
            e == self.spec_end(),
    {
        self.address + self.size
    }

    /// Whether `other` starts where this block ends, so that the two can be
    /// merged into one.
    pub fn left_to(&self, other: &Block) -> (b: bool)
        ensures
            b == self.spec_left_to(*other),
    {
        other.address >= self.address && other.address - self.address == self.size
    }

    /// Whether the byte at `address` belongs to the block.
    pub fn holds(&self, address: usize) -> (b: bool)
        ensures
            b == self.contains(address as int),
    {
        address >= self.address && address - self.address < self.size
    }

    /// Whether the two blocks have a byte in common.
    pub fn overlaps(&self, other: &Block) -> (b: bool)
        ensures
            b == !self.disjoint(*other),
    {
        if self.size == 0 || other.size == 0 {
            false
        } else if self.address <= other.address {
            other.address - self.address < self.size
        } else {
            self.address - other.address < other.size
        }
    }

    /// Whether this block starts at a lower address than `other`.
    pub fn precedes(&self, other: &Block) -> (b: bool)
        ensures
            b == (self.address < other.address),
    {
        self.address < other.address
    }

    /// Whether the two blocks start at the same address.
    pub fn same_start(&self, other: &Block) -> (b: bool)
        ensures
            b == (self.address == other.address),
    {
        self.address == other.address
    }
}

/// A record of the block list: a block, and whether it is free memory.
///
/// A record with `free` unset, or with a block of no bytes, is a placeholder.
/// Its block means nothing but its address, which keeps the list sorted; the
/// slot can be reused for another record.
#[derive(Clone, Copy, Debug, PartialEq, Eq, Structural)]
pub struct BlockEntry {
    pub block: Block,
    pub free: bool,
}

impl BlockEntry {
    /// The byte at `x` is recorded as free by this entry.
    pub open spec fn covers(self, x: int) -> bool {
        self.free && self.block.contains(x)
    }

    /// The entry records free bytes: it is free and not empty.  An entry
    /// that records none is a placeholder, whatever its flag says.
    pub open spec fn active(self) -> bool {
        self.free && self.block.size > 0
    }

    /// The addresses that this entry records as free.
    pub open spec fn bytes(self) -> Set<int> {
        Set::new(|x: int| self.covers(x))
    }

    /// The record of `block` as free memory.
    pub open spec fn spec_available(block: Block) -> BlockEntry {
        BlockEntry { block, free: true }
    }

    /// A placeholder at the address of `block`.
    pub open spec fn spec_placeholder(block: Block) -> BlockEntry {
        BlockEntry { block, free: false }
    }

    /// Whether the entry records free bytes.
    pub fn is_active(&self) -> (b: bool)
        ensures
            b == self.active(),
    {
        self.free && self.block.size > 0
    }

    /// The record of `block` as free memory.
    #[verifier::when_used_as_spec(spec_available)]
    pub fn available(block: Block) -> (e: BlockEntry)
        ensures
            e == (BlockEntry { block, free: true }),
    {
        BlockEntry { block, free: true }
    }

    /// A placeholder at the address of `block`.
    #[verifier::when_used_as_spec(spec_placeholder)]
    pub fn placeholder(block: Block) -> (e: BlockEntry)
        ensures
            e == (BlockEntry { block, free: false }),
    {
        BlockEntry { block, free: false }
    }
}

impl From<Block> for BlockEntry {
    /// A block turns into the record of that block as free memory.
    fn from(block: Block) -> (e: BlockEntry) {
        BlockEntry { block, free: true }
    }
}

impl vstd::std_specs::convert::FromSpecImpl<Block> for BlockEntry {
    open spec fn obeys_from_spec() -> bool {
        true
    }

    open spec fn from_spec(block: Block) -> BlockEntry {
        BlockEntry { block, free: true }
    }
}

} // verus!
