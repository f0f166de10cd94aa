//! The changes that the operations of the list make to its records, as
//! functions on sequences of records.
use vstd::prelude::*;
use crate::block::{Block, BlockEntry};
use crate::ranges::{
    active_before, active_from, ascending, below, free_bytes, in_order, is_position,
    lemma_active_before, lemma_active_from, lemma_clear_of_records, lemma_free_bytes_insert,
    lemma_free_bytes_remove, lemma_free_bytes_update, lemma_next_placeholder,
    lemma_position_found, next_placeholder, position, separated,
};

verus! {

/// The records after `e` was inserted at index `ind`.  The first placeholder
/// from `ind` on, if there is one, gives up its slot: only the records between
/// `ind` and that slot move.  Without one, all records from `ind` on move.
pub open spec fn inserted(s: Seq<BlockEntry>, ind: int, e: BlockEntry) -> Seq<BlockEntry> {
    let n = next_placeholder(s, ind);
    if n < s.len() {
        s.remove(n).insert(ind, e)
    } else {
        s.insert(ind, e)
    }
}

/// Inserting `e` at `ind` keeps the records in order: `ind` is the position
/// of its address, only a placeholder shares that address, `e` starts at or
/// below `top`, a free `e` ends there too, and an `e` of free bytes neither
/// overlaps nor touches another record of free bytes.
pub open spec fn admits(s: Seq<BlockEntry>, top: int, ind: int, e: BlockEntry) -> bool {
    &&& is_position(s, ind, e.block.address as int)
    &&& e.block.address <= top
    &&& forall|j: int|
        0 <= j < s.len() && (#[trigger] s[j]).block.address == e.block.address
            ==> !s[j].active()
    &&& e.free ==> e.block.spec_end() <= top
    &&& e.active() ==> {
        &&& forall|j: int|
            0 <= j < ind && (#[trigger] s[j]).active() ==> s[j].block.spec_end()
                < e.block.address
        &&& forall|j: int|
            ind <= j < s.len() && (#[trigger] s[j]).active() ==> e.block.spec_end()
                < s[j].block.address
    }
}

/// Inserting a record where the sequence admits it keeps the sequence in
/// order, and adds the bytes of the record to the free bytes.
pub proof fn lemma_inserted(s: Seq<BlockEntry>, top: int, ind: int, e: BlockEntry)
    requires
        ascending(s),
        separated(s),
        below(s, top),
        admits(s, top, ind, e),
    ensures
        ascending(inserted(s, ind, e)),
        separated(inserted(s, ind, e)),
        below(inserted(s, ind, e), top),
        free_bytes(inserted(s, ind, e)) == free_bytes(s).union(e.bytes()),
        s.len() <= inserted(s, ind, e).len() <= s.len() + 1,
{
    let n = next_placeholder(s, ind);
    lemma_next_placeholder(s, ind);
    let t = inserted(s, ind, e);
    if n < s.len() {
        let r = s.remove(n);
        lemma_free_bytes_remove(s, n);
        lemma_free_bytes_insert(r, ind, e);
        assert forall|i: int| 0 <= i < t.len() implies #[trigger] t[i] == if i < ind {
            s[i]
        } else if i == ind {
            e
        } else if i <= n {
            s[i - 1]
        } else {
            s[i]
        } by {}
    } else {
        lemma_free_bytes_insert(s, ind, e);
        assert forall|i: int| 0 <= i < t.len() implies #[trigger] t[i] == if i < ind {
            s[i]
        } else if i == ind {
            e
        } else {
            s[i - 1]
        } by {}
    }
}

/// The records after `e` was inserted at the position of its address.
pub open spec fn placed(s: Seq<BlockEntry>, e: BlockEntry) -> Seq<BlockEntry> {
    inserted(s, position(s, e.block.address as int), e)
}

/// Placing a record of free bytes that lies clear of all such records, and
/// touches none, keeps the records in order and adds its bytes to the free
/// bytes.
pub proof fn lemma_placed(s: Seq<BlockEntry>, top: int, e: BlockEntry)
    requires
        in_order(s, top),
        e.active(),
        e.block.spec_end() <= top,
        forall|j: int|
            0 <= j < s.len() && (#[trigger] s[j]).active() ==> s[j].block.spec_end()
                < e.block.address || e.block.spec_end() < s[j].block.address,
    ensures
        admits(s, top, position(s, e.block.address as int), e),
        in_order(placed(s, e), top),
        free_bytes(placed(s, e)) == free_bytes(s).union(e.bytes()),
        s.len() <= placed(s, e).len() <= s.len() + 1,
{
    let ind = position(s, e.block.address as int);
    lemma_position_found(s, 0, e.block.address as int);
    lemma_inserted(s, top, ind, e);
}

/// The records after `size` bytes were taken out of the free record at
/// index `n`, `pad` bytes behind its start.
///
/// The bytes before those taken stay in the record.  The bytes behind them
/// get a record of their own, placed at its position.  A record in which
/// nothing stays gives its slot to the bytes behind where the next record
/// starts above them, and else turns into a placeholder.
pub open spec fn carved(s: Seq<BlockEntry>, n: int, pad: int, size: int) -> Seq<BlockEntry> {
    let e = s[n].block;
    let stub = Block { address: e.address, size: pad as usize };
    let rest = Block {
        address: (e.address + pad + size) as usize,
        size: (e.size - pad - size) as usize,
    };
    if size == 0 {
        s
    } else if pad > 0 {
        if rest.size > 0 {
            placed(s.update(n, BlockEntry::available(stub)), BlockEntry::available(rest))
        } else {
            s.update(n, BlockEntry::available(stub))
        }
    } else if rest.size == 0 {
        s.update(n, BlockEntry::placeholder(e))
    } else if n + 1 == s.len() || s[n + 1].block.address > rest.address {
        s.update(n, BlockEntry::available(rest))
    } else {
        placed(s.update(n, BlockEntry::placeholder(e)), BlockEntry::available(rest))
    }
}

/// The records after the free record at index `r` gave its first `d` bytes
/// to the block that ends where it starts.
///
/// The start of the record moves up by `d` and its size goes down by `d`;
/// left without bytes it is a placeholder.  The record stays in its slot with
/// the new start unless the next record starts at the new start or below it,
/// which only a placeholder can.  Then the slot keeps the old start as a
/// placeholder of no bytes, so that the records stay sorted, and what is left
/// of the record, if anything, is placed at its position.
pub open spec fn advanced(s: Seq<BlockEntry>, r: int, d: int) -> Seq<BlockEntry> {
    let n = s[r].block;
    let rest = Block { address: (n.address + d) as usize, size: (n.size - d) as usize };
    let gone = BlockEntry::placeholder(Block { address: n.address, size: 0 });
    if r + 1 == s.len() || s[r + 1].block.address > rest.address {
        s.update(r, BlockEntry { block: rest, free: rest.size > 0 })
    } else if rest.size > 0 {
        placed(s.update(r, gone), BlockEntry::available(rest))
    } else {
        s.update(r, gone)
    }
}

/// The records after the free record `e`, which lies above all of them, was
/// pushed.
///
/// A record with bytes is joined to the last record of free bytes if that
/// one ends where `e` starts.  Otherwise `e` is appended; only where the last
/// record starts where `e` starts, and so is a placeholder, `e` takes its
/// slot.
pub open spec fn pushed(s: Seq<BlockEntry>, e: BlockEntry) -> Seq<BlockEntry> {
    let l = active_before(s, s.len() as int);
    if e.block.size > 0 && l >= 0 && s[l].block.spec_end() == e.block.address {
        s.update(
            l,
            BlockEntry::available(
                Block {
                    address: s[l].block.address,
                    size: (s[l].block.size + e.block.size) as usize,
                },
            ),
        )
    } else if s.len() > 0 && s[s.len() - 1].block.address == e.block.address {
        s.update(s.len() - 1, e)
    } else {
        s.push(e)
    }
}

/// The records after `block` was freed.
///
/// The block is joined to the nearest record of free bytes before it, if
/// that one ends where the block starts, and to the nearest one behind it, if
/// that one starts where the block ends.  A record behind that is joined
/// turns into a placeholder; where no record before takes the block, the
/// joined record is inserted at the position of the block.  A block that
/// touches no such record gets a record of its own.
pub open spec fn released(s: Seq<BlockEntry>, block: Block) -> Seq<BlockEntry> {
    let ind = position(s, block.address as int);
    let l = active_before(s, ind);
    let r = active_from(s, ind);
    let left = l >= 0 && s[l].block.spec_end() == block.address;
    let right = r < s.len() && block.spec_end() == s[r].block.address;
    if block.size == 0 {
        s
    } else if left && right {
        s.update(r, BlockEntry::placeholder(s[r].block)).update(
            l,
            BlockEntry::available(
                Block {
                    address: s[l].block.address,
                    size: (s[l].block.size + block.size + s[r].block.size) as usize,
                },
            ),
        )
    } else if left {
        s.update(
            l,
            BlockEntry::available(
                Block { address: s[l].block.address, size: (s[l].block.size + block.size) as usize },
            ),
        )
    } else if right {
        inserted(
            s.update(r, BlockEntry::placeholder(s[r].block)),
            ind,
            BlockEntry::available(
                Block { address: block.address, size: (block.size + s[r].block.size) as usize },
            ),
        )
    } else {
        inserted(s, ind, BlockEntry::available(block))
    }
}

/// Every free byte of records in order below `top` lies below `top`.
pub proof fn lemma_free_bytes_below(s: Seq<BlockEntry>, top: int)
    requires
        below(s, top),
    ensures
        forall|x: int| free_bytes(s).contains(x) ==> 0 <= x < top,
{
    assert forall|x: int| #[trigger] free_bytes(s).contains(x) implies 0 <= x < top by {
        let i = choose|i: int| 0 <= i < s.len() && (#[trigger] s[i]).covers(x);
    }
}

/// Carving bytes out of a free record keeps the records in order and takes
/// just those bytes out of the free bytes.
pub proof fn lemma_carved(s: Seq<BlockEntry>, top: int, n: int, pad: int, size: int)
    requires
        in_order(s, top),
        top <= usize::MAX,
        0 <= n < s.len(),
        s[n].free,
        0 <= pad,
        0 <= size,
        pad + size <= s[n].block.size,
    ensures
        in_order(carved(s, n, pad, size), top),
        free_bytes(carved(s, n, pad, size)) == free_bytes(s).difference(
            (Block { address: (s[n].block.address + pad) as usize, size: size as usize }).range(),
        ),
        s.len() <= carved(s, n, pad, size).len() <= s.len() + 1,
{
    let e = s[n].block;
    let stub = BlockEntry::available(Block { address: e.address, size: pad as usize });
    let rest = BlockEntry::available(
        Block { address: (e.address + pad + size) as usize, size: (e.size - pad - size) as usize },
    );
    let gone = BlockEntry::placeholder(e);
    let taken = (Block { address: (e.address + pad) as usize, size: size as usize }).range();
    let t = carved(s, n, pad, size);
    lemma_free_bytes_update(s, n, stub);
    lemma_free_bytes_update(s, n, gone);
    lemma_free_bytes_update(s, n, rest);
    assert forall|x: int| s[n].covers(x) implies free_bytes(s).contains(x) by {
        assert(s[n].covers(x));
    }
    if size == 0 {
        assert(free_bytes(t) =~= free_bytes(s).difference(taken));
    } else if pad > 0 {
        if rest.block.size > 0 {
            lemma_placed(s.update(n, stub), top, rest);
        }
        assert(free_bytes(t) =~= free_bytes(s).difference(taken));
    } else if rest.block.size == 0 {
        assert(free_bytes(t) =~= free_bytes(s).difference(taken));
    } else if n + 1 == s.len() || s[n + 1].block.address > rest.block.address {
        assert(free_bytes(t) =~= free_bytes(s).difference(taken));
    } else {
        lemma_placed(s.update(n, gone), top, rest);
        assert(free_bytes(t) =~= free_bytes(s).difference(taken));
    }
}

/// Taking the first bytes of a free record keeps the records in order and
/// takes just those bytes out of the free bytes.
pub proof fn lemma_advanced(s: Seq<BlockEntry>, top: int, r: int, d: int)
    requires
        in_order(s, top),
        top <= usize::MAX,
        0 <= r < s.len(),
        s[r].free,
        0 < d <= s[r].block.size,
    ensures
        in_order(advanced(s, r, d), top),
        free_bytes(advanced(s, r, d)) == free_bytes(s).difference(
            (Block { address: s[r].block.address, size: d as usize }).range(),
        ),
        s.len() <= advanced(s, r, d).len() <= s.len() + 1,
{
    let n = s[r].block;
    let rest = Block { address: (n.address + d) as usize, size: (n.size - d) as usize };
    let gone = BlockEntry::placeholder(Block { address: n.address, size: 0 });
    let moved = BlockEntry { block: rest, free: rest.size > 0 };
    let taken = (Block { address: n.address, size: d as usize }).range();
    let t = advanced(s, r, d);
    lemma_free_bytes_update(s, r, gone);
    lemma_free_bytes_update(s, r, moved);
    assert forall|x: int| s[r].covers(x) implies free_bytes(s).contains(x) by {
        assert(s[r].covers(x));
    }
    if r + 1 == s.len() || s[r + 1].block.address > rest.address {
        assert(free_bytes(t) =~= free_bytes(s).difference(taken));
    } else if rest.size > 0 {
        lemma_placed(s.update(r, gone), top, BlockEntry::available(rest));
        assert(free_bytes(t) =~= free_bytes(s).difference(taken));
    } else {
        assert(free_bytes(t) =~= free_bytes(s).difference(taken));
    }
}

/// Pushing a free record that lies above all records keeps the records in
/// order and adds its bytes to the free bytes.  Afterwards no record starts
/// above it, no record of free bytes ends above its end, and every
/// placeholder but the record itself is one that was there before.
pub proof fn lemma_pushed(s: Seq<BlockEntry>, top: int, e: BlockEntry)
    requires
        in_order(s, top),
        top <= usize::MAX,
        e.free,
        e.block.spec_end() <= top,
        forall|j: int| 0 <= j < s.len() ==> (#[trigger] s[j]).block.address <= e.block.address,
        forall|j: int|
            0 <= j < s.len() && (#[trigger] s[j]).active() ==> s[j].block.spec_end()
                <= e.block.address,
    ensures
        in_order(pushed(s, e), top),
        free_bytes(pushed(s, e)) == free_bytes(s).union(e.bytes()),
        s.len() <= pushed(s, e).len() <= s.len() + 1,
        forall|j: int|
            0 <= j < pushed(s, e).len() ==> (#[trigger] pushed(s, e)[j]).block.address
                <= e.block.address,
        forall|j: int|
            0 <= j < pushed(s, e).len() && (#[trigger] pushed(s, e)[j]).active() ==> pushed(
                s,
                e,
            )[j].block.spec_end() <= e.block.spec_end(),
        forall|j: int|
            0 <= j < pushed(s, e).len() && !(#[trigger] pushed(s, e)[j]).active() ==> pushed(
                s,
                e,
            )[j] == e || (j < s.len() && pushed(s, e)[j] == s[j]),
{
    let t = pushed(s, e);
    let l = active_before(s, s.len() as int);
    lemma_active_before(s, s.len() as int);
    if e.block.size > 0 && l >= 0 && s[l].block.spec_end() == e.block.address {
        lemma_free_bytes_update(s, l, t[l]);
        assert forall|x: int| s[l].covers(x) implies free_bytes(s).contains(x) by {
            assert(s[l].covers(x));
        }
        assert(free_bytes(t) =~= free_bytes(s).union(e.bytes()));
    } else if s.len() > 0 && s[s.len() - 1].block.address == e.block.address {
        lemma_free_bytes_update(s, s.len() - 1, e);
        assert(free_bytes(t) =~= free_bytes(s).union(e.bytes()));
    } else {
        lemma_free_bytes_insert(s, s.len() as int, e);
        assert(s.insert(s.len() as int, e) =~= s.push(e));
    }
}

/// Freeing a block of which no byte is free keeps the records in order and
/// adds the bytes of the block to the free bytes.
pub proof fn lemma_released(s: Seq<BlockEntry>, top: int, block: Block)
    requires
        in_order(s, top),
        top <= usize::MAX,
        block.spec_end() <= top,
        block.range().disjoint(free_bytes(s)),
    ensures
        in_order(released(s, block), top),
        free_bytes(released(s, block)) == free_bytes(s).union(block.range()),
        s.len() <= released(s, block).len() <= s.len() + 1,
{
    let t = released(s, block);
    let ind = position(s, block.address as int);
    let l = active_before(s, ind);
    let r = active_from(s, ind);
    if block.size == 0 {
        assert(free_bytes(t) =~= free_bytes(s).union(block.range()));
    } else {
        lemma_position_found(s, 0, block.address as int);
        lemma_active_before(s, ind);
        lemma_active_from(s, ind);
        lemma_clear_of_records(s, block);
        let left = l >= 0 && s[l].block.spec_end() == block.address;
        let right = r < s.len() && block.spec_end() == s[r].block.address;
        if l >= 0 {
            assert forall|x: int| s[l].covers(x) implies free_bytes(s).contains(x) by {
                assert(s[l].covers(x));
            }
        }
        if r < s.len() {
            assert forall|x: int| s[r].covers(x) implies free_bytes(s).contains(x) by {
                assert(s[r].covers(x));
            }
        }
        if left && right {
            let between = s.update(r, BlockEntry::placeholder(s[r].block));
            lemma_free_bytes_update(s, r, between[r]);
            lemma_free_bytes_update(between, l, t[l]);
            assert(free_bytes(t) =~= free_bytes(s).union(block.range()));
        } else if left {
            lemma_free_bytes_update(s, l, t[l]);
            assert(free_bytes(t) =~= free_bytes(s).union(block.range()));
        } else if right {
            let between = s.update(r, BlockEntry::placeholder(s[r].block));
            let joined = BlockEntry::available(
                Block { address: block.address, size: (block.size + s[r].block.size) as usize },
            );
            lemma_free_bytes_update(s, r, between[r]);
            lemma_inserted(between, top, ind, joined);
            assert(free_bytes(t) =~= free_bytes(s).union(block.range()));
        } else {
            lemma_inserted(s, top, ind, BlockEntry::available(block));
        }
    }
}

} // verus!
