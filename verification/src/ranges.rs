//! What a sequence of records says about memory, and when it is in order.
use vstd::prelude::*;
use crate::block::{Block, BlockEntry};
use crate::sizes::padding;

verus! {

/// The records are sorted strictly ascending by address.
pub open spec fn ascending(s: Seq<BlockEntry>) -> bool {
    forall|i: int, j: int|
        0 <= i < j < s.len() ==> (#[trigger] s[i]).block.address < (#[trigger] s[j]).block.address
}

/// No two records of free bytes overlap or touch: between any two of them
/// lies at least one byte that is not free.
pub open spec fn separated(s: Seq<BlockEntry>) -> bool {
    forall|i: int, j: int|
        0 <= i < j < s.len() && (#[trigger] s[i]).active() && (#[trigger] s[j]).active()
            ==> s[i].block.spec_end() < s[j].block.address
}

/// Every record starts at or below `top`, and a free record ends at or
/// below `top`.
pub open spec fn below(s: Seq<BlockEntry>, top: int) -> bool {
    forall|i: int|
        0 <= i < s.len() ==> (#[trigger] s[i]).block.address <= top && (s[i].free
            ==> s[i].block.spec_end() <= top)
}

/// The records are in order below `top`: sorted, with their records of free
/// bytes apart, and inside the memory below `top`.
pub open spec fn in_order(s: Seq<BlockEntry>, top: int) -> bool {
    ascending(s) && separated(s) && below(s, top)
}

/// Some record of `s` says that the byte at `x` is free.
pub open spec fn free_at(s: Seq<BlockEntry>, x: int) -> bool {
    exists|i: int| 0 <= i < s.len() && (#[trigger] s[i]).covers(x)
}

/// The addresses that the records of `s` say are free.
pub open spec fn free_bytes(s: Seq<BlockEntry>) -> Set<int> {
    Set::new(|x: int| free_at(s, x))
}

/// The first index from `from` on that holds a placeholder, or the length of
/// `s` if there is none.
pub open spec fn next_placeholder(s: Seq<BlockEntry>, from: int) -> int
    decreases s.len() - from,
{
    if from < 0 || from >= s.len() {
        s.len() as int
    } else if !s[from].active() {
        from
    } else {
        next_placeholder(s, from + 1)
    }
}

/// The first index from `from` on whose record starts at `address` or
/// above, or the length of `s` if there is none.
pub open spec fn position_from(s: Seq<BlockEntry>, from: int, address: int) -> int
    decreases s.len() - from,
{
    if from < 0 || from >= s.len() {
        s.len() as int
    } else if s[from].block.address >= address {
        from
    } else {
        position_from(s, from + 1, address)
    }
}

/// The index at which a record that starts at `address` belongs in the
/// sorted sequence `s`.
pub open spec fn position(s: Seq<BlockEntry>, address: int) -> int {
    position_from(s, 0, address)
}

/// The index of the nearest record of free bytes before index `upto`, or
/// -1 if there is none.
pub open spec fn active_before(s: Seq<BlockEntry>, upto: int) -> int
    decreases upto,
{
    if upto <= 0 || upto > s.len() {
        -1
    } else if s[upto - 1].active() {
        upto - 1
    } else {
        active_before(s, upto - 1)
    }
}

/// The index of the nearest record of free bytes from index `from` on, or
/// the length of `s` if there is none.
pub open spec fn active_from(s: Seq<BlockEntry>, from: int) -> int
    decreases s.len() - from,
{
    if from < 0 || from >= s.len() {
        s.len() as int
    } else if s[from].active() {
        from
    } else {
        active_from(s, from + 1)
    }
}

/// `ind` is where a record with the address `address` belongs: all records
/// before it start lower, and none from it on does.
pub open spec fn is_position(s: Seq<BlockEntry>, ind: int, address: int) -> bool {
    &&& 0 <= ind <= s.len()
    &&& forall|j: int| 0 <= j < ind ==> (#[trigger] s[j]).block.address < address
    &&& forall|j: int| ind <= j < s.len() ==> (#[trigger] s[j]).block.address >= address
}

/// The position of an address is the one index at which a record with that
/// address belongs.
pub proof fn lemma_position(s: Seq<BlockEntry>, from: int, ind: int, address: int)
    requires
        is_position(s, ind, address),
        0 <= from <= ind,
    ensures
        position_from(s, from, address) == ind,
    decreases ind - from,
{
    if from < ind {
        lemma_position(s, from + 1, ind, address);
    }
}

/// The position of an address in a sorted sequence is where a record with
/// that address belongs.
pub proof fn lemma_position_found(s: Seq<BlockEntry>, from: int, address: int)
    requires
        ascending(s),
        0 <= from <= s.len(),
    ensures
        from <= position_from(s, from, address) <= s.len(),
        forall|j: int|
            from <= j < position_from(s, from, address) ==> (#[trigger] s[j]).block.address
                < address,
        forall|j: int|
            position_from(s, from, address) <= j < s.len() ==> (#[trigger] s[j]).block.address
                >= address,
    decreases s.len() - from,
{
    if from < s.len() && s[from].block.address < address {
        lemma_position_found(s, from + 1, address);
    }
}

/// The nearest record of free bytes before `upto` holds free bytes, and
/// only placeholders lie between it and `upto`.
pub proof fn lemma_active_before(s: Seq<BlockEntry>, upto: int)
    requires
        0 <= upto <= s.len(),
    ensures
        -1 <= active_before(s, upto) < upto,
        active_before(s, upto) >= 0 ==> s[active_before(s, upto)].active(),
        forall|j: int| active_before(s, upto) < j < upto ==> !(#[trigger] s[j]).active(),
    decreases upto,
{
    if upto > 0 && !s[upto - 1].active() {
        lemma_active_before(s, upto - 1);
    }
}

/// The nearest record of free bytes from `from` on holds free bytes, and
/// only placeholders lie between `from` and it.
pub proof fn lemma_active_from(s: Seq<BlockEntry>, from: int)
    requires
        0 <= from <= s.len(),
    ensures
        from <= active_from(s, from) <= s.len(),
        active_from(s, from) < s.len() ==> s[active_from(s, from)].active(),
        forall|j: int| from <= j < active_from(s, from) ==> !(#[trigger] s[j]).active(),
    decreases s.len() - from,
{
    if from < s.len() && !s[from].active() {
        lemma_active_from(s, from + 1);
    }
}

/// The first placeholder from `from` on lies between `from` and the end, and
/// every record before it, from `from` on, holds free bytes.
pub proof fn lemma_next_placeholder(s: Seq<BlockEntry>, from: int)
    requires
        0 <= from <= s.len(),
    ensures
        from <= next_placeholder(s, from) <= s.len(),
        next_placeholder(s, from) < s.len() ==> !s[next_placeholder(s, from)].active(),
        forall|j: int| from <= j < next_placeholder(s, from) ==> (#[trigger] s[j]).active(),
    decreases s.len() - from,
{
    if from < s.len() && s[from].active() {
        lemma_next_placeholder(s, from + 1);
    }
}

/// Inserting a record adds its bytes to the free bytes.
pub proof fn lemma_free_bytes_insert(s: Seq<BlockEntry>, ind: int, e: BlockEntry)
    requires
        0 <= ind <= s.len(),
    ensures
        free_bytes(s.insert(ind, e)) == free_bytes(s).union(e.bytes()),
{
    let t = s.insert(ind, e);
    assert forall|x: int| free_bytes(t).contains(x) <==> free_bytes(s).union(e.bytes()).contains(
        x,
    ) by {
        if free_at(t, x) {
            let i = choose|i: int| 0 <= i < t.len() && (#[trigger] t[i]).covers(x);
            if i < ind {
                assert(s[i].covers(x));
            } else if i > ind {
                assert(s[i - 1].covers(x));
            }
        }
        if free_at(s, x) {
            let i = choose|i: int| 0 <= i < s.len() && (#[trigger] s[i]).covers(x);
            if i < ind {
                assert(t[i].covers(x));
            } else {
                assert(t[i + 1].covers(x));
            }
        }
        if e.covers(x) {
            assert(t[ind].covers(x));
        }
    }
    assert(free_bytes(t) =~= free_bytes(s).union(e.bytes()));
}

/// Removing a placeholder leaves the free bytes as they were.
pub proof fn lemma_free_bytes_remove(s: Seq<BlockEntry>, n: int)
    requires
        0 <= n < s.len(),
        !s[n].active(),
    ensures
        free_bytes(s.remove(n)) == free_bytes(s),
{
    let t = s.remove(n);
    assert forall|x: int| free_bytes(t).contains(x) <==> free_bytes(s).contains(x) by {
        if free_at(t, x) {
            let i = choose|i: int| 0 <= i < t.len() && (#[trigger] t[i]).covers(x);
            if i < n {
                assert(s[i].covers(x));
            } else {
                assert(s[i + 1].covers(x));
            }
        }
        if free_at(s, x) {
            let i = choose|i: int| 0 <= i < s.len() && (#[trigger] s[i]).covers(x);
            if i < n {
                assert(t[i].covers(x));
            } else {
                assert(t[i - 1].covers(x));
            }
        }
    }
    assert(free_bytes(t) =~= free_bytes(s));
}

/// Replacing the record at `k` takes its bytes out of the free bytes and puts
/// in those of the new record.
pub proof fn lemma_free_bytes_update(s: Seq<BlockEntry>, k: int, e: BlockEntry)
    requires
        0 <= k < s.len(),
        separated(s),
    ensures
        free_bytes(s.update(k, e)) == free_bytes(s).difference(s[k].bytes()).union(e.bytes()),
{
    let t = s.update(k, e);
    let goal = free_bytes(s).difference(s[k].bytes()).union(e.bytes());
    assert forall|x: int| free_bytes(t).contains(x) <==> goal.contains(x) by {
        if free_at(t, x) {
            let i = choose|i: int| 0 <= i < t.len() && (#[trigger] t[i]).covers(x);
            if i != k {
                assert(s[i].covers(x));
                assert(!s[k].covers(x));
            }
        }
        if free_at(s, x) && !s[k].covers(x) {
            let i = choose|i: int| 0 <= i < s.len() && (#[trigger] s[i]).covers(x);
            assert(t[i].covers(x));
        }
        if e.covers(x) {
            assert(t[k].covers(x));
        }
    }
    assert(free_bytes(t) =~= goal);
}

/// A block of which no byte is free lies clear of every record of free
/// bytes.
pub proof fn lemma_clear_of_records(s: Seq<BlockEntry>, block: Block)
    requires
        block.range().disjoint(free_bytes(s)),
        block.size > 0,
    ensures
        forall|j: int|
            0 <= j < s.len() && (#[trigger] s[j]).active() ==> s[j].block.spec_end()
                <= block.address || block.spec_end() <= s[j].block.address,
{
    assert forall|j: int| 0 <= j < s.len() && (#[trigger] s[j]).active() implies
        s[j].block.spec_end() <= block.address || block.spec_end() <= s[j].block.address by {
        let x: int = if s[j].block.address >= block.address {
            s[j].block.address as int
        } else {
            block.address as int
        };
        if !(s[j].block.spec_end() <= block.address || block.spec_end() <= s[j].block.address) {
            assert(s[j].covers(x));
            assert(free_bytes(s).contains(x));
            assert(block.range().contains(x));
        }
    }
}

/// A block that lies clear of every record of free bytes has no free byte.
pub proof fn lemma_records_clear_of(s: Seq<BlockEntry>, block: Block)
    requires
        forall|j: int|
            0 <= j < s.len() && (#[trigger] s[j]).active() ==> s[j].block.spec_end()
                <= block.address || block.spec_end() <= s[j].block.address,
    ensures
        block.range().disjoint(free_bytes(s)),
{
    assert forall|x: int| !(block.range().contains(x) && free_bytes(s).contains(x)) by {
        if block.contains(x) && free_at(s, x) {
            let i = choose|i: int| 0 <= i < s.len() && (#[trigger] s[i]).covers(x);
        }
    }
}

/// A run of free bytes lies in one record: the records are separated, so no
/// run can pass from one record into the next.
pub proof fn lemma_run_in_one_record(s: Seq<BlockEntry>, lo: int, hi: int) -> (i: int)
    requires
        separated(s),
        lo < hi,
        forall|x: int| lo <= x < hi ==> free_bytes(s).contains(x),
    ensures
        0 <= i < s.len(),
        s[i].active(),
        s[i].block.address <= lo,
        hi <= s[i].block.spec_end(),
{
    assert(free_bytes(s).contains(lo));
    let i = choose|i: int| 0 <= i < s.len() && (#[trigger] s[i]).covers(lo);
    if s[i].block.spec_end() < hi {
        let x = s[i].block.spec_end();
        assert(free_bytes(s).contains(x));
        let j = choose|j: int| 0 <= j < s.len() && (#[trigger] s[j]).covers(x);
        assert(false);
    }
    i
}

/// A byte is free in at most one record.
pub proof fn lemma_one_record_per_byte(s: Seq<BlockEntry>, i: int, j: int, x: int)
    requires
        separated(s),
        0 <= i < s.len(),
        0 <= j < s.len(),
        s[i].covers(x),
        s[j].covers(x),
    ensures
        i == j,
{
}

/// The free record `e` has room for `size` bytes at a multiple of `align`.
pub open spec fn suits(e: BlockEntry, size: int, align: int) -> bool {
    e.free && padding(e.block.address as int, align) + size <= e.block.size
}

/// The first index from `from` on whose record suits the request, or the
/// length of `s` if none does.
pub open spec fn first_fit(s: Seq<BlockEntry>, from: int, size: int, align: int) -> int
    decreases s.len() - from,
{
    if from < 0 || from >= s.len() {
        s.len() as int
    } else if suits(s[from], size, align) {
        from
    } else {
        first_fit(s, from + 1, size, align)
    }
}

/// The first fit from `from` on lies between `from` and the end; its record
/// suits the request, and no record before it, from `from` on, does.
pub proof fn lemma_first_fit(s: Seq<BlockEntry>, from: int, size: int, align: int)
    requires
        0 <= from <= s.len(),
    ensures
        from <= first_fit(s, from, size, align) <= s.len(),
        first_fit(s, from, size, align) < s.len() ==> suits(
            s[first_fit(s, from, size, align)],
            size,
            align,
        ),
        forall|j: int|
            from <= j < first_fit(s, from, size, align) ==> !suits(#[trigger] s[j], size, align),
    decreases s.len() - from,
{
    if from < s.len() && !suits(s[from], size, align) {
        lemma_first_fit(s, from + 1, size, align);
    }
}

} // verus!
