//! The arithmetic of the heap: padding up to an alignment, the size by which
//! the segment grows, and the room that the list makes for its records.
use vstd::prelude::*;
use vstd::arithmetic::div_mod::{
    lemma_fundamental_div_mod, lemma_mod_bound, lemma_mod_multiples_basic,
};

verus! {

/// The least number of bytes by which the segment is extended.
pub const BRK_MIN: usize = 200;

/// The most that an extension of the segment adds to what was asked for.
pub const BRK_MIN_EXTRA: usize = 500;

/// The number of bytes from `address` up to the next multiple of `align`.
pub open spec fn padding(address: int, align: int) -> int {
    if address % align == 0 {
        0
    } else {
        align - address % align
    }
}

/// The number of bytes by which the segment is extended for an allocation of
/// `size` bytes: the size and as much again, but at most `BRK_MIN_EXTRA`
/// more, and at least `BRK_MIN` in all.
pub open spec fn canonical_size(size: int) -> int {
    let extra = if size < BRK_MIN_EXTRA { size } else { BRK_MIN_EXTRA as int };
    if size + extra < BRK_MIN { BRK_MIN as int } else { size + extra }
}

/// The number of bytes to skip from `address` to reach a multiple of
/// `align`: 0 when `address` is one already.
pub fn aligner(address: usize, align: usize) -> (pad: usize)
    requires
        align > 0,
    ensures
        pad == padding(address as int, align as int),
        pad < align,
        (address + pad) % (align as int) == 0,
{
    let rem: usize = address % align;
    proof {
        lemma_padding_aligns(address as int, align as int);
    }
    if rem == 0 {
        0
    } else {
        align - rem
    }
}

/// `address` plus its padding is a multiple of `align`, and the padding is
/// less than `align`.
pub proof fn lemma_padding_aligns(address: int, align: int)
    requires
        align > 0,
        address >= 0,
    ensures
        0 <= padding(address, align) < align,
        (address + padding(address, align)) % align == 0,
{
    let r = address % align;
    let q = address / align;
    lemma_fundamental_div_mod(address, align);
    lemma_mod_bound(address, align);
    if r != 0 {
        assert(address + (align - r) == align * (q + 1)) by (nonlinear_arith)
            requires
                address == align * q + r,
        ;
        lemma_mod_multiples_basic(q + 1, align);
        assert((q + 1) * align == align * (q + 1)) by (nonlinear_arith);
    }
}

/// The least multiple of `mult` that is not below `n`.
pub fn nearest_multiple(n: u64, mult: u64) -> (m: u64)
    requires
        mult > 0,
        n + mult <= u64::MAX,
    ensures
        m == n + padding(n as int, mult as int),
        m % mult == 0,
        n <= m < n + mult,
{
    let rem: u64 = n % mult;
    proof {
        lemma_padding_aligns(n as int, mult as int);
    }
    if rem != 0 {
        n + mult - rem
    } else {
        n
    }
}

/// The number of bytes by which to extend the segment for an allocation of
/// `size` bytes.
pub fn canonicalize_brk(size: usize) -> (bytes: usize)
    requires
        size <= usize::MAX - BRK_MIN_EXTRA,
    ensures
        bytes == canonical_size(size as int),
        bytes >= BRK_MIN,
        bytes >= size,
        size > 0 ==> bytes > size,
{
    let extra: usize = if size < BRK_MIN_EXTRA { size } else { BRK_MIN_EXTRA };
    let wanted: usize = size + extra;
    if wanted < BRK_MIN {
        BRK_MIN
    } else {
        wanted
    }
}

/// No multiple of `align` lies between an address and that address plus its
/// padding.
pub proof fn lemma_padding_least(address: int, align: int, y: int)
    requires
        align > 0,
        0 <= address <= y,
        y % align == 0,
    ensures
        address + padding(address, align) <= y,
{
    lemma_padding_aligns(address, align);
    let up = address + padding(address, align);
    if y < up {
        lemma_fundamental_div_mod(up, align);
        lemma_fundamental_div_mod(y, align);
        let q = up / align - y / align;
        assert(up - y == align * q) by (nonlinear_arith)
            requires
                up == align * (up / align),
                y == align * (y / align),
                q == up / align - y / align,
        ;
        assert(false) by (nonlinear_arith)
            requires
                up - y == align * q,
                0 < up - y < align,
        ;
    }
}

/// The capacity after room for `needed` records was asked of a list with
/// room for `cap`: unchanged if that is enough, else twice what is needed.
pub open spec fn grown(cap: usize, needed: usize) -> usize {
    if needed <= cap {
        cap
    } else if needed * 2 <= usize::MAX {
        (needed * 2) as usize
    } else {
        usize::MAX
    }
}

/// The capacity of a list that had room for `cap` records and grew from
/// `from` records to `to`: room was made for each record that was added.
pub open spec fn capacity_for(cap: usize, from: int, to: int) -> usize
    decreases to - from,
{
    if to <= from {
        cap
    } else {
        grown(capacity_for(cap, from, to - 1), to as usize)
    }
}

/// A list that grows from `a` records to `b` and then to `d` has the
/// capacity of one that grows from `a` to `d`.
pub proof fn lemma_capacity_chain(cap: usize, a: int, b: int, d: int)
    requires
        a <= b <= d,
    ensures
        capacity_for(capacity_for(cap, a, b), b, d) == capacity_for(cap, a, d),
    decreases d - b,
{
    if b < d {
        lemma_capacity_chain(cap, a, b, d - 1);
    }
}

/// A list that keeps its length keeps its capacity; one that gets one record
/// more makes room for that many.
pub proof fn lemma_capacity_step(cap: usize, len: int)
    ensures
        capacity_for(cap, len, len) == cap,
        capacity_for(cap, len, len + 1) == grown(cap, (len + 1) as usize),
{
    assert(capacity_for(cap, len, len + 1) == grown(
        capacity_for(cap, len, len),
        (len + 1) as usize,
    ));
}

/// A list that had room for its records has room for them after it grew.
pub proof fn lemma_capacity_holds(cap: usize, from: int, to: int)
    requires
        0 <= from <= cap,
        from <= to <= usize::MAX,
    ensures
        capacity_for(cap, from, to) >= to,
    decreases to - from,
{
    if from < to {
        lemma_capacity_holds(cap, from, to - 1);
    }
}

} // verus!
