//! The segment of address space that the heap lives in.
use vstd::prelude::*;

verus! {

/// The error of a request to move the end of the segment.  It carries the
/// end of the segment, which the failed request left where it was.
#[derive(Clone, Copy, Debug, PartialEq, Eq, Structural)]
pub struct BrkError {
    pub handle: usize,
}

impl BrkError {
    /// The end of the segment, unchanged by the failed request.
    pub fn handle(&self) -> (h: usize)
        ensures
            h == self.handle,
    {
        self.handle
    }
}

/// The managed region: it ends at `end`, and the system lets the end rise
/// up to `limit` and no further.
#[derive(Clone, Copy, Debug, PartialEq, Eq, Structural)]
pub struct Segment {
    pub end: usize,
    pub limit: usize,
}

impl Segment {
    /// The end of the segment does not lie above its limit.
    pub open spec fn wf(self) -> bool {
        self.end <= self.limit
    }

    /// The bytes that a request for `size` more bytes adds to the segment.
    pub open spec fn fresh(self, size: int) -> Set<int> {
        Set::new(|x: int| self.end <= x < self.end + size)
    }

    /// A segment that ends at `end`.  A limit below `end` is raised to `end`.
    pub fn new(end: usize, limit: usize) -> (s: Segment)
        ensures
            s.wf(),
            s.end == end,
            s.limit == if limit < end { end } else { limit },
    {
        Segment { end, limit: if limit < end { end } else { limit } }
    }

    /// The current end of the segment.
    pub fn segment_end(&self) -> (e: usize)
        ensures
            e == self.end,
    {
        self.end
    }

    /// The number of bytes by which the segment can still grow.
    pub fn room(&self) -> (r: usize)
        requires
            self.wf(),
        ensures
            r == self.limit - self.end,
    {
        self.limit - self.end
    }

    /// Extends the segment by `size` bytes and returns its previous end, where
    /// the new bytes start.  A request that would pass the limit fails and
    /// leaves the segment as it was; the error holds the unchanged end.
    pub fn inc_brk(&mut self, size: usize) -> (r: Result<usize, BrkError>)
        requires
            old(self).wf(),
        ensures
            final(self).wf(),
            final(self).limit == old(self).limit,
            old(self).end + size <= old(self).limit ==> r == Ok::<usize, BrkError>(old(self).end)
                && final(self).end == old(self).end + size,
            old(self).end + size > old(self).limit ==> r == Err::<usize, BrkError>(
                BrkError { handle: old(self).end },
            ) && *final(self) == *old(self),
    {
        if size <= self.limit - self.end {
            let base: usize = self.end;
            self.end = base + size;
            Ok(base)
        } else {
            Err(BrkError { handle: self.end })
        }
    }

    /// Records that the system lets the segment rise up to `limit`.  A limit
    /// that is not above the present one changes nothing.
    pub fn raise_limit(&mut self, limit: usize)
        requires
            old(self).wf(),
        ensures
            final(self).wf(),
            final(self).end == old(self).end,
            final(self).limit == if limit > old(self).limit { limit } else { old(self).limit },
    {
        if limit > self.limit {
            self.limit = limit;
        }
    }
}

} // verus!
