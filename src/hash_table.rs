use vstd::prelude::*;

use crate::scan_map::in_bounds;
use crate::types::RowPtr;

verus! {

/// The build rows of `chain` from position `from` on whose key is `key`, in
/// chain order.
pub open spec fn matches_from(chain: Seq<(u64, RowPtr)>, key: u64, from: int) -> Seq<RowPtr>
    decreases chain.len() - from,
{
    if from < 0 || from >= chain.len() {
        seq![]
    } else if chain[from].0 == key {
        seq![chain[from].1] + matches_from(chain, key, from + 1)
    } else {
        matches_from(chain, key, from + 1)
    }
}

/// What is left to fetch for `key` after a fetch handed back the
/// continuation `next` (zero: nothing).
pub open spec fn remaining(chain: Seq<(u64, RowPtr)>, key: u64, next: usize) -> Seq<RowPtr> {
    if next == 0 {
        seq![]
    } else {
        matches_from(chain, key, next as int)
    }
}

/// The read-only build-side index: a chain of (key, build row) entries. The
/// matches of a key are fetched in slices bounded by the caller's buffer,
/// each fetch handing back a continuation from which the next slice starts.
pub struct BuildTable {
    pub chain: Vec<(u64, RowPtr)>,
}

impl BuildTable {
    /// Every build row that `key` matches, in chain order.
    pub open spec fn matches(&self, key: u64) -> Seq<RowPtr> {
        matches_from(self.chain@, key, 0)
    }

    /// Every build row of the chain addresses a cell of a map of shape `m`.
    pub open spec fn fits(&self, m: Seq<Seq<bool>>) -> bool {
        forall|k: int| 0 <= k < self.chain@.len() ==> in_bounds(m, #[trigger] self.chain@[k].1)
    }

    pub fn new(chain: Vec<(u64, RowPtr)>) -> (r: BuildTable)
        ensures
            r.chain@ == chain@,
    {
        BuildTable { chain }
    }

    /// Writes the first slice of the matches of `key` into
    /// `buf[offset..]`, at most `cap - offset` of them, and returns their
    /// number with the continuation.
    pub fn probe(&self, key: u64, buf: &mut Vec<RowPtr>, offset: usize, cap: usize) -> (r: (
        usize,
        usize,
    ))
        requires
            old(buf)@.len() == cap,
            offset < cap,
        ensures
            Self::fetched(self.chain@, key, 0, *old(buf), *final(buf), offset, cap, r),
    {
        self.scan(key, 0, buf, offset, cap)
    }

    /// Writes the next slice of the matches of `key`, from the continuation
    /// `next` that an earlier fetch handed back, into `buf[offset..]`.
    pub fn next_incomplete_ptr(
        &self,
        key: u64,
        next: usize,
        buf: &mut Vec<RowPtr>,
        offset: usize,
        cap: usize,
    ) -> (r: (usize, usize))
        requires
            old(buf)@.len() == cap,
            offset < cap,
            next <= self.chain@.len(),
        ensures
            Self::fetched(self.chain@, key, next, *old(buf), *final(buf), offset, cap, r),
    {
        self.scan(key, next, buf, offset, cap)
    }

    /// The outcome of one fetch from `from`: `r.0` matches were written
    /// after `offset`, the rest of the buffer is kept, and the written slice
    /// followed by what remains after the continuation `r.1` is every match
    /// from `from`. A continuation is handed back only when the buffer is
    /// full.
    pub open spec fn fetched(
        chain: Seq<(u64, RowPtr)>,
        key: u64,
        from: usize,
        before: Vec<RowPtr>,
        after: Vec<RowPtr>,
        offset: usize,
        cap: usize,
        r: (usize, usize),
    ) -> bool {
        &&& after@.len() == cap
        &&& offset + r.0 <= cap
        &&& after@.subrange(0, offset as int) == before@.subrange(0, offset as int)
        &&& after@.subrange(offset as int, offset + r.0) + remaining(chain, key, r.1) == matches_from(
            chain,
            key,
            from as int,
        )
        &&& r.1 <= chain.len()
        &&& r.1 != 0 ==> offset + r.0 == cap && r.1 > from
    }

    fn scan(&self, key: u64, from: usize, buf: &mut Vec<RowPtr>, offset: usize, cap: usize) -> (r: (
        usize,
        usize,
    ))
        requires
            old(buf)@.len() == cap,
            offset < cap,
            from <= self.chain@.len(),
        ensures
            Self::fetched(self.chain@, key, from, *old(buf), *final(buf), offset, cap, r),
    {
        let ghost start = *buf;
        let mut pos = from;
        let mut count: usize = 0;
        while pos < self.chain.len() && offset + count < cap
            invariant
                from <= pos <= self.chain@.len(),
                offset + count <= cap,
                count <= pos - from,
                buf@.len() == cap,
                buf@.subrange(0, offset as int) == start@.subrange(0, offset as int),
                buf@.subrange(offset as int, offset + count) + matches_from(self.chain@, key, pos as int)
                    == matches_from(self.chain@, key, from as int),
            decreases self.chain@.len() - pos,
        {
            let ghost before = *buf;
            let entry = self.chain[pos];
            if entry.0 == key {
                buf.set(offset + count, entry.1);
                assert(buf@.subrange(0, offset as int) =~= before@.subrange(0, offset as int));
                assert(buf@.subrange(offset as int, offset + count + 1) =~= before@.subrange(
                    offset as int,
                    offset + count,
                ).push(entry.1));
                assert(before@.subrange(offset as int, offset + count).push(entry.1) + matches_from(
                    self.chain@,
                    key,
                    pos + 1,
                ) =~= before@.subrange(offset as int, offset + count) + (seq![entry.1]
                    + matches_from(self.chain@, key, pos + 1)));
                count = count + 1;
            }
            pos = pos + 1;
        }
        if pos == self.chain.len() {
            assert(matches_from(self.chain@, key, pos as int) == Seq::<RowPtr>::empty());
            assert(buf@.subrange(offset as int, offset + count) + Seq::<RowPtr>::empty() =~= buf@.subrange(
                offset as int,
                offset + count,
            ));
            (count, 0)
        } else {
            (count, pos)
        }
    }
}

} // verus!
