use vstd::prelude::*;

verus! {

/// How many blocks to list from each segment, in segment order, when at most
/// `len` blocks are listed: every block of a segment while the total stays
/// under `len`, then what is left of `len` from the segment that reaches it,
/// and nothing after that segment.
pub open spec fn take_counts(counts: Seq<usize>, len: int) -> Seq<int>
    decreases counts.len(),
{
    if counts.len() == 0 {
        seq![]
    } else if counts[0] >= len {
        seq![len]
    } else {
        seq![counts[0] as int] + take_counts(counts.drop_first(), len - counts[0])
    }
}

/// The listing of the blocks of a table snapshot: which snapshot, and at
/// most how many blocks.
pub struct FuseBlock {
    pub snapshot_id: Option<String>,
    pub limit: Option<usize>,
}

impl FuseBlock {
    pub fn new(snapshot_id: Option<String>, limit: Option<usize>) -> (r: FuseBlock)
        ensures
            r.snapshot_id == snapshot_id,
            r.limit == limit,
    {
        FuseBlock { snapshot_id, limit }
    }

    /// The number of blocks listed from a snapshot of `block_count` blocks:
    /// the limit where there is one and it is smaller.
    pub open spec fn listed(&self, block_count: usize) -> int {
        match self.limit {
            Some(l) if l < block_count => l as int,
            _ => block_count as int,
        }
    }

    /// How many blocks to list from each segment of a snapshot of
    /// `block_count` blocks whose segments hold `segment_block_counts`.
    pub fn block_take_counts(&self, block_count: usize, segment_block_counts: &Vec<usize>) -> (r: Vec<usize>)
        ensures
            r@.len() == take_counts(segment_block_counts@, self.listed(block_count)).len(),
            forall|k: int|
                0 <= k < r@.len() ==> #[trigger] r@[k] as int == take_counts(
                    segment_block_counts@,
                    self.listed(block_count),
                )[k],
    {
        let len: usize = match self.limit {
            Some(l) => if l < block_count {
                l
            } else {
                block_count
            },
            None => block_count,
        };
        let ghost counts = segment_block_counts@;
        let mut out: Vec<usize> = Vec::new();
        let mut row_num: usize = 0;
        let mut k: usize = 0;
        proof {
            assert(counts.subrange(0, counts.len() as int) =~= counts);
            assert(out@.map_values(|v: usize| v as int) =~= seq![]);
        }
        while k < segment_block_counts.len()
            invariant_except_break
                out@.len() == k,
                take_counts(counts, len as int) == out@.map_values(|v: usize| v as int) + take_counts(
                    counts.subrange(k as int, counts.len() as int),
                    len - row_num,
                ),
            invariant
                k <= counts.len(),
                counts == segment_block_counts@,
                row_num <= len,
                len == self.listed(block_count),
            ensures
                take_counts(counts, len as int) == out@.map_values(|v: usize| v as int)
                    || (k == counts.len() && out@.len() == k && take_counts(counts, len as int) == out@.map_values(
                    |v: usize| v as int,
                ) + take_counts(counts.subrange(k as int, counts.len() as int), len - row_num)),
            decreases counts.len() - k,
        {
            let block_count = segment_block_counts[k];
            let ghost rest = counts.subrange(k as int, counts.len() as int);
            assert(rest.drop_first() =~= counts.subrange(k + 1, counts.len() as int));
            assert(rest[0] == block_count);
            if block_count >= len - row_num {
                let ghost prev = out@;
                out.push(len - row_num);
                proof {
                    assert(take_counts(rest, len - row_num) == seq![len - row_num]);
                    assert(out@.map_values(|v: usize| v as int) =~= prev.map_values(|v: usize| v as int) + seq![
                        len - row_num,
                    ]);
                    assert(take_counts(counts, len as int) == out@.map_values(|v: usize| v as int));
                }
                break;
            } else {
                let ghost prev = out@;
                out.push(block_count);
                proof {
                    assert(out@.map_values(|v: usize| v as int) =~= prev.map_values(|v: usize| v as int) + seq![
                        block_count as int,
                    ]);
                    assert(take_counts(rest, len - row_num) == seq![block_count as int] + take_counts(
                        rest.drop_first(),
                        len - row_num - block_count,
                    ));
                }
                row_num = row_num + block_count;
                k = k + 1;
            }
        }
        proof {
            if k == counts.len() {
                assert(counts.subrange(k as int, counts.len() as int) =~= seq![]);
                assert(out@.map_values(|v: usize| v as int) + Seq::<int>::empty() =~= out@.map_values(|v: usize| v as int));
            }
        }
        out
    }
}

} // verus!
