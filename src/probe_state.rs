use vstd::prelude::*;

use crate::types::{JoinedRow, RowPtr};

verus! {

/// The probe rows that run-length pairs `(probe row, count)` stand for:
/// each probe row repeated `count` times, in order.
pub open spec fn expand(runs: Seq<(u32, u32)>) -> Seq<u32>
    decreases runs.len(),
{
    if runs.len() == 0 {
        seq![]
    } else {
        let last = runs.last();
        expand(runs.drop_last()) + Seq::new(last.1 as nat, |k: int| last.0)
    }
}

/// Pairs the build rows with the probe rows, position by position.
pub open spec fn zip_rows(builds: Seq<RowPtr>, probes: Seq<u32>) -> Seq<JoinedRow> {
    Seq::new(builds.len(), |k: int| JoinedRow { build: builds[k], probe_row: probes[k] })
}

/// Per-thread scratch buffers of a probe, reused from batch to batch.
pub struct ProbeState {
    /// The most matched pairs a batch holds.
    pub max_block_size: usize,
    /// The build rows of the batch being filled.
    pub build_indexes: Vec<RowPtr>,
    /// The probe rows of the batch being filled, in run-length form.
    pub probe_indexes: Vec<(u32, u32)>,
    /// Which probe keys are not null; none means all of them.
    pub valids: Option<Vec<bool>>,
}

impl ProbeState {
    pub open spec fn wf(&self) -> bool {
        &&& 0 < self.max_block_size <= u32::MAX
        &&& self.build_indexes@.len() == self.max_block_size
        &&& self.probe_indexes@.len() == self.max_block_size
    }

    /// Buffers for batches of at most `max_block_size` pairs.
    pub fn new(max_block_size: usize, valids: Option<Vec<bool>>) -> (r: ProbeState)
        requires
            0 < max_block_size <= u32::MAX,
        ensures
            r.wf(),
            r.max_block_size == max_block_size,
            r.valids == valids,
    {
        let build_indexes: Vec<RowPtr> = vec![RowPtr { chunk_index: 0, row_index: 0 }; max_block_size];
        let probe_indexes: Vec<(u32, u32)> = vec![(0u32, 0u32); max_block_size];
        ProbeState { max_block_size, build_indexes, probe_indexes, valids }
    }
}

pub(crate) proof fn lemma_expand_push(runs: Seq<(u32, u32)>, run: (u32, u32))
    ensures
        expand(runs.push(run)) == expand(runs) + Seq::new(run.1 as nat, |k: int| run.0),
{
    assert(runs.push(run).drop_last() =~= runs);
}

/// Expands the first `len` run-length pairs of `runs` into one probe row per
/// matched pair.
pub fn take_compacted_indices(runs: &Vec<(u32, u32)>, len: usize, total: usize) -> (r: Vec<u32>)
    requires
        len <= runs@.len(),
        expand(runs@.take(len as int)).len() == total,
    ensures
        r@ == expand(runs@.take(len as int)),
{
    let mut out: Vec<u32> = Vec::with_capacity(total);
    let mut k: usize = 0;
    while k < len
        invariant
            k <= len <= runs@.len(),
            out@ == expand(runs@.take(k as int)),
        decreases len - k,
    {
        let run = runs[k];
        let mut j: u32 = 0;
        while j < run.1
            invariant
                j <= run.1,
                out@ == expand(runs@.take(k as int)) + Seq::new(j as nat, |t: int| run.0),
            decreases run.1 - j,
        {
            let ghost before = out@;
            out.push(run.0);
            assert(out@ =~= expand(runs@.take(k as int)) + Seq::new((j + 1) as nat, |t: int| run.0));
            j = j + 1;
        }
        proof {
            assert(runs@.take(k + 1) =~= runs@.take(k as int).push(run));
            lemma_expand_push(runs@.take(k as int), run);
        }
        k = k + 1;
    }
    out
}

/// Pairs the first `probes.len()` build rows of `builds` with `probes`.
pub fn merge_eq_block(builds: &Vec<RowPtr>, probes: &Vec<u32>) -> (r: Vec<JoinedRow>)
    requires
        probes@.len() <= builds@.len(),
    ensures
        r@ == zip_rows(builds@.take(probes@.len() as int), probes@),
{
    let mut out: Vec<JoinedRow> = Vec::with_capacity(probes.len());
    let mut k: usize = 0;
    while k < probes.len()
        invariant
            k <= probes@.len() <= builds@.len(),
            out@ == zip_rows(builds@.take(k as int), probes@.take(k as int)),
        decreases probes@.len() - k,
    {
        out.push(JoinedRow { build: builds[k], probe_row: probes[k] });
        assert(out@ =~= zip_rows(builds@.take(k + 1), probes@.take(k + 1)));
        k = k + 1;
    }
    assert(probes@.take(probes@.len() as int) =~= probes@);
    out
}

} // verus!
