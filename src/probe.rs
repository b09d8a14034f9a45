use vstd::prelude::*;

use crate::hash_table::{matches_from, remaining, BuildTable};
use crate::predicate::{filter_with_bitmap, kept, keeps, pred_view, FilterOutcome, ResidualPredicate};
use crate::probe_state::{expand, merge_eq_block, take_compacted_indices, zip_rows, ProbeState};
use crate::scan_map::{claimable, in_bounds, marked, OuterScanMap};
use crate::types::{JoinType, JoinedRow, ProbeError, RowPtr};

verus! {

/// The spec value of an optional bitmap.
pub open spec fn opt_bits(v: Option<Vec<bool>>) -> Option<Seq<bool>> {
    match v {
        None => None,
        Some(b) => Some(b@),
    }
}

/// Whether probe key `i` is not null.
pub open spec fn key_valid(valids: Option<Seq<bool>>, i: int) -> bool {
    match valids {
        None => true,
        Some(v) => v[i],
    }
}

/// Pairs each build row of `ptrs` with probe row `i`.
pub open spec fn pairs_of(ptrs: Seq<RowPtr>, i: int) -> Seq<JoinedRow> {
    ptrs.map_values(|p: RowPtr| JoinedRow { build: p, probe_row: i as u32 })
}

/// The matched pairs of probe key `i`: none for a null key.
pub open spec fn key_pairs(
    chain: Seq<(u64, RowPtr)>,
    keys: Seq<u64>,
    valids: Option<Seq<bool>>,
    i: int,
) -> Seq<JoinedRow> {
    if key_valid(valids, i) {
        pairs_of(matches_from(chain, keys[i], 0), i)
    } else {
        seq![]
    }
}

/// The matched pairs of the first `n` probe keys, key by key and, for one
/// key, in chain order.
pub open spec fn probe_pairs(
    chain: Seq<(u64, RowPtr)>,
    keys: Seq<u64>,
    valids: Option<Seq<bool>>,
    n: int,
) -> Seq<JoinedRow>
    decreases n,
{
    if n <= 0 {
        seq![]
    } else {
        probe_pairs(chain, keys, valids, n - 1) + key_pairs(chain, keys, valids, n - 1)
    }
}

/// Every matched pair of a probe.
pub open spec fn all_pairs(table: BuildTable, keys: Seq<u64>, valids: Option<Seq<bool>>) -> Seq<JoinedRow> {
    probe_pairs(table.chain@, keys, valids, keys.len() as int)
}

/// The build rows of `rows`, in order.
pub open spec fn builds(rows: Seq<JoinedRow>) -> Seq<RowPtr> {
    rows.map_values(|r: JoinedRow| r.build)
}

/// The spec value of a list of result blocks.
pub open spec fn blocks_view(blocks: Vec<Vec<JoinedRow>>) -> Seq<Seq<JoinedRow>> {
    Seq::new(blocks@.len(), |k: int| blocks@[k]@)
}

/// The rows of `blocks`, block after block.
pub open spec fn concat_blocks(blocks: Seq<Seq<JoinedRow>>) -> Seq<JoinedRow>
    decreases blocks.len(),
{
    if blocks.len() == 0 {
        seq![]
    } else {
        concat_blocks(blocks.drop_last()) + blocks.last()
    }
}

/// `blocks` holds `rows`, in order, in non-empty blocks of at most `cap`
/// rows.
pub open spec fn blocks_hold(blocks: Seq<Seq<JoinedRow>>, rows: Seq<JoinedRow>, cap: int) -> bool {
    &&& concat_blocks(blocks) == rows
    &&& forall|k: int| 0 <= k < blocks.len() ==> 0 < #[trigger] blocks[k].len() <= cap
}

/// What a probe does, given the matched pairs `pairs` in probe order and the
/// residual predicate `pred`: with the cancellation flag set and at least one
/// full batch it aborts and leaves the map as it was; a right-single probe
/// whose kept build rows repeat or were already matched fails; otherwise it
/// marks the build row of every kept pair and, where it emits, returns the
/// kept pairs in order, in batches of at most `cap`.
pub open spec fn probe_outcome(
    pairs: Seq<JoinedRow>,
    pred: Option<Seq<JoinedRow>>,
    single: bool,
    emit: bool,
    interrupted: bool,
    cap: int,
    before: Seq<Seq<bool>>,
    after: Seq<Seq<bool>>,
    r: Result<Vec<Vec<JoinedRow>>, ProbeError>,
) -> bool {
    let out = kept(pred, pairs);
    if interrupted && pairs.len() >= cap {
        r == Err::<Vec<Vec<JoinedRow>>, ProbeError>(ProbeError::AbortedQuery) && after == before
    } else if single && !claimable(before, builds(out)) {
        r == Err::<Vec<Vec<JoinedRow>>, ProbeError>(ProbeError::ScalarSubqueryMultipleRows)
    } else {
        &&& r is Ok
        &&& after == marked(before, builds(out))
        &&& blocks_hold(blocks_view(r->Ok_0), if emit { out } else { seq![] }, cap)
    }
}

pub proof fn lemma_marked_empty(m: Seq<Seq<bool>>)
    ensures
        marked(m, seq![]) == m,
{
    assert forall|c: int| 0 <= c < m.len() implies marked(m, seq![])[c] =~= m[c] by {}
    assert(marked(m, seq![]) =~= m);
}

proof fn lemma_builds_add(a: Seq<JoinedRow>, b: Seq<JoinedRow>)
    ensures
        builds(a + b) == builds(a) + builds(b),
{
    assert(builds(a + b) =~= builds(a) + builds(b));
}

proof fn lemma_concat_push(blocks: Seq<Seq<JoinedRow>>, b: Seq<JoinedRow>)
    ensures
        concat_blocks(blocks.push(b)) == concat_blocks(blocks) + b,
{
    assert(blocks.push(b).drop_last() =~= blocks);
}

pub(crate) proof fn lemma_kept_all(pred: Option<Seq<JoinedRow>>, rows: Seq<JoinedRow>)
    requires
        forall|k: int| 0 <= k < rows.len() ==> keeps(pred, #[trigger] rows[k]),
    ensures
        kept(pred, rows) == rows,
    decreases rows.len(),
{
    if rows.len() > 0 {
        let init = rows.drop_last();
        lemma_kept_all(pred, init);
        init.lemma_filter_push(rows.last(), |x: JoinedRow| keeps(pred, x));
        assert(init.push(rows.last()) =~= rows);
    } else {
        assert(kept(pred, rows) =~= rows) by {
            reveal(Seq::filter);
        }
    }
}

pub(crate) proof fn lemma_kept_none(pred: Option<Seq<JoinedRow>>, rows: Seq<JoinedRow>)
    requires
        forall|k: int| 0 <= k < rows.len() ==> !keeps(pred, #[trigger] rows[k]),
    ensures
        kept(pred, rows) == Seq::<JoinedRow>::empty(),
    decreases rows.len(),
{
    if rows.len() > 0 {
        let init = rows.drop_last();
        lemma_kept_none(pred, init);
        init.lemma_filter_push(rows.last(), |x: JoinedRow| keeps(pred, x));
        assert(init.push(rows.last()) =~= rows);
    } else {
        assert(kept(pred, rows) =~= Seq::<JoinedRow>::empty()) by {
            reveal(Seq::filter);
        }
    }
}

proof fn lemma_claimable_push(m: Seq<Seq<bool>>, s: Seq<RowPtr>, p: RowPtr)
    requires
        claimable(m, s),
        in_bounds(m, p),
    ensures
        claimable(m, s.push(p)) <==> !marked(m, s)[p.chunk_index as int][p.row_index as int],
{
    let t = s.push(p);
    let q = RowPtr { chunk_index: p.chunk_index as int as u32, row_index: p.row_index as int as u32 };
    assert(q == p);
    if claimable(m, t) {
        assert(!m[t[s.len() as int].chunk_index as int][t[s.len() as int].row_index as int]);
        if s.contains(p) {
            let k = choose|k: int| 0 <= k < s.len() && s[k] == p;
            assert(t[k] == t[s.len() as int]);
        }
    }
    if !marked(m, s)[p.chunk_index as int][p.row_index as int] {
        assert(!s.contains(p));
        assert forall|a: int, b: int| 0 <= a < t.len() && 0 <= b < t.len() && a != b implies t[a] != t[b] by {
            if a < s.len() && b < s.len() {
            } else if a < s.len() {
                assert(s[a] == t[a]);
            } else {
                assert(s[b] == t[b]);
            }
        }
        assert forall|k: int| 0 <= k < t.len() implies !(#[trigger] m[t[k].chunk_index as int][t[k].row_index as int]) by {
            if k < s.len() {
                assert(t[k] == s[k]);
            }
        }
    }
}

proof fn lemma_claimable_add(m: Seq<Seq<bool>>, a: Seq<RowPtr>, b: Seq<RowPtr>)
    requires
        claimable(m, a),
        forall|k: int| 0 <= k < b.len() ==> in_bounds(m, #[trigger] b[k]),
    ensures
        claimable(marked(m, a), b) <==> claimable(m, a + b),
    decreases b.len(),
{
    if b.len() == 0 {
        lemma_marked_empty(m);
        assert(a + b =~= a);
    } else {
        let init = b.drop_last();
        let p = b.last();
        lemma_claimable_add(m, a, init);
        assert(b =~= init.push(p));
        assert(a + b =~= (a + init).push(p));
        crate::scan_map::lemma_marked_add(m, a, init);
        if claimable(m, a + init) {
            lemma_claimable_push(m, a + init, p);
            lemma_claimable_push(marked(m, a), init, p);
        } else {
            assert(!claimable(m, a + b)) by {
                lemma_not_claimable_add(m, a + init, seq![p]);
                assert((a + init) + seq![p] =~= a + b);
            }
            assert(!claimable(marked(m, a), b)) by {
                lemma_not_claimable_add(marked(m, a), init, seq![p]);
                assert(init + seq![p] =~= b);
            }
        }
    }
}

proof fn lemma_not_claimable_add(m: Seq<Seq<bool>>, a: Seq<RowPtr>, b: Seq<RowPtr>)
    requires
        !claimable(m, a),
    ensures
        !claimable(m, a + b),
{
    let t = a + b;
    if !a.no_duplicates() {
        let (x, y) = choose|x: int, y: int| 0 <= x < a.len() && 0 <= y < a.len() && x != y && a[x] == a[y];
        assert(t[x] == t[y]);
    } else {
        let k = choose|k: int| 0 <= k < a.len() && (#[trigger] m[a[k].chunk_index as int][a[k].row_index as int]);
        assert(t[k] == a[k]);
    }
}

pub(crate) proof fn lemma_matches_in_chain(chain: Seq<(u64, RowPtr)>, key: u64, from: int, k: int)
    requires
        0 <= from,
        0 <= k < matches_from(chain, key, from).len(),
    ensures
        exists|j: int| 0 <= j < chain.len() && chain[j].1 == matches_from(chain, key, from)[k],
    decreases chain.len() - from,
{
    if from < chain.len() {
        if chain[from].0 == key {
            if k == 0 {
                assert(chain[from].1 == matches_from(chain, key, from)[k]);
            } else {
                lemma_matches_in_chain(chain, key, from + 1, k - 1);
            }
        } else {
            lemma_matches_in_chain(chain, key, from + 1, k);
        }
    }
}

proof fn lemma_probe_pairs_prefix(
    chain: Seq<(u64, RowPtr)>,
    keys: Seq<u64>,
    valids: Option<Seq<bool>>,
    i: int,
    n: int,
)
    requires
        0 <= i <= n,
    ensures
        probe_pairs(chain, keys, valids, i).len() <= probe_pairs(chain, keys, valids, n).len(),
        probe_pairs(chain, keys, valids, n).take(probe_pairs(chain, keys, valids, i).len() as int)
            == probe_pairs(chain, keys, valids, i),
    decreases n - i,
{
    if i < n {
        lemma_probe_pairs_prefix(chain, keys, valids, i, n - 1);
        let a = probe_pairs(chain, keys, valids, i);
        let b = probe_pairs(chain, keys, valids, n - 1);
        let c = probe_pairs(chain, keys, valids, n);
        assert(c == b + key_pairs(chain, keys, valids, n - 1));
        assert(c.take(a.len() as int) =~= b.take(a.len() as int));
    } else {
        let a = probe_pairs(chain, keys, valids, i);
        assert(a.take(a.len() as int) =~= a);
    }
}

proof fn lemma_fail_extends(m: Seq<Seq<bool>>, pred: Option<Seq<JoinedRow>>, x: Seq<JoinedRow>, all: Seq<JoinedRow>)
    requires
        x.len() <= all.len(),
        all.take(x.len() as int) == x,
        !claimable(m, builds(kept(pred, x))),
    ensures
        !claimable(m, builds(kept(pred, all))),
{
    let rest = all.skip(x.len() as int);
    assert(all =~= x + rest);
    Seq::filter_distributes_over_add(x, rest, |row: JoinedRow| keeps(pred, row));
    lemma_builds_add(kept(pred, x), kept(pred, rest));
    lemma_not_claimable_add(m, builds(kept(pred, x)), builds(kept(pred, rest)));
}

proof fn lemma_after_flush(
    m0: Seq<Seq<bool>>,
    pred: Option<Seq<JoinedRow>>,
    done: Seq<JoinedRow>,
    batch: Seq<JoinedRow>,
    mid: Seq<Seq<bool>>,
    after: Seq<Seq<bool>>,
    single: bool,
    emit: bool,
    old_blocks: Seq<Seq<JoinedRow>>,
    new_blocks: Seq<Seq<JoinedRow>>,
    cap: int,
)
    requires
        mid == marked(m0, builds(kept(pred, done))),
        single ==> claimable(m0, builds(kept(pred, done))),
        single ==> claimable(mid, builds(kept(pred, batch))),
        blocks_hold(old_blocks, if emit { kept(pred, done) } else { seq![] }, cap),
        after == marked(mid, builds(kept(pred, batch))),
        kept(pred, batch).len() <= cap,
        forall|k: int| 0 <= k < kept(pred, batch).len() ==> in_bounds(mid, #[trigger] kept(pred, batch)[k].build),
        new_blocks == if emit && kept(pred, batch).len() > 0 {
            old_blocks.push(kept(pred, batch))
        } else {
            old_blocks
        },
    ensures
        after == marked(m0, builds(kept(pred, done + batch))),
        single ==> claimable(m0, builds(kept(pred, done + batch))),
        blocks_hold(new_blocks, if emit { kept(pred, done + batch) } else { seq![] }, cap),
{
    let out = kept(pred, batch);
    Seq::filter_distributes_over_add(done, batch, |row: JoinedRow| keeps(pred, row));
    assert(kept(pred, done + batch) == kept(pred, done) + out);
    lemma_builds_add(kept(pred, done), out);
    crate::scan_map::lemma_marked_add(m0, builds(kept(pred, done)), builds(out));
    if single {
        assert forall|k: int| 0 <= k < builds(out).len() implies in_bounds(m0, #[trigger] builds(out)[k]) by {
            assert(in_bounds(mid, out[k].build));
        }
        lemma_claimable_add(m0, builds(kept(pred, done)), builds(out));
    }
    if emit && out.len() > 0 {
        lemma_concat_push(old_blocks, out);
    }
    if out.len() == 0 {
        assert(kept(pred, done) + out =~= kept(pred, done));
    }
}

/// The hash-join build side as the probe sees it: the variant, the residual
/// predicate, the map of matched build rows and the cancellation flag.
pub struct JoinHashTable {
    pub join_type: JoinType,
    pub other_predicate: Option<ResidualPredicate>,
    pub outer_scan_map: OuterScanMap,
    pub interrupt: bool,
}

impl JoinHashTable {
    pub fn new(join_type: JoinType, other_predicate: Option<ResidualPredicate>, outer_scan_map: OuterScanMap) -> (r: JoinHashTable)
        ensures
            r.join_type == join_type,
            r.other_predicate == other_predicate,
            r.outer_scan_map == outer_scan_map,
            !r.interrupt,
    {
        JoinHashTable { join_type, other_predicate, outer_scan_map, interrupt: false }
    }

    /// Raises the cancellation flag: the next batch boundary aborts.
    pub fn abort(&mut self)
        ensures
            final(self).interrupt,
            final(self).join_type == old(self).join_type,
            final(self).other_predicate == old(self).other_predicate,
            final(self).outer_scan_map == old(self).outer_scan_map,
    {
        self.interrupt = true;
    }

    /// Marks the build row of every row of `rows`.
    fn mark_rows(&mut self, rows: &Vec<JoinedRow>)
        requires
            old(self).outer_scan_map.wf(),
            forall|k: int| 0 <= k < rows@.len() ==> in_bounds(old(self).outer_scan_map@, #[trigger] rows@[k].build),
        ensures
            final(self).outer_scan_map.wf(),
            final(self).outer_scan_map@ == marked(old(self).outer_scan_map@, builds(rows@)),
            final(self).join_type == old(self).join_type,
            final(self).other_predicate == old(self).other_predicate,
            final(self).interrupt == old(self).interrupt,
    {
        let ghost m = self.outer_scan_map@;
        proof {
            lemma_marked_empty(m);
            assert(builds(rows@.take(0)) =~= seq![]);
        }
        let mut k: usize = 0;
        while k < rows.len()
            invariant
                k <= rows@.len(),
                self.outer_scan_map.wf(),
                m == old(self).outer_scan_map@,
                forall|j: int| 0 <= j < rows@.len() ==> in_bounds(m, #[trigger] rows@[j].build),
                self.outer_scan_map@ == marked(m, builds(rows@.take(k as int))),
                self.join_type == old(self).join_type,
                self.other_predicate == old(self).other_predicate,
                self.interrupt == old(self).interrupt,
            decreases rows@.len() - k,
        {
            let p = rows[k].build;
            let ghost cur = self.outer_scan_map@;
            self.outer_scan_map.mark(p);
            proof {
                crate::scan_map::lemma_marked_add(m, builds(rows@.take(k as int)), seq![p]);
                assert(builds(rows@.take(k + 1)) =~= builds(rows@.take(k as int)) + seq![p]);
            }
            k = k + 1;
        }
        assert(rows@.take(rows@.len() as int) =~= rows@);
    }

    /// Claims the build row of every row of `rows` for a right-single join:
    /// fails as soon as a build row is already matched, by an earlier probe
    /// row or an earlier row of `rows`.
    fn update_right_single_scan_map(&mut self, rows: &Vec<JoinedRow>) -> (r: Result<(), ProbeError>)
        requires
            old(self).outer_scan_map.wf(),
            forall|k: int| 0 <= k < rows@.len() ==> in_bounds(old(self).outer_scan_map@, #[trigger] rows@[k].build),
        ensures
            final(self).outer_scan_map.wf(),
            r is Ok <==> claimable(old(self).outer_scan_map@, builds(rows@)),
            r is Ok ==> final(self).outer_scan_map@ == marked(old(self).outer_scan_map@, builds(rows@)),
            r is Err ==> r == Err::<(), ProbeError>(ProbeError::ScalarSubqueryMultipleRows),
            final(self).join_type == old(self).join_type,
            final(self).other_predicate == old(self).other_predicate,
            final(self).interrupt == old(self).interrupt,
    {
        let ghost m = self.outer_scan_map@;
        proof {
            lemma_marked_empty(m);
            assert(builds(rows@.take(0)) =~= seq![]);
        }
        let mut k: usize = 0;
        while k < rows.len()
            invariant
                k <= rows@.len(),
                self.outer_scan_map.wf(),
                m == old(self).outer_scan_map@,
                forall|j: int| 0 <= j < rows@.len() ==> in_bounds(m, #[trigger] rows@[j].build),
                self.outer_scan_map@ == marked(m, builds(rows@.take(k as int))),
                claimable(m, builds(rows@.take(k as int))),
                self.join_type == old(self).join_type,
                self.other_predicate == old(self).other_predicate,
                self.interrupt == old(self).interrupt,
            decreases rows@.len() - k,
        {
            let p = rows[k].build;
            let ghost prefix = builds(rows@.take(k as int));
            proof {
                assert(builds(rows@.take(k + 1)) =~= prefix.push(p));
                lemma_claimable_push(m, prefix, p);
            }
            if self.outer_scan_map.is_set(p) {
                proof {
                    assert(marked(m, prefix)[p.chunk_index as int][p.row_index as int]);
                    assert(!claimable(m, prefix.push(p)));
                    lemma_not_claimable_add(m, prefix.push(p), builds(rows@).subrange(k + 1, rows@.len() as int));
                    assert(prefix.push(p) + builds(rows@).subrange(k + 1, rows@.len() as int) =~= builds(rows@));
                    assert(!claimable(m, builds(rows@)));
                }
                return Err(ProbeError::ScalarSubqueryMultipleRows);
            }
            self.outer_scan_map.mark(p);
            proof {
                crate::scan_map::lemma_marked_add(m, prefix, seq![p]);
                assert(prefix + seq![p] =~= prefix.push(p));
            }
            k = k + 1;
        }
        assert(rows@.take(rows@.len() as int) =~= rows@);
        Ok(())
    }

    /// The pairs of the batch held in `state`'s buffers: `occupied` build
    /// rows and `probe_len` run-length probe entries.
    pub open spec fn batch(state: ProbeState, occupied: usize, probe_len: usize) -> Seq<JoinedRow> {
        zip_rows(
            state.build_indexes@.take(occupied as int),
            expand(state.probe_indexes@.take(probe_len as int)),
        )
    }

    /// Processes one batch: merges build and probe rows, applies the residual
    /// predicate, updates the map with the surviving rows and, where `emit`
    /// holds, appends them as a result block. An empty result is neither
    /// emitted nor marked.
    fn flush_batch(
        &mut self,
        state: &ProbeState,
        occupied: usize,
        probe_len: usize,
        single: bool,
        emit: bool,
        blocks: &mut Vec<Vec<JoinedRow>>,
    ) -> (r: Result<(), ProbeError>)
        requires
            old(self).outer_scan_map.wf(),
            state.wf(),
            occupied <= state.max_block_size,
            probe_len <= state.max_block_size,
            expand(state.probe_indexes@.take(probe_len as int)).len() == occupied,
            forall|k: int| 0 <= k < occupied ==> in_bounds(old(self).outer_scan_map@, #[trigger] state.build_indexes@[k]),
        ensures
            final(self).outer_scan_map.wf(),
            final(self).join_type == old(self).join_type,
            final(self).other_predicate == old(self).other_predicate,
            final(self).interrupt == old(self).interrupt,
            forall|k: int|
                0 <= k < kept(pred_view(old(self).other_predicate), Self::batch(*state, occupied, probe_len)).len()
                    ==> in_bounds(
                    old(self).outer_scan_map@,
                    #[trigger] kept(pred_view(old(self).other_predicate), Self::batch(*state, occupied, probe_len))[k].build,
                ),
            ({
                let out = kept(pred_view(old(self).other_predicate), Self::batch(*state, occupied, probe_len));
                if single && !claimable(old(self).outer_scan_map@, builds(out)) {
                    r == Err::<(), ProbeError>(ProbeError::ScalarSubqueryMultipleRows)
                } else {
                    &&& r is Ok
                    &&& final(self).outer_scan_map@ == marked(old(self).outer_scan_map@, builds(out))
                    &&& out.len() <= state.max_block_size
                    &&& blocks_view(*final(blocks)) == if emit && out.len() > 0 {
                        blocks_view(*old(blocks)).push(out)
                    } else {
                        blocks_view(*old(blocks))
                    }
                }
            }),
    {
        let ghost pred = pred_view(self.other_predicate);
        let ghost m = self.outer_scan_map@;
        let ghost batch = Self::batch(*state, occupied, probe_len);
        if occupied == 0 {
            proof {
                assert(batch =~= seq![]);
                lemma_kept_none(pred, batch);
                assert(builds(seq![]) =~= seq![]);
                lemma_marked_empty(m);
            }
            return Ok(());
        }
        let probes = take_compacted_indices(&state.probe_indexes, probe_len, occupied);
        let merged = merge_eq_block(&state.build_indexes, &probes);
        assert(merged@ == batch);
        let out: Vec<JoinedRow> = match &self.other_predicate {
            None => {
                proof {
                    lemma_kept_all(pred, batch);
                }
                merged
            },
            Some(p) => {
                let outcome = p.evaluate(&merged);
                match outcome {
                    FilterOutcome::AllPass => {
                        proof {
                            assert forall|k: int| 0 <= k < batch.len() implies keeps(pred, #[trigger] batch[k]) by {
                                assert(outcome.mask(batch.len() as int)[k]);
                            }
                            lemma_kept_all(pred, batch);
                        }
                        merged
                    },
                    FilterOutcome::AllFail => {
                        proof {
                            assert forall|k: int| 0 <= k < batch.len() implies !keeps(pred, #[trigger] batch[k]) by {
                                assert(!outcome.mask(batch.len() as int)[k]);
                            }
                            lemma_kept_none(pred, batch);
                        }
                        Vec::new()
                    },
                    FilterOutcome::Bitmap(bits) => {
                        proof {
                            assert forall|k: int| 0 <= k < batch.len() implies #[trigger] bits@[k] == keeps(pred, batch[k]) by {
                                assert(outcome.mask(batch.len() as int)[k] == p@.contains(batch[k]));
                            }
                        }
                        filter_with_bitmap(merged, &bits, Ghost(pred))
                    },
                }
            },
        };
        assert(out@ == kept(pred, batch));
        proof {
            batch.lemma_filter_len(|x: JoinedRow| keeps(pred, x));
            assert forall|k: int| 0 <= k < out@.len() implies in_bounds(m, #[trigger] out@[k].build) by {
                assert(out@.contains(out@[k]));
                batch.lemma_filter_contains_rev(|x: JoinedRow| keeps(pred, x), out@[k]);
                let j = choose|j: int| 0 <= j < batch.len() && batch[j] == out@[k];
                assert(state.build_indexes@[j] == batch[j].build);
            }
        }
        if out.len() == 0 {
            proof {
                assert(builds(out@) =~= seq![]);
                lemma_marked_empty(m);
            }
            return Ok(());
        }
        if single {
            let res = self.update_right_single_scan_map(&out);
            if res.is_err() {
                return Err(ProbeError::ScalarSubqueryMultipleRows);
            }
        } else {
            self.mark_rows(&out);
        }
        if emit {
            let ghost old_blocks = blocks_view(*blocks);
            blocks.push(out);
            assert(blocks_view(*blocks) =~= old_blocks.push(kept(pred, batch)));
        }
        Ok(())
    }

    /// Fetches the first slice of the matches of probe key `i` into
    /// `buf[offset..]`; a null key matches nothing.
    fn probe_key(
        table: &BuildTable,
        key: u64,
        valids: &Option<Vec<bool>>,
        i: usize,
        buf: &mut Vec<RowPtr>,
        offset: usize,
        cap: usize,
    ) -> (r: (usize, usize))
        requires
            old(buf)@.len() == cap,
            offset < cap,
            valids matches Some(v) ==> i < v@.len(),
        ensures
            if key_valid(opt_bits(*valids), i as int) {
                BuildTable::fetched(table.chain@, key, 0, *old(buf), *final(buf), offset, cap, r)
            } else {
                r == (0usize, 0usize) && *final(buf) == *old(buf)
            },
    {
        match valids {
            Some(v) => {
                if !v[i] {
                    return (0, 0);
                }
            },
            None => {},
        }
        table.probe(key, buf, offset, cap)
    }

    /// The probe loop shared by every variant: fills batches of at most
    /// `state.max_block_size` pairs, resuming a key's matches from its
    /// continuation when a batch fills, and flushes each full batch and the
    /// last one.
    fn probe_batches(
        &mut self,
        table: &BuildTable,
        state: &mut ProbeState,
        keys: &Vec<u64>,
        single: bool,
        emit: bool,
    ) -> (r: Result<Vec<Vec<JoinedRow>>, ProbeError>)
        requires
            old(self).outer_scan_map.wf(),
            table.fits(old(self).outer_scan_map@),
            old(state).wf(),
            keys@.len() <= u32::MAX,
            old(state).valids matches Some(v) ==> v@.len() == keys@.len(),
        ensures
            final(state).wf(),
            final(state).max_block_size == old(state).max_block_size,
            final(state).valids == old(state).valids,
            final(self).outer_scan_map.wf(),
            final(self).join_type == old(self).join_type,
            final(self).other_predicate == old(self).other_predicate,
            final(self).interrupt == old(self).interrupt,
            probe_outcome(
                all_pairs(*table, keys@, opt_bits(old(state).valids)),
                pred_view(old(self).other_predicate),
                single,
                emit,
                old(self).interrupt,
                old(state).max_block_size as int,
                old(self).outer_scan_map@,
                final(self).outer_scan_map@,
                r,
            ),
    {
        let cap = state.max_block_size;
        let ghost m0 = self.outer_scan_map@;
        let ghost pred = pred_view(self.other_predicate);
        let ghost chain = table.chain@;
        let ghost vs = opt_bits(state.valids);
        let ghost n = keys@.len() as int;
        let mut blocks: Vec<Vec<JoinedRow>> = Vec::new();
        let mut occupied: usize = 0;
        let mut probe_len: usize = 0;
        let ghost mut done: Seq<JoinedRow> = seq![];
        proof {
            lemma_marked_empty(m0);
            assert(kept(pred, done) =~= seq![]) by {
                lemma_kept_none(pred, done);
            }
            assert(builds(seq![]) =~= seq![]);
            assert(Self::batch(*state, 0, 0) =~= seq![]);
            assert(expand(state.probe_indexes@.take(0)) =~= seq![]);
            assert(blocks_view(blocks) =~= seq![]);
        }
        let mut i: usize = 0;
        while i < keys.len()
            invariant
                i <= n == keys@.len() <= u32::MAX,
                chain == table.chain@,
                state.wf(),
                state.max_block_size == cap == old(state).max_block_size,
                state.valids == old(state).valids,
                vs == opt_bits(state.valids),
                state.valids matches Some(v) ==> v@.len() == keys@.len(),
                m0 == old(self).outer_scan_map@,
                pred == pred_view(self.other_predicate),
                self.outer_scan_map.wf(),
                self.join_type == old(self).join_type,
                self.other_predicate == old(self).other_predicate,
                self.interrupt == old(self).interrupt,
                table.fits(m0),
                occupied < cap,
                probe_len <= occupied,
                expand(state.probe_indexes@.take(probe_len as int)).len() == occupied,
                forall|k: int| 0 <= k < occupied ==> in_bounds(m0, #[trigger] state.build_indexes@[k]),
                done + Self::batch(*state, occupied, probe_len) == probe_pairs(chain, keys@, vs, i as int),
                self.outer_scan_map@ == marked(m0, builds(kept(pred, done))),
                single ==> claimable(m0, builds(kept(pred, done))),
                blocks_hold(blocks_view(blocks), if emit { kept(pred, done) } else { seq![] }, cap as int),
                self.interrupt ==> done.len() == 0,
            decreases n - i,
        {
            let key = keys[i];
            let ghost before = *state;
            let (match_count, next) = Self::probe_key(
                table,
                key,
                &state.valids,
                i,
                &mut state.build_indexes,
                occupied,
                cap,
            );
            let ghost fresh = pairs_of(remaining(chain, key, next), i as int);
            proof {
                assert(probe_pairs(chain, keys@, vs, i + 1) == probe_pairs(chain, keys@, vs, i as int)
                    + key_pairs(chain, keys@, vs, i as int));
                assert(state.build_indexes@.take(occupied as int) =~= before.build_indexes@.take(occupied as int));
                assert(Self::batch(*state, occupied, probe_len) == Self::batch(before, occupied, probe_len));
            }
            if match_count > 0 {
                let ghost written = state.build_indexes@.subrange(occupied as int, occupied + match_count);
                proof {
                    assert(key_valid(vs, i as int));
                    assert(written + remaining(chain, key, next) == matches_from(chain, key, 0));
                    assert(key_pairs(chain, keys@, vs, i as int) == pairs_of(matches_from(chain, key, 0), i as int));
                    assert(pairs_of(written + remaining(chain, key, next), i as int) =~= pairs_of(written, i as int) + fresh);
                }
                let ghost pb = state.probe_indexes@.take(probe_len as int);
                state.probe_indexes.set(probe_len, (i as u32, match_count as u32));
                proof {
                    assert(state.probe_indexes@.take(probe_len as int) =~= pb);
                    assert(state.probe_indexes@.take(probe_len + 1) =~= pb.push((i as u32, match_count as u32)));
                    crate::probe_state::lemma_expand_push(pb, (i as u32, match_count as u32));
                    let e = expand(pb);
                    let e2 = expand(state.probe_indexes@.take(probe_len + 1));
                    assert(Self::batch(*state, (occupied + match_count) as usize, (probe_len + 1) as usize) =~= Self::batch(
                        *state,
                        occupied,
                        probe_len,
                    ) + pairs_of(written, i as int)) by {
                        assert(e2 =~= e + Seq::new(match_count as nat, |t: int| i as u32));
                    }
                    assert forall|k: int| 0 <= k < occupied + match_count implies in_bounds(m0, #[trigger] state.build_indexes@[k]) by {
                        if k < occupied {
                            assert(state.build_indexes@.take(occupied as int)[k] == before.build_indexes@.take(occupied as int)[k]);
                        } else {
                            assert(written[k - occupied] == state.build_indexes@[k]);
                            assert((written + remaining(chain, key, next))[k - occupied] == state.build_indexes@[k]);
                            lemma_matches_in_chain(chain, key, 0, k - occupied);
                        }
                    }
                }
                occupied = occupied + match_count;
                probe_len = probe_len + 1;
                if occupied >= cap {
                    let mut next = next;
                    loop
                        invariant_except_break
                            occupied == cap,
                        invariant
                            i < n == keys@.len() <= u32::MAX,
                            chain == table.chain@,
                            state.wf(),
                            state.max_block_size == cap == old(state).max_block_size,
                            state.valids == old(state).valids,
                            vs == opt_bits(state.valids),
                            state.valids matches Some(v) ==> v@.len() == keys@.len(),
                            m0 == old(self).outer_scan_map@,
                            pred == pred_view(self.other_predicate),
                            self.outer_scan_map.wf(),
                            self.join_type == old(self).join_type,
                            self.other_predicate == old(self).other_predicate,
                            self.interrupt == old(self).interrupt,
                            table.fits(m0),
                            occupied <= cap,
                            probe_len <= occupied,
                            expand(state.probe_indexes@.take(probe_len as int)).len() == occupied,
                            forall|k: int| 0 <= k < occupied ==> in_bounds(m0, #[trigger] state.build_indexes@[k]),
                            next <= chain.len(),
                            done + Self::batch(*state, occupied, probe_len) + pairs_of(remaining(chain, key, next), i as int)
                                == probe_pairs(chain, keys@, vs, i + 1),
                            self.outer_scan_map@ == marked(m0, builds(kept(pred, done))),
                            single ==> claimable(m0, builds(kept(pred, done))),
                            blocks_hold(blocks_view(blocks), if emit { kept(pred, done) } else { seq![] }, cap as int),
                            self.interrupt ==> done.len() == 0,
                        ensures
                            occupied < cap,
                            done + Self::batch(*state, occupied, probe_len) == probe_pairs(chain, keys@, vs, i + 1),
                        decreases (if next == 0 { 0 } else { chain.len() + 1 - next }),
                    {
                        let ghost batch = Self::batch(*state, occupied, probe_len);
                        proof {
                            lemma_probe_pairs_prefix(chain, keys@, vs, i + 1, n);
                            lemma_probe_pairs_prefix(chain, keys@, vs, i as int, n);
                            let x = done + batch;
                            let y = probe_pairs(chain, keys@, vs, i + 1);
                            assert(y.take(x.len() as int) =~= x);
                            assert(probe_pairs(chain, keys@, vs, n).take(x.len() as int) =~= y.take(x.len() as int));
                        }
                        if self.interrupt {
                            proof {
                                assert(batch.len() == cap);
                                assert(probe_pairs(chain, keys@, vs, i + 1).len() >= cap);
                                assert(all_pairs(*table, keys@, opt_bits(old(state).valids)) == probe_pairs(chain, keys@, vs, n));
                                assert(done =~= seq![]);
                                lemma_kept_none(pred, done);
                                assert(builds(seq![]) =~= seq![]);
                                lemma_marked_empty(m0);
                            }
                            return Err(ProbeError::AbortedQuery);
                        }
                        let ghost mid = self.outer_scan_map@;
                        let ghost old_blocks = blocks_view(blocks);
                        let res = self.flush_batch(state, occupied, probe_len, single, emit, &mut blocks);
                        if res.is_err() {
                            proof {
                                assert forall|k: int| 0 <= k < builds(kept(pred, batch)).len() implies in_bounds(m0, #[trigger] builds(kept(pred, batch))[k]) by {
                                    assert(in_bounds(mid, kept(pred, batch)[k].build));
                                }
                                lemma_claimable_add(m0, builds(kept(pred, done)), builds(kept(pred, batch)));
                                Seq::filter_distributes_over_add(done, batch, |row: JoinedRow| keeps(pred, row));
                                lemma_builds_add(kept(pred, done), kept(pred, batch));
                                lemma_fail_extends(m0, pred, done + batch, probe_pairs(chain, keys@, vs, n));
                            }
                            return Err(ProbeError::ScalarSubqueryMultipleRows);
                        }
                        proof {
                            lemma_after_flush(
                                m0,
                                pred,
                                done,
                                batch,
                                mid,
                                self.outer_scan_map@,
                                single,
                                emit,
                                old_blocks,
                                blocks_view(blocks),
                                cap as int,
                            );
                            done = done + batch;
                            assert(Self::batch(*state, 0, 0) =~= seq![]);
                            assert(expand(state.probe_indexes@.take(0)) =~= seq![]);
                        }
                        occupied = 0;
                        probe_len = 0;
                        if next == 0 {
                            proof {
                                assert(done + Self::batch(*state, 0, 0) =~= done + pairs_of(remaining(chain, key, next), i as int));
                            }
                            break;
                        }
                        let ghost before = *state;
                        let (c, n2) = table.next_incomplete_ptr(key, next, &mut state.build_indexes, 0, cap);
                        let ghost written = state.build_indexes@.subrange(0, c as int);
                        proof {
                            assert(pairs_of(written + remaining(chain, key, n2), i as int) =~= pairs_of(written, i as int)
                                + pairs_of(remaining(chain, key, n2), i as int));
                        }
                        if c == 0 {
                            proof {
                                assert(written =~= seq![]);
                                assert(remaining(chain, key, next) =~= seq![]);
                                assert(done + Self::batch(*state, 0, 0) =~= done + pairs_of(remaining(chain, key, next), i as int));
                            }
                            break;
                        }
                        state.probe_indexes.set(0, (i as u32, c as u32));
                        proof {
                            let one = state.probe_indexes@.take(1);
                            assert(one =~= seq![].push((i as u32, c as u32)));
                            crate::probe_state::lemma_expand_push(seq![], (i as u32, c as u32));
                            assert(expand(seq![]) =~= seq![]);
                            assert(expand(one) =~= Seq::new(c as nat, |t: int| i as u32));
                            assert(Self::batch(*state, c, 1) =~= pairs_of(written, i as int));
                            assert forall|k: int| 0 <= k < c implies in_bounds(m0, #[trigger] state.build_indexes@[k]) by {
                                assert(written[k] == state.build_indexes@[k]);
                                assert((written + remaining(chain, key, n2))[k] == state.build_indexes@[k]);
                                lemma_matches_in_chain(chain, key, next as int, k);
                            }
                        }
                        occupied = c;
                        probe_len = 1;
                        next = n2;
                        if occupied < cap {
                            proof {
                                assert(remaining(chain, key, next) =~= seq![]);
                                assert(pairs_of(written, i as int) + pairs_of(seq![], i as int) =~= pairs_of(written, i as int));
                            }
                            break;
                        }
                    }
                }
            } else {
                proof {
                    assert forall|k: int| 0 <= k < occupied implies in_bounds(m0, #[trigger] state.build_indexes@[k]) by {
                        assert(state.build_indexes@.take(occupied as int)[k] == before.build_indexes@.take(occupied as int)[k]);
                    }
                    if key_valid(vs, i as int) {
                        assert(remaining(chain, key, next) =~= seq![]);
                        assert(state.build_indexes@.subrange(occupied as int, occupied as int) =~= seq![]);
                        assert(matches_from(chain, key, 0) =~= seq![]);
                    }
                    assert(key_pairs(chain, keys@, vs, i as int) =~= seq![]);
                    assert(probe_pairs(chain, keys@, vs, i + 1) =~= probe_pairs(chain, keys@, vs, i as int));
                }
            }
            i = i + 1;
        }
        let ghost batch = Self::batch(*state, occupied, probe_len);
        let ghost mid = self.outer_scan_map@;
        let ghost old_blocks = blocks_view(blocks);
        proof {
            let x = done + batch;
            assert(x.take(x.len() as int) =~= x);
            if self.interrupt {
                assert(done =~= seq![]);
                assert(x =~= batch);
            }
        }
        let res = self.flush_batch(state, occupied, probe_len, single, emit, &mut blocks);
        if res.is_err() {
            proof {
                assert forall|k: int| 0 <= k < builds(kept(pred, batch)).len() implies in_bounds(m0, #[trigger] builds(kept(pred, batch))[k]) by {
                    assert(in_bounds(mid, kept(pred, batch)[k].build));
                }
                lemma_claimable_add(m0, builds(kept(pred, done)), builds(kept(pred, batch)));
                Seq::filter_distributes_over_add(done, batch, |row: JoinedRow| keeps(pred, row));
                lemma_builds_add(kept(pred, done), kept(pred, batch));
                lemma_fail_extends(m0, pred, done + batch, probe_pairs(chain, keys@, vs, n));
            }
            return Err(ProbeError::ScalarSubqueryMultipleRows);
        }
        proof {
            lemma_after_flush(
                m0,
                pred,
                done,
                batch,
                mid,
                self.outer_scan_map@,
                single,
                emit,
                old_blocks,
                blocks_view(blocks),
                cap as int,
            );
        }
        Ok(blocks)
    }

    /// Right anti join without a residual predicate: marks the build row of
    /// every matched pair and returns no block.
    pub fn probe_right_anti_join(
        &mut self,
        hash_table: &BuildTable,
        probe_state: &mut ProbeState,
        keys: &Vec<u64>,
    ) -> (r: Result<Vec<Vec<JoinedRow>>, ProbeError>)
        requires
            old(self).outer_scan_map.wf(),
            hash_table.fits(old(self).outer_scan_map@),
            old(probe_state).wf(),
            keys@.len() <= u32::MAX,
            old(probe_state).valids matches Some(v) ==> v@.len() == keys@.len(),
            old(self).other_predicate is None,
        ensures
            final(probe_state).wf(),
            final(probe_state).max_block_size == old(probe_state).max_block_size,
            final(probe_state).valids == old(probe_state).valids,
            final(self).outer_scan_map.wf(),
            final(self).join_type == old(self).join_type,
            final(self).other_predicate == old(self).other_predicate,
            final(self).interrupt == old(self).interrupt,
            probe_outcome(
                all_pairs(*hash_table, keys@, opt_bits(old(probe_state).valids)),
                None,
                false,
                false,
                old(self).interrupt,
                old(probe_state).max_block_size as int,
                old(self).outer_scan_map@,
                final(self).outer_scan_map@,
                r,
            ),
    {
        self.probe_batches(hash_table, probe_state, keys, false, false)
    }

    /// Right anti join with a residual predicate: marks the build row of
    /// every matched pair that the predicate keeps and returns no block.
    pub fn probe_right_anti_join_with_conjunct(
        &mut self,
        hash_table: &BuildTable,
        probe_state: &mut ProbeState,
        keys: &Vec<u64>,
    ) -> (r: Result<Vec<Vec<JoinedRow>>, ProbeError>)
        requires
            old(self).outer_scan_map.wf(),
            hash_table.fits(old(self).outer_scan_map@),
            old(probe_state).wf(),
            keys@.len() <= u32::MAX,
            old(probe_state).valids matches Some(v) ==> v@.len() == keys@.len(),
            old(self).other_predicate is Some,
        ensures
            final(probe_state).wf(),
            final(probe_state).max_block_size == old(probe_state).max_block_size,
            final(probe_state).valids == old(probe_state).valids,
            final(self).outer_scan_map.wf(),
            final(self).join_type == old(self).join_type,
            final(self).other_predicate == old(self).other_predicate,
            final(self).interrupt == old(self).interrupt,
            probe_outcome(
                all_pairs(*hash_table, keys@, opt_bits(old(probe_state).valids)),
                pred_view(old(self).other_predicate),
                false,
                false,
                old(self).interrupt,
                old(probe_state).max_block_size as int,
                old(self).outer_scan_map@,
                final(self).outer_scan_map@,
                r,
            ),
    {
        self.probe_batches(hash_table, probe_state, keys, false, false)
    }

    /// Right and right-single join: returns the matched pairs that the
    /// residual predicate keeps, in probe order, in blocks of at most
    /// `max_block_size` rows, and marks their build rows; a right-single join
    /// claims each build row at most once over the whole probe.
    pub fn probe_right_join(
        &mut self,
        hash_table: &BuildTable,
        probe_state: &mut ProbeState,
        keys: &Vec<u64>,
    ) -> (r: Result<Vec<Vec<JoinedRow>>, ProbeError>)
        requires
            old(self).outer_scan_map.wf(),
            hash_table.fits(old(self).outer_scan_map@),
            old(probe_state).wf(),
            keys@.len() <= u32::MAX,
            old(probe_state).valids matches Some(v) ==> v@.len() == keys@.len(),
        ensures
            final(probe_state).wf(),
            final(probe_state).max_block_size == old(probe_state).max_block_size,
            final(probe_state).valids == old(probe_state).valids,
            final(self).outer_scan_map.wf(),
            final(self).join_type == old(self).join_type,
            final(self).other_predicate == old(self).other_predicate,
            final(self).interrupt == old(self).interrupt,
            probe_outcome(
                all_pairs(*hash_table, keys@, opt_bits(old(probe_state).valids)),
                pred_view(old(self).other_predicate),
                old(self).join_type == JoinType::RightSingle,
                true,
                old(self).interrupt,
                old(probe_state).max_block_size as int,
                old(self).outer_scan_map@,
                final(self).outer_scan_map@,
                r,
            ),
    {
        let single = match self.join_type {
            JoinType::RightSingle => true,
            _ => false,
        };
        self.probe_batches(hash_table, probe_state, keys, single, true)
    }
}

} // verus!
