use vstd::prelude::*;

use crate::hash_table::{matches_from, BuildTable};
use crate::predicate::{kept, keeps};
use crate::probe::{
    all_pairs, blocks_view, builds, concat_blocks, key_pairs, key_valid, lemma_marked_empty,
    pairs_of, probe_outcome, probe_pairs,
};
use crate::scan_map::{claimable, marked};
use crate::types::{JoinedRow, ProbeError, RowPtr};

verus! {

/// The validity of a key sequence written twice.
pub open spec fn doubled(valids: Option<Seq<bool>>) -> Option<Seq<bool>> {
    match valids {
        None => None,
        Some(v) => Some(v + v),
    }
}

proof fn lemma_marked_twice(m: Seq<Seq<bool>>, s: Seq<RowPtr>)
    ensures
        marked(m, s + s) == marked(m, s),
{
    crate::scan_map::lemma_marked_add(m, s, s);
    let a = marked(marked(m, s), s);
    let b = marked(m, s);
    assert forall|c: int| 0 <= c < m.len() implies a[c] =~= b[c] by {}
    assert(a =~= b);
}

proof fn lemma_builds_pairs_of(s: Seq<RowPtr>, i: int)
    ensures
        builds(pairs_of(s, i)) == s,
{
    assert(builds(pairs_of(s, i)) =~= s);
}

proof fn lemma_doubled_prefix(
    chain: Seq<(u64, RowPtr)>,
    keys: Seq<u64>,
    valids: Option<Seq<bool>>,
    j: int,
)
    requires
        0 <= j <= keys.len(),
        valids matches Some(v) ==> v.len() == keys.len(),
    ensures
        probe_pairs(chain, keys + keys, doubled(valids), j) == probe_pairs(chain, keys, valids, j),
    decreases j,
{
    if j > 0 {
        lemma_doubled_prefix(chain, keys, valids, j - 1);
        assert((keys + keys)[j - 1] == keys[j - 1]);
        assert(key_valid(doubled(valids), j - 1) == key_valid(valids, j - 1));
    }
}

proof fn lemma_doubled_builds(
    chain: Seq<(u64, RowPtr)>,
    keys: Seq<u64>,
    valids: Option<Seq<bool>>,
    j: int,
)
    requires
        0 <= j <= keys.len(),
        valids matches Some(v) ==> v.len() == keys.len(),
    ensures
        builds(probe_pairs(chain, keys + keys, doubled(valids), keys.len() + j)) == builds(
            probe_pairs(chain, keys, valids, keys.len() as int),
        ) + builds(probe_pairs(chain, keys, valids, j)),
    decreases j,
{
    let k2 = keys + keys;
    let n = keys.len() as int;
    if j > 0 {
        lemma_doubled_builds(chain, keys, valids, j - 1);
        assert(k2[n + j - 1] == keys[j - 1]);
        assert(key_valid(doubled(valids), n + j - 1) == key_valid(valids, j - 1));
        let a = key_pairs(chain, k2, doubled(valids), n + j - 1);
        let b = key_pairs(chain, keys, valids, j - 1);
        assert(builds(a) == builds(b)) by {
            if key_valid(valids, j - 1) {
                lemma_builds_pairs_of(matches_from(chain, keys[j - 1], 0), n + j - 1);
                lemma_builds_pairs_of(matches_from(chain, keys[j - 1], 0), j - 1);
            } else {
                assert(builds(a) =~= builds(b));
            }
        }
        let p = probe_pairs(chain, k2, doubled(valids), n + j - 1);
        let q = probe_pairs(chain, keys, valids, j - 1);
        assert(builds(p + a) =~= builds(p) + builds(a));
        assert(builds(q + b) =~= builds(q) + builds(b));
        assert(builds(probe_pairs(chain, keys, valids, n)) + builds(q + b) =~= builds(
            probe_pairs(chain, keys, valids, n),
        ) + builds(q) + builds(b));
    } else {
        assert(builds(probe_pairs(chain, keys, valids, n)) + builds(seq![]) =~= builds(
            probe_pairs(chain, keys, valids, n),
        ));
        lemma_doubled_prefix(chain, keys, valids, n);
    }
}

proof fn lemma_pairs_in_chain(
    chain: Seq<(u64, RowPtr)>,
    keys: Seq<u64>,
    valids: Option<Seq<bool>>,
    n: int,
    k: int,
)
    requires
        0 <= k < probe_pairs(chain, keys, valids, n).len(),
    ensures
        exists|j: int| 0 <= j < chain.len() && chain[j].1 == probe_pairs(chain, keys, valids, n)[k].build,
    decreases n,
{
    if n > 0 {
        let p = probe_pairs(chain, keys, valids, n - 1);
        let a = key_pairs(chain, keys, valids, n - 1);
        if k < p.len() {
            lemma_pairs_in_chain(chain, keys, valids, n - 1, k);
        } else {
            assert(probe_pairs(chain, keys, valids, n)[k] == a[k - p.len()]);
            crate::probe::lemma_matches_in_chain(chain, keys[n - 1], 0, k - p.len());
        }
    }
}

/// Probing every key a second time changes nothing in the map that a
/// right or right-anti probe without residual predicate leaves behind: the
/// repeated keys match the same build rows, and marking is idempotent.
pub proof fn lemma_duplicate_keys_same_map(
    table: BuildTable,
    keys: Seq<u64>,
    valids: Option<Seq<bool>>,
    emit: bool,
    cap: int,
    before: Seq<Seq<bool>>,
    once: Seq<Seq<bool>>,
    twice: Seq<Seq<bool>>,
    r1: Result<Vec<Vec<JoinedRow>>, ProbeError>,
    r2: Result<Vec<Vec<JoinedRow>>, ProbeError>,
)
    requires
        valids matches Some(v) ==> v.len() == keys.len(),
        probe_outcome(all_pairs(table, keys, valids), None, false, emit, false, cap, before, once, r1),
        probe_outcome(all_pairs(table, keys + keys, doubled(valids)), None, false, emit, false, cap, before, twice, r2),
    ensures
        once == twice,
{
    let chain = table.chain@;
    let p1 = all_pairs(table, keys, valids);
    let p2 = all_pairs(table, keys + keys, doubled(valids));
    assert(forall|k: int| 0 <= k < p1.len() ==> keeps(None, #[trigger] p1[k]));
    assert(forall|k: int| 0 <= k < p2.len() ==> keeps(None, #[trigger] p2[k]));
    crate::probe::lemma_kept_all(None, p1);
    crate::probe::lemma_kept_all(None, p2);
    lemma_doubled_builds(chain, keys, valids, keys.len() as int);
    assert((keys + keys).len() == keys.len() + keys.len());
    lemma_marked_twice(before, builds(p1));
}

/// On a map with every flag cleared, a probe that succeeds sets exactly the
/// flags of the build rows of the matched pairs that the residual predicate
/// keeps.
pub proof fn lemma_completeness(
    table: BuildTable,
    keys: Seq<u64>,
    valids: Option<Seq<bool>>,
    pred: Option<Seq<JoinedRow>>,
    single: bool,
    emit: bool,
    interrupted: bool,
    cap: int,
    before: Seq<Seq<bool>>,
    after: Seq<Seq<bool>>,
    r: Result<Vec<Vec<JoinedRow>>, ProbeError>,
)
    requires
        probe_outcome(all_pairs(table, keys, valids), pred, single, emit, interrupted, cap, before, after, r),
        r is Ok,
        forall|c: int, k: int| 0 <= c < before.len() && 0 <= k < before[c].len() ==> !#[trigger] before[c][k],
    ensures
        forall|p: RowPtr|
            crate::scan_map::in_bounds(before, p) ==> (#[trigger] after[p.chunk_index as int][p.row_index as int] <==> exists|k: int|
                0 <= k < kept(pred, all_pairs(table, keys, valids)).len()
                    && kept(pred, all_pairs(table, keys, valids))[k].build == p),
{
    let out = kept(pred, all_pairs(table, keys, valids));
    assert forall|p: RowPtr| crate::scan_map::in_bounds(before, p) implies (#[trigger] after[p.chunk_index as int][p.row_index as int] <==> exists|k: int|
        0 <= k < out.len() && out[k].build == p) by {
        let q = RowPtr { chunk_index: p.chunk_index as int as u32, row_index: p.row_index as int as u32 };
        assert(q == p);
        if builds(out).contains(p) {
            let k = choose|k: int| 0 <= k < builds(out).len() && builds(out)[k] == p;
            assert(out[k].build == p);
        }
        if exists|k: int| 0 <= k < out.len() && out[k].build == p {
            let k = choose|k: int| 0 <= k < out.len() && out[k].build == p;
            assert(builds(out)[k] == p);
        }
    }
}

/// A right-single probe in which two distinct probe rows keep a match with
/// the same build row fails with the uniqueness error, unless it was
/// cancelled first.
pub proof fn lemma_single_duplicate_fails(
    table: BuildTable,
    keys: Seq<u64>,
    valids: Option<Seq<bool>>,
    pred: Option<Seq<JoinedRow>>,
    interrupted: bool,
    cap: int,
    before: Seq<Seq<bool>>,
    after: Seq<Seq<bool>>,
    r: Result<Vec<Vec<JoinedRow>>, ProbeError>,
    x: JoinedRow,
    y: JoinedRow,
)
    requires
        probe_outcome(all_pairs(table, keys, valids), pred, true, true, interrupted, cap, before, after, r),
        !(interrupted && all_pairs(table, keys, valids).len() >= cap),
        all_pairs(table, keys, valids).contains(x),
        all_pairs(table, keys, valids).contains(y),
        keeps(pred, x),
        keeps(pred, y),
        x.build == y.build,
        x.probe_row != y.probe_row,
    ensures
        r == Err::<Vec<Vec<JoinedRow>>, ProbeError>(ProbeError::ScalarSubqueryMultipleRows),
{
    let pairs = all_pairs(table, keys, valids);
    let out = kept(pred, pairs);
    let i = choose|i: int| 0 <= i < pairs.len() && pairs[i] == x;
    let j = choose|j: int| 0 <= j < pairs.len() && pairs[j] == y;
    pairs.lemma_filter_contains(|row: JoinedRow| keeps(pred, row), i);
    pairs.lemma_filter_contains(|row: JoinedRow| keeps(pred, row), j);
    let a = choose|a: int| 0 <= a < out.len() && out[a] == x;
    let b = choose|b: int| 0 <= b < out.len() && out[b] == y;
    assert(builds(out)[a] == builds(out)[b]);
    assert(!builds(out).no_duplicates());
}

/// A right-single probe in which no build row is kept twice succeeds on a
/// map with every flag cleared, unless cancelled, and sets exactly the
/// flags of the kept build rows.
pub proof fn lemma_single_unique_succeeds(
    table: BuildTable,
    keys: Seq<u64>,
    valids: Option<Seq<bool>>,
    pred: Option<Seq<JoinedRow>>,
    interrupted: bool,
    cap: int,
    before: Seq<Seq<bool>>,
    after: Seq<Seq<bool>>,
    r: Result<Vec<Vec<JoinedRow>>, ProbeError>,
)
    requires
        probe_outcome(all_pairs(table, keys, valids), pred, true, true, interrupted, cap, before, after, r),
        !(interrupted && all_pairs(table, keys, valids).len() >= cap),
        builds(kept(pred, all_pairs(table, keys, valids))).no_duplicates(),
        table.fits(before),
        forall|c: int, k: int| 0 <= c < before.len() && 0 <= k < before[c].len() ==> !#[trigger] before[c][k],
    ensures
        r is Ok,
        after == marked(before, builds(kept(pred, all_pairs(table, keys, valids)))),
{
    let pairs = all_pairs(table, keys, valids);
    let out = kept(pred, pairs);
    let s = builds(out);
    assert forall|k: int| 0 <= k < s.len() implies !(#[trigger] before[s[k].chunk_index as int][s[k].row_index as int]) by {
        assert(out.contains(out[k]));
        pairs.lemma_filter_contains_rev(|row: JoinedRow| keeps(pred, row), out[k]);
        let i = choose|i: int| 0 <= i < pairs.len() && pairs[i] == out[k];
        lemma_pairs_in_chain(table.chain@, keys, valids, keys.len() as int, i);
        let j = choose|j: int| 0 <= j < table.chain@.len() && table.chain@[j].1 == pairs[i].build;
        assert(crate::scan_map::in_bounds(before, table.chain@[j].1));
    }
    assert(claimable(before, s));
}

/// The rows a right or right-single probe returns, taken block after block,
/// and the map it leaves behind, do not depend on the batch size.
pub proof fn lemma_batch_size_transparent(
    table: BuildTable,
    keys: Seq<u64>,
    valids: Option<Seq<bool>>,
    pred: Option<Seq<JoinedRow>>,
    single: bool,
    cap1: int,
    cap2: int,
    before: Seq<Seq<bool>>,
    after1: Seq<Seq<bool>>,
    after2: Seq<Seq<bool>>,
    r1: Result<Vec<Vec<JoinedRow>>, ProbeError>,
    r2: Result<Vec<Vec<JoinedRow>>, ProbeError>,
)
    requires
        probe_outcome(all_pairs(table, keys, valids), pred, single, true, false, cap1, before, after1, r1),
        probe_outcome(all_pairs(table, keys, valids), pred, single, true, false, cap2, before, after2, r2),
    ensures
        r1 is Ok <==> r2 is Ok,
        r1 is Ok ==> after1 == after2 && concat_blocks(blocks_view(r1->Ok_0)) == concat_blocks(blocks_view(r2->Ok_0)),
        r1 is Err ==> r1 == r2,
{
}

/// A residual predicate that every matched pair passes has the same effect
/// as none.
pub proof fn lemma_all_pass_predicate(
    table: BuildTable,
    keys: Seq<u64>,
    valids: Option<Seq<bool>>,
    passing: Seq<JoinedRow>,
    single: bool,
    emit: bool,
    interrupted: bool,
    cap: int,
    before: Seq<Seq<bool>>,
    after1: Seq<Seq<bool>>,
    after2: Seq<Seq<bool>>,
    r1: Result<Vec<Vec<JoinedRow>>, ProbeError>,
    r2: Result<Vec<Vec<JoinedRow>>, ProbeError>,
)
    requires
        forall|k: int| 0 <= k < all_pairs(table, keys, valids).len() ==> passing.contains(#[trigger] all_pairs(table, keys, valids)[k]),
        probe_outcome(all_pairs(table, keys, valids), Some(passing), single, emit, interrupted, cap, before, after1, r1),
        probe_outcome(all_pairs(table, keys, valids), None, single, emit, interrupted, cap, before, after2, r2),
    ensures
        r1 is Ok <==> r2 is Ok,
        r1 is Ok ==> after1 == after2 && concat_blocks(blocks_view(r1->Ok_0)) == concat_blocks(blocks_view(r2->Ok_0)),
        r1 is Err ==> r1 == r2,
{
    let pairs = all_pairs(table, keys, valids);
    assert(forall|k: int| 0 <= k < pairs.len() ==> keeps(Some(passing), #[trigger] pairs[k]));
    assert(forall|k: int| 0 <= k < pairs.len() ==> keeps(None, #[trigger] pairs[k]));
    crate::probe::lemma_kept_all(Some(passing), pairs);
    crate::probe::lemma_kept_all(None, pairs);
}

/// A residual predicate that no matched pair passes makes a probe that is
/// not cancelled return no row and leave the map as it was.
pub proof fn lemma_all_fail_predicate(
    table: BuildTable,
    keys: Seq<u64>,
    valids: Option<Seq<bool>>,
    passing: Seq<JoinedRow>,
    single: bool,
    emit: bool,
    interrupted: bool,
    cap: int,
    before: Seq<Seq<bool>>,
    after: Seq<Seq<bool>>,
    r: Result<Vec<Vec<JoinedRow>>, ProbeError>,
)
    requires
        forall|k: int| 0 <= k < all_pairs(table, keys, valids).len() ==> !passing.contains(#[trigger] all_pairs(table, keys, valids)[k]),
        probe_outcome(all_pairs(table, keys, valids), Some(passing), single, emit, interrupted, cap, before, after, r),
        !(interrupted && all_pairs(table, keys, valids).len() >= cap),
    ensures
        r is Ok,
        after == before,
        concat_blocks(blocks_view(r->Ok_0)) == Seq::<JoinedRow>::empty(),
{
    let pairs = all_pairs(table, keys, valids);
    assert(forall|k: int| 0 <= k < pairs.len() ==> !keeps(Some(passing), #[trigger] pairs[k]));
    crate::probe::lemma_kept_none(Some(passing), pairs);
    assert(builds(seq![]) =~= seq![]);
    lemma_marked_empty(before);
    assert(claimable(before, seq![]));
}

/// With a residual predicate that some pairs pass, a probe that succeeds
/// returns exactly the matched pairs that pass, in order, and marks exactly
/// their build rows.
pub proof fn lemma_bitmap_predicate(
    table: BuildTable,
    keys: Seq<u64>,
    valids: Option<Seq<bool>>,
    passing: Seq<JoinedRow>,
    single: bool,
    interrupted: bool,
    cap: int,
    before: Seq<Seq<bool>>,
    after: Seq<Seq<bool>>,
    r: Result<Vec<Vec<JoinedRow>>, ProbeError>,
)
    requires
        probe_outcome(all_pairs(table, keys, valids), Some(passing), single, true, interrupted, cap, before, after, r),
        r is Ok,
    ensures
        concat_blocks(blocks_view(r->Ok_0)) == all_pairs(table, keys, valids).filter(|row: JoinedRow| passing.contains(row)),
        after == marked(before, builds(all_pairs(table, keys, valids).filter(|row: JoinedRow| passing.contains(row)))),
{
    let pairs = all_pairs(table, keys, valids);
    assert(kept(Some(passing), pairs) == pairs.filter(|row: JoinedRow| passing.contains(row))) by {
        assert((|row: JoinedRow| keeps(Some(passing), row)) =~= (|row: JoinedRow| passing.contains(row)));
    }
}

/// A probe whose cancellation flag is set when its first batch fills fails
/// with the abort error and leaves the map as it was.
pub proof fn lemma_cancellation(
    table: BuildTable,
    keys: Seq<u64>,
    valids: Option<Seq<bool>>,
    pred: Option<Seq<JoinedRow>>,
    single: bool,
    emit: bool,
    cap: int,
    before: Seq<Seq<bool>>,
    after: Seq<Seq<bool>>,
    r: Result<Vec<Vec<JoinedRow>>, ProbeError>,
)
    requires
        probe_outcome(all_pairs(table, keys, valids), pred, single, emit, true, cap, before, after, r),
        all_pairs(table, keys, valids).len() >= cap,
    ensures
        r == Err::<Vec<Vec<JoinedRow>>, ProbeError>(ProbeError::AbortedQuery),
        after == before,
{
}

} // verus!
