use probe_join::hash_table::BuildTable;
use probe_join::predicate::{FilterOutcome, ResidualPredicate};
use probe_join::probe::JoinHashTable;
use probe_join::probe_state::ProbeState;
use probe_join::scan_map::OuterScanMap;
use probe_join::types::{JoinType, JoinedRow, ProbeError, RowPtr};

fn ptr(chunk: u32, row: u32) -> RowPtr {
    RowPtr { chunk_index: chunk, row_index: row }
}

fn pair(chunk: u32, row: u32, probe_row: u32) -> JoinedRow {
    JoinedRow { build: ptr(chunk, row), probe_row }
}

/// Build rows A, B, C with keys 1, 2, 3 in one chunk.
fn abc_table() -> BuildTable {
    BuildTable::new(vec![(1, ptr(0, 0)), (2, ptr(0, 1)), (3, ptr(0, 2))])
}

/// Key 1 matches three build rows over two chunks, key 2 one.
fn fan_out_table() -> BuildTable {
    BuildTable::new(vec![(1, ptr(0, 0)), (2, ptr(0, 1)), (1, ptr(0, 2)), (1, ptr(1, 0))])
}

fn join(join_type: JoinType, pred: Option<ResidualPredicate>, chunk_rows: Vec<u32>) -> JoinHashTable {
    JoinHashTable::new(join_type, pred, OuterScanMap::new(&chunk_rows))
}

fn flat(blocks: &[Vec<JoinedRow>]) -> Vec<JoinedRow> {
    blocks.iter().flat_map(|b| b.iter().copied()).collect()
}

#[test]
fn anti_join_marks_matched_rows_only() {
    let table = abc_table();
    let mut j = join(JoinType::RightAnti, None, vec![3]);
    let mut state = ProbeState::new(2, None);
    let r = j.probe_right_anti_join(&table, &mut state, &vec![1, 1, 4]);
    assert_eq!(r, Ok(vec![]));
    assert_eq!(j.outer_scan_map.flags, vec![vec![true, false, false]]);
}

#[test]
fn right_single_two_probe_rows_same_build_row_fails() {
    let table = BuildTable::new(vec![(1, ptr(0, 0)), (2, ptr(0, 1))]);
    let mut j = join(JoinType::RightSingle, None, vec![2]);
    let mut state = ProbeState::new(4, None);
    let r = j.probe_right_join(&table, &mut state, &vec![1, 1]);
    assert_eq!(r, Err(ProbeError::ScalarSubqueryMultipleRows));
}

#[test]
fn right_single_duplicate_across_batches_fails() {
    let table = BuildTable::new(vec![(1, ptr(0, 0)), (2, ptr(0, 1))]);
    let mut j = join(JoinType::RightSingle, None, vec![2]);
    let mut state = ProbeState::new(1, None);
    let r = j.probe_right_join(&table, &mut state, &vec![2, 1, 1]);
    assert_eq!(r, Err(ProbeError::ScalarSubqueryMultipleRows));
}

#[test]
fn right_single_unique_matches_succeed() {
    let table = abc_table();
    let mut j = join(JoinType::RightSingle, None, vec![3]);
    let mut state = ProbeState::new(2, None);
    let r = j.probe_right_join(&table, &mut state, &vec![3, 4, 1]).unwrap();
    assert_eq!(flat(&r), vec![pair(0, 2, 0), pair(0, 0, 2)]);
    assert_eq!(j.outer_scan_map.flags, vec![vec![true, false, true]]);
}

#[test]
fn right_single_row_already_claimed_fails() {
    let table = abc_table();
    let mut j = join(JoinType::RightSingle, None, vec![3]);
    let mut state = ProbeState::new(2, None);
    assert!(j.probe_right_join(&table, &mut state, &vec![2]).is_ok());
    let r = j.probe_right_join(&table, &mut state, &vec![2]);
    assert_eq!(r, Err(ProbeError::ScalarSubqueryMultipleRows));
}

#[test]
fn duplicated_keys_leave_the_same_map() {
    let table = fan_out_table();
    let mut once = join(JoinType::Right, None, vec![3, 1]);
    let mut twice = join(JoinType::Right, None, vec![3, 1]);
    let mut s1 = ProbeState::new(2, None);
    let mut s2 = ProbeState::new(2, None);
    once.probe_right_join(&table, &mut s1, &vec![1, 5]).unwrap();
    twice.probe_right_join(&table, &mut s2, &vec![1, 5, 1, 5]).unwrap();
    assert_eq!(once.outer_scan_map.flags, twice.outer_scan_map.flags);
    assert_eq!(once.outer_scan_map.flags, vec![vec![true, false, true], vec![true]]);

    let mut anti = join(JoinType::RightAnti, None, vec![3, 1]);
    let mut s3 = ProbeState::new(3, None);
    anti.probe_right_anti_join(&table, &mut s3, &vec![1, 5, 1, 5]).unwrap();
    assert_eq!(anti.outer_scan_map.flags, once.outer_scan_map.flags);
}

#[test]
fn completeness_only_matched_rows_are_set() {
    let table = abc_table();
    let mut j = join(JoinType::Right, None, vec![3]);
    let mut state = ProbeState::new(7, None);
    let r = j.probe_right_join(&table, &mut state, &vec![2, 9, 2]).unwrap();
    assert_eq!(r, vec![vec![pair(0, 1, 0), pair(0, 1, 2)]]);
    assert_eq!(j.outer_scan_map.flags, vec![vec![false, true, false]]);
}

#[test]
fn null_keys_never_match() {
    let table = abc_table();
    let mut j = join(JoinType::Right, None, vec![3]);
    let mut state = ProbeState::new(4, Some(vec![true, false, true]));
    let r = j.probe_right_join(&table, &mut state, &vec![1, 2, 3]).unwrap();
    assert_eq!(flat(&r), vec![pair(0, 0, 0), pair(0, 2, 2)]);
    assert_eq!(j.outer_scan_map.flags, vec![vec![true, false, true]]);
}

#[test]
fn batch_size_does_not_change_joined_rows() {
    let table = fan_out_table();
    let keys = vec![1, 2, 7, 1];
    let expected = vec![
        pair(0, 0, 0),
        pair(0, 2, 0),
        pair(1, 0, 0),
        pair(0, 1, 1),
        pair(0, 0, 3),
        pair(0, 2, 3),
        pair(1, 0, 3),
    ];
    let mut maps = vec![];
    for (cap, n_blocks) in [(1usize, 7usize), (7, 1), (100, 1), (3, 3)] {
        let mut j = join(JoinType::Right, None, vec![3, 1]);
        let mut state = ProbeState::new(cap, None);
        let r = j.probe_right_join(&table, &mut state, &keys).unwrap();
        assert_eq!(flat(&r), expected);
        assert_eq!(r.len(), n_blocks);
        assert!(r.iter().all(|b| !b.is_empty() && b.len() <= cap));
        maps.push(j.outer_scan_map.flags);
    }
    assert!(maps.iter().all(|m| *m == vec![vec![true, true, true], vec![true]]));
}

#[test]
fn right_single_batch_size_does_not_change_rows() {
    let table = abc_table();
    let keys = vec![3, 1, 2];
    let mut results = vec![];
    for cap in [1usize, 7, 100] {
        let mut j = join(JoinType::RightSingle, None, vec![3]);
        let mut state = ProbeState::new(cap, None);
        results.push(flat(&j.probe_right_join(&table, &mut state, &keys).unwrap()));
    }
    assert_eq!(results[0], vec![pair(0, 2, 0), pair(0, 0, 1), pair(0, 1, 2)]);
    assert_eq!(results[0], results[1]);
    assert_eq!(results[1], results[2]);
}

#[test]
fn all_pass_predicate_same_as_none() {
    let table = fan_out_table();
    let keys = vec![1, 2];
    let all = vec![pair(0, 0, 0), pair(0, 2, 0), pair(1, 0, 0), pair(0, 1, 1)];
    let mut with = join(JoinType::Right, Some(ResidualPredicate::new(all.clone())), vec![3, 1]);
    let mut without = join(JoinType::Right, None, vec![3, 1]);
    let mut s1 = ProbeState::new(2, None);
    let mut s2 = ProbeState::new(2, None);
    let r1 = with.probe_right_join(&table, &mut s1, &keys).unwrap();
    let r2 = without.probe_right_join(&table, &mut s2, &keys).unwrap();
    assert_eq!(r1, r2);
    assert_eq!(flat(&r1), all);
    assert_eq!(with.outer_scan_map.flags, without.outer_scan_map.flags);
}

#[test]
fn all_fail_predicate_emits_and_marks_nothing() {
    let table = fan_out_table();
    let mut j = join(JoinType::Right, Some(ResidualPredicate::new(vec![pair(0, 1, 5)])), vec![3, 1]);
    let mut state = ProbeState::new(2, None);
    let r = j.probe_right_join(&table, &mut state, &vec![1, 2]).unwrap();
    assert!(r.is_empty());
    assert_eq!(j.outer_scan_map.flags, vec![vec![false, false, false], vec![false]]);

    let mut anti = join(JoinType::RightAnti, Some(ResidualPredicate::new(vec![])), vec![3, 1]);
    let mut s2 = ProbeState::new(2, None);
    assert_eq!(anti.probe_right_anti_join_with_conjunct(&table, &mut s2, &vec![1, 2]), Ok(vec![]));
    assert_eq!(anti.outer_scan_map.flags, vec![vec![false, false, false], vec![false]]);
}

#[test]
fn bitmap_predicate_keeps_exactly_passing_pairs() {
    let table = fan_out_table();
    let passing = vec![pair(0, 2, 0), pair(0, 1, 1), pair(0, 0, 9)];
    let mut j = join(JoinType::Right, Some(ResidualPredicate::new(passing.clone())), vec![3, 1]);
    let mut state = ProbeState::new(2, None);
    let r = j.probe_right_join(&table, &mut state, &vec![1, 2]).unwrap();
    assert_eq!(r, vec![vec![pair(0, 2, 0)], vec![pair(0, 1, 1)]]);
    assert_eq!(j.outer_scan_map.flags, vec![vec![false, true, true], vec![false]]);

    let mut anti = join(JoinType::RightAnti, Some(ResidualPredicate::new(passing)), vec![3, 1]);
    let mut s2 = ProbeState::new(3, None);
    assert_eq!(anti.probe_right_anti_join_with_conjunct(&table, &mut s2, &vec![1, 2]), Ok(vec![]));
    assert_eq!(anti.outer_scan_map.flags, vec![vec![false, true, true], vec![false]]);
}

#[test]
fn right_single_predicate_filters_before_claiming() {
    let table = BuildTable::new(vec![(1, ptr(0, 0))]);
    let mut j = join(JoinType::RightSingle, Some(ResidualPredicate::new(vec![pair(0, 0, 1)])), vec![1]);
    let mut state = ProbeState::new(4, None);
    let r = j.probe_right_join(&table, &mut state, &vec![1, 1]).unwrap();
    assert_eq!(r, vec![vec![pair(0, 0, 1)]]);
    assert_eq!(j.outer_scan_map.flags, vec![vec![true]]);
}

#[test]
fn cancellation_aborts_at_first_full_batch() {
    let table = abc_table();
    let mut j = join(JoinType::Right, None, vec![3]);
    j.abort();
    let mut state = ProbeState::new(2, None);
    let r = j.probe_right_join(&table, &mut state, &vec![1, 2, 3]);
    assert_eq!(r, Err(ProbeError::AbortedQuery));
    assert_eq!(j.outer_scan_map.flags, vec![vec![false, false, false]]);

    let mut anti = join(JoinType::RightAnti, None, vec![3]);
    anti.abort();
    let mut s2 = ProbeState::new(1, None);
    assert_eq!(anti.probe_right_anti_join(&table, &mut s2, &vec![3]), Err(ProbeError::AbortedQuery));
    assert_eq!(anti.outer_scan_map.flags, vec![vec![false, false, false]]);
}

#[test]
fn cancellation_without_full_batch_completes() {
    let table = abc_table();
    let mut j = join(JoinType::Right, None, vec![3]);
    j.abort();
    let mut state = ProbeState::new(5, None);
    let r = j.probe_right_join(&table, &mut state, &vec![1, 2]).unwrap();
    assert_eq!(flat(&r), vec![pair(0, 0, 0), pair(0, 1, 1)]);
    assert_eq!(j.outer_scan_map.flags, vec![vec![true, true, false]]);
}

#[test]
fn empty_probe_returns_nothing() {
    let table = abc_table();
    let mut j = join(JoinType::Right, None, vec![3]);
    let mut state = ProbeState::new(3, None);
    assert_eq!(j.probe_right_join(&table, &mut state, &vec![]), Ok(vec![]));
    assert_eq!(j.outer_scan_map.flags, vec![vec![false, false, false]]);
}

#[test]
fn probe_resumes_from_continuation() {
    let table = fan_out_table();
    let mut buf = vec![ptr(9, 9); 2];
    let (n, next) = table.probe(1, &mut buf, 0, 2);
    assert_eq!(n, 2);
    assert_ne!(next, 0);
    assert_eq!(buf, vec![ptr(0, 0), ptr(0, 2)]);
    let (n2, next2) = table.next_incomplete_ptr(1, next, &mut buf, 0, 2);
    assert_eq!((n2, next2), (1, 0));
    assert_eq!(buf[0], ptr(1, 0));
    // The buffer fills at the only match of key 2: a continuation comes
    // back, and resuming from it yields nothing.
    let (n3, next3) = table.probe(2, &mut buf, 1, 2);
    assert_eq!(n3, 1);
    assert_ne!(next3, 0);
    assert_eq!(buf, vec![ptr(1, 0), ptr(0, 1)]);
    assert_eq!(table.next_incomplete_ptr(2, next3, &mut buf, 0, 2), (0, 0));
    assert_eq!(table.probe(8, &mut buf, 0, 2), (0, 0));
}

#[test]
fn predicate_evaluation_three_outcomes() {
    let p = ResidualPredicate::new(vec![pair(0, 0, 0), pair(0, 1, 1)]);
    assert!(p.holds(pair(0, 1, 1)));
    assert!(!p.holds(pair(0, 1, 0)));
    assert!(matches!(p.evaluate(&vec![pair(0, 0, 0), pair(0, 1, 1)]), FilterOutcome::AllPass));
    assert!(matches!(p.evaluate(&vec![pair(0, 2, 0)]), FilterOutcome::AllFail));
    match p.evaluate(&vec![pair(0, 2, 0), pair(0, 1, 1)]) {
        FilterOutcome::Bitmap(b) => assert_eq!(b, vec![false, true]),
        _ => panic!("expected a bitmap"),
    }
}

#[test]
fn compacted_indices_expand_runs() {
    let runs = vec![(4u32, 2u32), (7, 1), (9, 3), (1, 1)];
    let probes = probe_join::probe_state::take_compacted_indices(&runs, 3, 6);
    assert_eq!(probes, vec![4, 4, 7, 9, 9, 9]);
    let builds = vec![ptr(0, 0), ptr(0, 1), ptr(0, 2), ptr(1, 0), ptr(1, 1), ptr(1, 2), ptr(2, 0)];
    let merged = probe_join::probe_state::merge_eq_block(&builds, &probes);
    assert_eq!(merged.len(), 6);
    assert_eq!(merged[2], pair(0, 2, 7));
    assert_eq!(merged[5], pair(1, 2, 9));
}

#[test]
fn scan_map_mark_and_query() {
    let mut m = OuterScanMap::new(&vec![2, 0, 1]);
    assert_eq!(m.flags, vec![vec![false, false], vec![], vec![false]]);
    m.mark(ptr(2, 0));
    m.mark(ptr(2, 0));
    assert!(m.is_set(ptr(2, 0)));
    assert!(!m.is_set(ptr(0, 1)));
    assert_eq!(m.flags, vec![vec![false, false], vec![], vec![true]]);
}

#[test]
fn error_messages() {
    assert_eq!(
        ProbeError::AbortedQuery.message(),
        "Aborted query, because the server is shutting down or the query was killed."
    );
    assert_eq!(
        ProbeError::ScalarSubqueryMultipleRows.message(),
        "Scalar subquery can't return more than one row"
    );
}
