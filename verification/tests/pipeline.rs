use liquid_parquet::adapter::BatchDecodeAdapter;
use liquid_parquet::evaluate::MaskBatch;
use liquid_parquet::evaluate::PipelineError;
use liquid_parquet::evaluate::evaluate_predicate;
use liquid_parquet::evaluate::repair_mask;
use liquid_parquet::factory::FactoryBudget;
use liquid_parquet::factory::RowGroupPlan;
use liquid_parquet::factory::plan_row_group;
use liquid_parquet::selection::RowSelection;
use liquid_parquet::selection::RowSelector;
use liquid_parquet::selection::apply_range;
use liquid_parquet::selection::conjunction;
use liquid_parquet::selection::from_mask;
use liquid_parquet::selection::limit_row_selection;
use liquid_parquet::selection::offset_row_selection;
use liquid_parquet::selection::selects_any;
use liquid_parquet::selection::trim_row_selection;
use liquid_parquet::stream::DecodeOutcome;
use liquid_parquet::stream::InitStep;
use liquid_parquet::stream::ReadOutcome;
use liquid_parquet::stream::StreamDriver;
use liquid_parquet::stream::StreamEmit;

fn skip(n: usize) -> RowSelector {
    RowSelector { row_count: n, skip: true }
}

fn select(n: usize) -> RowSelector {
    RowSelector { row_count: n, skip: false }
}

fn sel(runs: Vec<RowSelector>) -> RowSelection {
    RowSelection::from_selectors(runs)
}

#[test]
fn trim_then_expand_reproduces_pattern() {
    let original = sel(vec![skip(2), select(3), skip(4)]);
    let trimmed = trim_row_selection(sel(vec![skip(2), select(3), skip(4)]));
    assert_eq!(trimmed.selectors, vec![skip(2), select(3)]);
    let a = original.expand_to_mask(9);
    let b = trimmed.expand_to_mask(9);
    assert_eq!(a, b);
}

#[test]
fn trim_keeps_inner_skips() {
    let trimmed = trim_row_selection(sel(vec![select(1), skip(2), select(1), skip(9)]));
    assert_eq!(trimmed.selectors, vec![select(1), skip(2), select(1)]);
}

#[test]
fn offset_zero_is_identity() {
    let s = sel(vec![skip(2), select(3), skip(1), select(4)]);
    let r = offset_row_selection(s, 0);
    assert_eq!(r.selectors, vec![skip(2), select(3), skip(1), select(4)]);
}

#[test]
fn offset_splits_inside_a_run() {
    let s = sel(vec![skip(2), select(3), skip(1), select(4)]);
    let r = offset_row_selection(s, 4);
    // All 3 skipped rows and the 4 consumed selected rows collapse into one
    // skip run; the fourth selected row sat in the second select run.
    assert_eq!(r.selectors, vec![skip(7), select(3)]);
}

#[test]
fn offset_beyond_selected_rows_empties() {
    let s = sel(vec![skip(2), select(3)]);
    let r = offset_row_selection(s, 3);
    assert_eq!(r.selectors, Vec::new());
    assert!(!selects_any(Some(&r)));
}

#[test]
fn limit_zero_is_empty() {
    let s = sel(vec![select(5), skip(2), select(5)]);
    let r = limit_row_selection(s, 0);
    assert_eq!(r.selectors, Vec::new());
}

#[test]
fn limit_truncates_and_discards_tail() {
    let s = sel(vec![select(5), skip(2), select(5)]);
    let r = limit_row_selection(s, 7);
    assert_eq!(r.selectors, vec![select(5), skip(2), select(2)]);
}

#[test]
fn limit_exact_run_boundary() {
    let s = sel(vec![select(5), skip(2), select(5)]);
    let r = limit_row_selection(s, 5);
    assert_eq!(r.selectors, vec![select(5)]);
}

#[test]
fn apply_range_bound_by_limit_and_offset() {
    let s = sel(vec![select(4), skip(2), select(6)]);
    let after_offset = offset_row_selection(sel(vec![select(4), skip(2), select(6)]), 3);
    let r = apply_range(Some(s), 12, Some(3), Some(5)).unwrap();
    assert!(r.row_count() <= 5);
    assert!(r.row_count() <= after_offset.row_count());
    assert_eq!(r.row_count(), 5);
}

#[test]
fn apply_range_without_bounds_passes_selection_through() {
    let r = apply_range(Some(sel(vec![skip(1), select(2)])), 3, None, None).unwrap();
    assert_eq!(r.selectors, vec![skip(1), select(2)]);
    assert!(apply_range(None, 10, None, None).is_none());
}

#[test]
fn conjunction_is_commutative() {
    let a = sel(vec![select(3), skip(3), select(2)]);
    let b = sel(vec![skip(1), select(5), skip(2)]);
    let ab = conjunction(&a, &b);
    let ba = conjunction(&b, &a);
    assert_eq!(ab.expand_to_mask(8), ba.expand_to_mask(8));
    assert_eq!(
        ab.expand_to_mask(8),
        vec![false, true, true, false, false, false, false, false]
    );
}

#[test]
fn conjunction_is_associative() {
    let a = sel(vec![select(6), skip(2)]);
    let b = sel(vec![skip(1), select(7)]);
    let c = sel(vec![select(2), skip(2), select(4)]);
    let ab = conjunction(&a, &b);
    let bc = conjunction(&b, &c);
    let left = conjunction(&ab, &c);
    let right = conjunction(&a, &bc);
    assert_eq!(left.expand_to_mask(8), right.expand_to_mask(8));
}

#[test]
fn ten_rows_offset_three_limit_four() {
    // A row group of 10 rows, no predicates, offset 3 and limit 4.
    let mut budget = FactoryBudget { offset: Some(3), limit: Some(4) };
    let plan = plan_row_group(None, 10, &mut budget);
    match plan {
        RowGroupPlan::DecodeGroup(Some(r)) => {
            assert_eq!(r.row_count(), 4);
            let trimmed = trim_row_selection(r);
            assert_eq!(trimmed.selectors, vec![skip(3), select(4)]);
        }
        _ => panic!("expected a decodable selection"),
    }
    assert_eq!(budget.offset, Some(0));
    assert_eq!(budget.limit, Some(0));
    // Exactly 4 rows are drawn when the plan is decoded.
    let mut adapter = BatchDecodeAdapter::new(1024, Some(sel(vec![skip(3), select(4)])));
    let ops = adapter.next_ops();
    let drawn: usize = ops.iter().filter(|o| !o.skip).map(|o| o.row_count).sum();
    assert_eq!(drawn, 4);
    assert!(!adapter.has_more());
}

#[test]
fn predicate_mask_narrows_then_null_drops_row() {
    // Row group of 8 rows; first predicate's mask keeps rows {0,2,3,6,7}.
    let first = vec![MaskBatch {
        num_rows: 8,
        mask: vec![
            Some(true),
            Some(false),
            Some(true),
            Some(true),
            Some(false),
            Some(false),
            Some(true),
            Some(true),
        ],
    }];
    let narrowed = evaluate_predicate(&first, None, 8).unwrap();
    assert_eq!(
        narrowed.expand_to_mask(8),
        vec![true, false, true, true, false, false, true, true]
    );
    assert_eq!(narrowed.row_count(), 5);
    // Second predicate sees the 5 surviving rows; its mask holds a null at
    // relative position 2, which is repaired to "does not match".
    let second = vec![MaskBatch {
        num_rows: 5,
        mask: vec![Some(true), Some(true), None, Some(true), Some(true)],
    }];
    let final_sel = evaluate_predicate(&second, Some(narrowed), 8).unwrap();
    assert_eq!(
        final_sel.expand_to_mask(8),
        vec![true, false, true, false, false, false, true, true]
    );
}

#[test]
fn repair_treats_null_as_non_matching() {
    let repaired = repair_mask(&vec![Some(true), None, Some(false), None, Some(true)]);
    assert_eq!(repaired, vec![true, false, false, false, true]);
}

#[test]
fn mask_length_mismatch_is_one_error_then_end() {
    let bad = vec![MaskBatch {
        num_rows: 4,
        mask: vec![Some(true), Some(true), Some(true)],
    }];
    let err = evaluate_predicate(&bad, None, 4).unwrap_err();
    assert_eq!(err, PipelineError::PredicateMismatch { expected: 4, got: 3 });
    // The stream emits the failure exactly once, then terminates.
    let mut driver = StreamDriver::new(vec![0, 1], vec![8, 8], None);
    assert!(!driver.is_terminated());
    match driver.poll_init() {
        InitStep::StartRead { row_group_idx, selection } => {
            assert_eq!(row_group_idx, 0);
            assert!(selection.is_none());
        }
        InitStep::Finished => panic!("queue was not empty"),
    }
    let emit = driver.on_read(ReadOutcome::Failed);
    assert_eq!(emit, StreamEmit::EmitError);
    assert!(driver.is_terminated());
}

#[test]
fn offset_past_row_group_skips_and_charges_budget() {
    let mut budget = FactoryBudget { offset: Some(15), limit: None };
    let plan = plan_row_group(None, 10, &mut budget);
    assert!(matches!(plan, RowGroupPlan::SkipGroup));
    // The offset budget drops by exactly the row group's row count.
    assert_eq!(budget.offset, Some(5));
    // The selection itself becomes all-skip, empty after trimming.
    let r = apply_range(None, 10, Some(15), None).unwrap();
    assert_eq!(trim_row_selection(r).selectors, Vec::new());
}

#[test]
fn decode_plans_are_deterministic() {
    // Planning the decode of one fetched row group twice, with the same
    // selection and batch size, yields identical pull plans.
    let runs = vec![skip(2), select(5), skip(3), select(6), skip(1), select(1)];
    let mut first = BatchDecodeAdapter::new(4, Some(sel(runs.clone())));
    let mut second = BatchDecodeAdapter::new(4, Some(sel(runs)));
    loop {
        let a = first.next_ops();
        let b = second.next_ops();
        assert_eq!(a, b);
        if a.is_empty() {
            break;
        }
    }
}

#[test]
fn adapter_batches_cover_the_selection() {
    let mut adapter = BatchDecodeAdapter::new(4, Some(sel(vec![skip(2), select(5), skip(3), select(6)])));
    let mut plans: Vec<Vec<RowSelector>> = Vec::new();
    while adapter.has_more() {
        plans.push(adapter.next_ops());
    }
    let drawn: usize = plans
        .iter()
        .flat_map(|ops| ops.iter())
        .filter(|o| !o.skip)
        .map(|o| o.row_count)
        .sum();
    assert_eq!(drawn, 11);
    // No pull draws more than the batch size.
    for ops in &plans {
        let per: usize = ops.iter().filter(|o| !o.skip).map(|o| o.row_count).sum();
        assert!(per <= 4);
    }
}

#[test]
fn stream_walks_row_groups_and_splits_selection() {
    // Two row groups of 6 rows each; the cross-row-group selection keeps
    // rows 4..8 of the file.
    let selection = sel(vec![skip(4), select(4)]);
    let mut driver = StreamDriver::new(vec![0, 1], vec![6, 6], Some(selection));
    match driver.poll_init() {
        InitStep::StartRead { row_group_idx, selection } => {
            assert_eq!(row_group_idx, 0);
            let part = selection.unwrap();
            assert_eq!(part.expand_to_mask(6), vec![false, false, false, false, true, true]);
        }
        InitStep::Finished => panic!("queue was not empty"),
    }
    assert_eq!(driver.on_read(ReadOutcome::HasRows), StreamEmit::Continue);
    assert_eq!(driver.on_decode(DecodeOutcome::Batch), StreamEmit::EmitBatch);
    assert_eq!(driver.on_decode(DecodeOutcome::Exhausted), StreamEmit::Continue);
    match driver.poll_init() {
        InitStep::StartRead { row_group_idx, selection } => {
            assert_eq!(row_group_idx, 1);
            let part = selection.unwrap();
            assert_eq!(part.expand_to_mask(6), vec![true, true, false, false, false, false]);
        }
        InitStep::Finished => panic!("queue was not empty"),
    }
    assert_eq!(driver.on_read(ReadOutcome::NoRows), StreamEmit::Continue);
    match driver.poll_init() {
        InitStep::Finished => {}
        InitStep::StartRead { .. } => panic!("queue should be exhausted"),
    }
    assert!(driver.is_terminated());
}

#[test]
fn from_mask_coalesces_runs() {
    let m = from_mask(&vec![true, true, false, false, false, true]);
    assert_eq!(m.selectors, vec![select(2), skip(3), select(1)]);
    let empty = from_mask(&Vec::new());
    assert_eq!(empty.selectors, Vec::new());
}

#[test]
fn selects_any_cases() {
    assert!(selects_any(None));
    assert!(!selects_any(Some(&sel(vec![skip(5)]))));
    assert!(!selects_any(Some(&sel(vec![select(0), skip(2)]))));
    assert!(selects_any(Some(&sel(vec![skip(5), select(1)]))));
}

#[test]
fn split_off_partitions_rows() {
    let mut s = sel(vec![skip(2), select(4), skip(1)]);
    let head = s.split_off(4);
    assert_eq!(head.expand_to_mask(4), vec![false, false, true, true]);
    assert_eq!(s.expand_to_mask(3), vec![true, true, false]);
    // Splitting past the end takes everything.
    let mut t = sel(vec![select(2)]);
    let all = t.split_off(10);
    assert_eq!(all.selectors, vec![select(2)]);
    assert_eq!(t.total_row_count(), 0);
}

#[test]
fn evaluate_over_multiple_batches() {
    // 6 selected rows of a 9-row group arrive as two decoded batches.
    let input = sel(vec![skip(1), select(3), skip(2), select(3)]);
    let batches = vec![
        MaskBatch { num_rows: 4, mask: vec![Some(true), Some(false), Some(true), Some(true)] },
        MaskBatch { num_rows: 2, mask: vec![None, Some(true)] },
    ];
    let narrowed = evaluate_predicate(&batches, Some(input), 9).unwrap();
    assert_eq!(
        narrowed.expand_to_mask(9),
        vec![false, true, false, true, false, false, true, false, true]
    );
}
