//! Per-row-group folding of the offset and limit budgets.
//!
//! After the predicates have narrowed a row group's selection, the reader
//! factory folds the remaining offset and limit into it, updates both
//! budgets, and decides whether the row group contributes any rows at all.
//! The offset budget is decremented by exactly the rows the fold removed,
//! saturating at zero; the limit budget is decremented by the rows that
//! remain, which the fold proves never exceeds it.

use vstd::prelude::*;

use crate::selection::RowSelection;
use crate::selection::apply_range;
use crate::selection::base_rows;
use crate::selection::count_true;
use crate::selection::lemma_count_all_true;
use crate::selection::lemma_count_expand;
use crate::selection::lemma_limit_rows_bound;
use crate::selection::lemma_range_rows_le;
use crate::selection::range_rows;

verus! {

/// The cross-row-group budgets the reader factory carries: how many
/// selected rows are still to be skipped, and how many may still be
/// emitted. An absent budget means no offset, or no limit, was requested.
pub struct FactoryBudget {
    /// Selected rows still to be dropped before any row is emitted.
    pub offset: Option<usize>,
    /// Selected rows that may still be emitted.
    pub limit: Option<usize>,
}

/// What a row group contributes to the stream.
pub enum RowGroupPlan {
    /// No rows survive: skip the row group without fetching its columns.
    SkipGroup,
    /// Fetch and decode the row group through this selection; an absent
    /// selection means every row.
    DecodeGroup(Option<RowSelection>),
}

/// The selected rows of a row group before the budgets are folded in.
pub open spec fn rows_before_spec(selection: Option<RowSelection>, row_count: nat) -> nat {
    count_true(base_rows(selection, row_count))
}

/// The selected rows of a row group after the budgets are folded in.
pub open spec fn rows_after_spec(
    selection: Option<RowSelection>,
    row_count: nat,
    offset: Option<usize>,
    limit: Option<usize>,
) -> nat {
    count_true(range_rows(base_rows(selection, row_count), offset, limit))
}

/// Folds the offset and limit budgets into a row group's narrowed
/// selection and updates both budgets, deciding whether the row group is
/// decoded or skipped.
///
/// The offset budget shrinks by the number of rows the fold removed,
/// saturating at zero, and it shrinks even when the row group ends up
/// empty after the fold. The limit budget shrinks by the rows that remain,
/// and only when some do; the fold guarantees they never exceed it.
pub fn plan_row_group(
    selection: Option<RowSelection>,
    row_count: usize,
    budget: &mut FactoryBudget,
) -> (p: RowGroupPlan)
    requires
        selection matches Some(s) ==> s.wf() && s.total_rows() <= row_count,
    ensures
        ({
            let before = rows_before_spec(selection, row_count as nat);
            let after = rows_after_spec(
                selection,
                row_count as nat,
                old(budget).offset,
                old(budget).limit,
            );
            &&& after <= before
            &&& (before == 0 ==> p is SkipGroup && final(budget).offset == old(budget).offset
                && final(budget).limit == old(budget).limit)
            &&& (before > 0 ==> {
                &&& (old(budget).offset matches Some(o) ==> final(budget).offset == Some(
                    (if before - after <= o { o - (before - after) } else { 0 }) as usize,
                ))
                &&& (old(budget).offset is None ==> final(budget).offset is None)
                &&& (after == 0 ==> p is SkipGroup && final(budget).limit == old(budget).limit)
                &&& (after > 0 ==> {
                    &&& (old(budget).limit matches Some(l) ==> after <= l
                        && final(budget).limit == Some((l - after) as usize))
                    &&& (old(budget).limit is None ==> final(budget).limit is None)
                    &&& p matches RowGroupPlan::DecodeGroup(folded)
                    &&& (p matches RowGroupPlan::DecodeGroup(folded) ==> match folded {
                        Some(rs) => rs.wf() && rs.total_rows() <= row_count
                            && crate::selection::expand_rows(rs.rows(), row_count as nat)
                                == range_rows(
                                base_rows(selection, row_count as nat),
                                old(budget).offset,
                                old(budget).limit,
                            ),
                        None => old(budget).offset is None && old(budget).limit is None
                            && selection is None,
                    })
                })
            })
        }),
{
    let ghost base = base_rows(selection, row_count as nat);
    let ghost folded_spec = range_rows(base, budget.offset, budget.limit);
    proof {
        lemma_range_rows_le(base, budget.offset, budget.limit);
    }
    let rows_before = match &selection {
        Some(s) => {
            proof {
                lemma_count_expand(s.rows(), row_count as nat);
            }
            s.row_count()
        }
        None => {
            proof {
                lemma_count_all_true(row_count as nat);
            }
            row_count
        }
    };
    if rows_before == 0 {
        return RowGroupPlan::SkipGroup;
    }
    let ghost offset0 = budget.offset;
    let ghost limit0 = budget.limit;
    let folded = apply_range(selection, row_count, budget.offset, budget.limit);
    let rows_after = match &folded {
        Some(s) => {
            proof {
                lemma_count_expand(s.rows(), row_count as nat);
            }
            s.row_count()
        }
        None => {
            proof {
                lemma_count_all_true(row_count as nat);
            }
            row_count
        }
    };
    let consumed = rows_before - rows_after;
    if let Some(o) = budget.offset {
        budget.offset = Some(if consumed <= o {
            o - consumed
        } else {
            0
        });
    }
    if rows_after == 0 {
        return RowGroupPlan::SkipGroup;
    }
    if let Some(l) = budget.limit {
        proof {
            let s1 = match offset0 {
                Some(o) => crate::selection::offset_rows(base, o as nat),
                None => base,
            };
            lemma_limit_rows_bound(s1, l as nat);
        }
        budget.limit = Some(l - rows_after);
    }
    RowGroupPlan::DecodeGroup(folded)
}

} // verus!
