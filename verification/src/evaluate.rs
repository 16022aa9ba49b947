//! Folding per-batch predicate masks into a row-group selection.
//!
//! A predicate is evaluated batch by batch over the rows the incoming
//! selection lets through. Each batch yields a boolean mask that may carry
//! nulls; a null is repaired to "does not match". The repaired masks,
//! concatenated, say for each selected row of the row group whether it
//! survives; scattering them back over the incoming selection and
//! intersecting gives the narrowed selection for the next predicate.

use vstd::prelude::*;

use crate::selection::RowSelection;
use crate::selection::RowSelector;
use crate::selection::all_true;
use crate::selection::and_rows;
use crate::selection::base_rows;
use crate::selection::conjunction;
use crate::selection::count_true;
use crate::selection::expand_rows;
use crate::selection::from_mask;
use crate::selection::lemma_count_all_true;
use crate::selection::lemma_count_expand;
use crate::selection::lemma_count_true_take_monotonic;
use crate::selection::lemma_count_true_take_step;

verus! {

/// Why the pipeline stopped: every kind ends the stream for good.
#[derive(Clone, Copy, Debug, PartialEq, Eq, Structural)]
pub enum PipelineError {
    /// The byte-range fetcher failed to materialize column-chunk bytes.
    Fetch,
    /// Fetched bytes could not be decoded, or no decoder could be built.
    Decode,
    /// A predicate returned a mask whose length differs from the batch's
    /// row count: a contract violation caught before it can corrupt the
    /// selection arithmetic downstream.
    PredicateMismatch { expected: usize, got: usize },
    /// A state the pipeline believed impossible was reached.
    Invariant,
}

/// One batch's predicate outcome: the batch's row count and the mask the
/// predicate returned for it, `None` marking a null entry.
pub struct MaskBatch {
    /// How many rows the decoded batch held.
    pub num_rows: usize,
    /// The predicate's verdict per row, `None` where it was null.
    pub mask: Vec<Option<bool>>,
}

/// A three-valued mask repaired to two values: null counts as non-matching.
pub open spec fn repaired_mask(m: Seq<Option<bool>>) -> Seq<bool> {
    Seq::new(m.len(), |i: int| m[i] == Some(true))
}

/// The repaired masks of all batches, concatenated in batch order.
pub open spec fn flat_masks(batches: Seq<MaskBatch>) -> Seq<bool>
    decreases batches.len(),
{
    if batches.len() == 0 {
        Seq::empty()
    } else {
        repaired_mask(batches[0].mask@) + flat_masks(batches.drop_first())
    }
}

/// The number of rows the batches claim together.
pub open spec fn total_mask_rows(batches: Seq<MaskBatch>) -> nat
    decreases batches.len(),
{
    if batches.len() == 0 {
        0
    } else {
        batches[0].num_rows as nat + total_mask_rows(batches.drop_first())
    }
}

/// Every batch's mask has as many entries as the batch has rows.
pub open spec fn masks_well_sized(batches: Seq<MaskBatch>) -> bool {
    forall|j: int| 0 <= j < batches.len()
        ==> (#[trigger] batches[j].mask@).len() == batches[j].num_rows
}

pub proof fn lemma_flat_masks_concat(a: Seq<MaskBatch>, b: Seq<MaskBatch>)
    ensures
        flat_masks(a + b) == flat_masks(a) + flat_masks(b),
    decreases a.len(),
{
    if a.len() == 0 {
        assert(a + b =~= b);
        assert(flat_masks(a) + flat_masks(b) =~= flat_masks(b));
    } else {
        assert((a + b).drop_first() =~= a.drop_first() + b);
        lemma_flat_masks_concat(a.drop_first(), b);
        assert(flat_masks(a + b) =~= flat_masks(a) + flat_masks(b));
    }
}

pub proof fn lemma_flat_masks_push(batches: Seq<MaskBatch>, b: MaskBatch)
    ensures
        flat_masks(batches.push(b)) == flat_masks(batches) + repaired_mask(b.mask@),
{
    assert(batches.push(b) =~= batches + seq![b]);
    lemma_flat_masks_concat(batches, seq![b]);
    assert(seq![b].drop_first() =~= Seq::<MaskBatch>::empty());
    assert(flat_masks(seq![b].drop_first()) =~= Seq::<bool>::empty());
    assert(flat_masks(seq![b]) =~= repaired_mask(b.mask@) + Seq::<bool>::empty());
    assert(repaired_mask(b.mask@) + Seq::<bool>::empty() =~= repaired_mask(b.mask@));
}

/// Well-sized batches describe exactly as many mask rows as they claim.
pub proof fn lemma_flat_masks_len(batches: Seq<MaskBatch>)
    requires
        masks_well_sized(batches),
    ensures
        flat_masks(batches).len() == total_mask_rows(batches),
    decreases batches.len(),
{
    if batches.len() > 0 {
        assert(batches[0].mask@.len() == batches[0].num_rows);
        assert(masks_well_sized(batches.drop_first())) by {
            assert(forall|j: int| 0 <= j < batches.drop_first().len()
                ==> batches.drop_first()[j] == batches[j + 1]);
        }
        lemma_flat_masks_len(batches.drop_first());
    }
}

/// Repairs a null-affected mask: a null entry becomes non-matching.
pub fn repair_mask(mask: &Vec<Option<bool>>) -> (r: Vec<bool>)
    ensures
        r@ == repaired_mask(mask@),
{
    let mut r: Vec<bool> = Vec::new();
    let mut i: usize = 0;
    while i < mask.len()
        invariant
            i <= mask@.len(),
            r@ == repaired_mask(mask@).take(i as int),
        decreases mask@.len() - i,
    {
        let v = match mask[i] {
            Some(true) => true,
            _ => false,
        };
        r.push(v);
        proof {
            assert(repaired_mask(mask@).take(i + 1)
                =~= repaired_mask(mask@).take(i as int).push(mask@[i as int] == Some(true)));
        }
        i += 1;
    }
    proof {
        assert(repaired_mask(mask@).take(mask@.len() as int) =~= repaired_mask(mask@));
    }
    r
}

/// The per-batch mask rows scattered back over the rows of the row group:
/// a row survives iff the base pattern selects it and the mask row that
/// corresponds to its rank among the selected rows is `true`.
pub open spec fn scatter_rows(base: Seq<bool>, bits: Seq<bool>) -> Seq<bool> {
    Seq::new(base.len(), |i: int| base[i] && bits[count_true(base.take(i)) as int])
}

/// Evaluates one predicate's per-batch masks against the incoming selection
/// of a row group of `row_count` rows, and returns the narrowed selection.
///
/// The batches must together cover exactly the rows the incoming selection
/// lets through; that is the decoder's contract. A mask whose length
/// differs from its batch's row count is the predicate's fault and is
/// reported as an error naming the first offending batch.
pub fn evaluate_predicate(
    batches: &Vec<MaskBatch>,
    input_selection: Option<RowSelection>,
    row_count: usize,
) -> (r: Result<RowSelection, PipelineError>)
    requires
        input_selection matches Some(s) ==> s.wf() && s.total_rows() <= row_count,
        total_mask_rows(batches@) == count_true(base_rows(input_selection, row_count as nat)),
    ensures
        r is Err <==> !masks_well_sized(batches@),
        r matches Err(e) ==> exists|j: int|
            {
                &&& 0 <= j < batches@.len()
                &&& (#[trigger] batches@[j].mask@).len() != batches@[j].num_rows
                &&& e matches PipelineError::PredicateMismatch { expected, got }
                    && expected == batches@[j].num_rows && got == batches@[j].mask@.len()
                &&& forall|k: int| 0 <= k < j
                    ==> (#[trigger] batches@[k].mask@).len() == batches@[k].num_rows
            },
        r matches Ok(rs) ==> rs.wf() && rs.total_rows() == row_count && rs.rows() == scatter_rows(
            base_rows(input_selection, row_count as nat),
            flat_masks(batches@),
        ),
{
    let ghost base = base_rows(input_selection, row_count as nat);
    let mut flat: Vec<bool> = Vec::new();
    let mut jb: usize = 0;
    while jb < batches.len()
        invariant
            jb <= batches@.len(),
            flat@ == flat_masks(batches@.take(jb as int)),
            forall|k: int| 0 <= k < jb
                ==> (#[trigger] batches@[k].mask@).len() == batches@[k].num_rows,
        decreases batches@.len() - jb,
    {
        let b = &batches[jb];
        if b.mask.len() != b.num_rows {
            return Err(PipelineError::PredicateMismatch {
                expected: b.num_rows,
                got: b.mask.len(),
            });
        }
        let repaired = repair_mask(&b.mask);
        let mut t: usize = 0;
        while t < repaired.len()
            invariant
                jb < batches@.len(),
                t <= repaired@.len(),
                repaired@ == repaired_mask(batches@[jb as int].mask@),
                flat@ == flat_masks(batches@.take(jb as int)) + repaired@.take(t as int),
            decreases repaired@.len() - t,
        {
            flat.push(repaired[t]);
            proof {
                assert(repaired@.take(t + 1) =~= repaired@.take(t as int).push(repaired@[t as int]));
            }
            t += 1;
        }
        proof {
            assert(repaired@.take(repaired@.len() as int) =~= repaired@);
            assert(batches@.take(jb + 1) =~= batches@.take(jb as int).push(batches@[jb as int]));
            lemma_flat_masks_push(batches@.take(jb as int), batches@[jb as int]);
        }
        jb += 1;
    }
    proof {
        assert(batches@.take(batches@.len() as int) =~= batches@);
        lemma_flat_masks_len(batches@);
    }
    match input_selection {
        None => {
            proof {
                lemma_count_all_true(row_count as nat);
                assert forall|i: int| 0 <= i < row_count implies
                    scatter_rows(base, flat@)[i] == flat@[i] by {
                    assert(base.take(i) =~= all_true(i as nat));
                    lemma_count_all_true(i as nat);
                }
                assert(flat@ =~= scatter_rows(base, flat@));
            }
            Ok(from_mask(&flat))
        }
        Some(s) => {
            let base_mask = s.expand_to_mask(row_count);
            let flat_len = flat.len();
            let mut out: Vec<bool> = Vec::new();
            let mut c: usize = 0;
            let mut i: usize = 0;
            proof {
                lemma_count_expand(s.rows(), row_count as nat);
            }
            while i < row_count
                invariant
                    i <= row_count,
                    base_mask@ == base,
                    base.len() == row_count,
                    flat@.len() == count_true(base),
                    flat_len == flat@.len(),
                    c == count_true(base.take(i as int)),
                    out@ == scatter_rows(base, flat@).take(i as int),
                decreases row_count - i,
            {
                proof {
                    lemma_count_true_take_step(base, i as int);
                    lemma_count_true_take_monotonic(base, i + 1, base.len() as int);
                    assert(base.take(base.len() as int) =~= base);
                }
                let b = base_mask[i];
                let v = if b { flat[c] } else { false };
                out.push(v);
                proof {
                    assert(scatter_rows(base, flat@).take(i + 1)
                        =~= scatter_rows(base, flat@).take(i as int).push(
                        scatter_rows(base, flat@)[i as int]));
                }
                if b {
                    c += 1;
                }
                i += 1;
            }
            proof {
                assert(out@ =~= scatter_rows(base, flat@));
            }
            let scattered = from_mask(&out);
            let base_sel = from_mask(&base_mask);
            let narrowed = conjunction(&base_sel, &scattered);
            proof {
                assert forall|i: int| 0 <= i < row_count implies
                    and_rows(base, scatter_rows(base, flat@))[i]
                        == scatter_rows(base, flat@)[i] by {}
                assert(narrowed.rows() =~= scatter_rows(base, flat@));
            }
            Ok(narrowed)
        }
    }
}

} // verus!
