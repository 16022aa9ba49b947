//! Run-length row selections and their algebra.
//!
//! A selection describes, row by row within one row group, which rows
//! survive: an ordered sequence of runs, each either skipping or selecting
//! a number of consecutive rows. The mathematical model of a selection is
//! its per-row boolean pattern, a `Seq<bool>` in which `true` marks a
//! selected row; trailing rows that the runs do not describe count as
//! skipped.

use vstd::prelude::*;

verus! {

/// One run of consecutive rows that are either all skipped or all selected.
#[derive(Clone, Copy, Debug, PartialEq, Eq, Structural)]
pub struct RowSelector {
    /// How many consecutive rows this run covers.
    pub row_count: usize,
    /// Whether the rows of this run are skipped (`true`) or selected (`false`).
    pub skip: bool,
}

/// The per-row pattern of a single run: `row_count` copies of `!skip`.
pub open spec fn run_rows(r: RowSelector) -> Seq<bool> {
    Seq::new(r.row_count as nat, |i: int| !r.skip)
}

/// The per-row pattern of a sequence of runs, in order.
pub open spec fn runs_rows(runs: Seq<RowSelector>) -> Seq<bool>
    decreases runs.len(),
{
    if runs.len() == 0 {
        Seq::empty()
    } else {
        run_rows(runs[0]) + runs_rows(runs.drop_first())
    }
}

/// How many rows of a pattern are selected.
pub open spec fn count_true(s: Seq<bool>) -> nat
    decreases s.len(),
{
    if s.len() == 0 {
        0
    } else {
        (if s[0] { 1nat } else { 0nat }) + count_true(s.drop_first())
    }
}

/// A pattern padded out to `n` rows: rows past the described prefix are skipped.
pub open spec fn expand_rows(s: Seq<bool>, n: nat) -> Seq<bool> {
    Seq::new(n, |i: int| 0 <= i < s.len() && s[i])
}

pub proof fn lemma_runs_rows_concat(a: Seq<RowSelector>, b: Seq<RowSelector>)
    ensures
        runs_rows(a + b) == runs_rows(a) + runs_rows(b),
    decreases a.len(),
{
    if a.len() == 0 {
        assert(a + b =~= b);
        assert(runs_rows(a) + runs_rows(b) =~= runs_rows(b));
    } else {
        assert((a + b).drop_first() =~= a.drop_first() + b);
        lemma_runs_rows_concat(a.drop_first(), b);
        assert(runs_rows(a + b) =~= runs_rows(a) + runs_rows(b));
    }
}

/// Appending one run to a prefix of runs appends its rows to the pattern.
pub proof fn lemma_runs_rows_singleton(r: RowSelector)
    ensures
        runs_rows(seq![r]) == run_rows(r),
{
    assert(seq![r].drop_first() =~= Seq::<RowSelector>::empty());
    assert(runs_rows(seq![r].drop_first()) =~= Seq::<bool>::empty());
    assert(runs_rows(seq![r]) =~= run_rows(r) + Seq::<bool>::empty());
    assert(run_rows(r) + Seq::<bool>::empty() =~= run_rows(r));
}

pub proof fn lemma_runs_rows_push(runs: Seq<RowSelector>, r: RowSelector)
    ensures
        runs_rows(runs.push(r)) == runs_rows(runs) + run_rows(r),
{
    assert(runs.push(r) =~= runs + seq![r]);
    lemma_runs_rows_concat(runs, seq![r]);
    lemma_runs_rows_singleton(r);
}

pub proof fn lemma_count_true_concat(a: Seq<bool>, b: Seq<bool>)
    ensures
        count_true(a + b) == count_true(a) + count_true(b),
    decreases a.len(),
{
    if a.len() == 0 {
        assert(a + b =~= b);
    } else {
        assert((a + b).drop_first() =~= a.drop_first() + b);
        lemma_count_true_concat(a.drop_first(), b);
    }
}

pub proof fn lemma_count_true_le_len(s: Seq<bool>)
    ensures
        count_true(s) <= s.len(),
    decreases s.len(),
{
    if s.len() > 0 {
        lemma_count_true_le_len(s.drop_first());
    }
}

/// Counting over one more row adds that row's value.
pub proof fn lemma_count_true_singleton(b: bool)
    ensures
        count_true(seq![b]) == if b { 1nat } else { 0nat },
{
    assert(seq![b].drop_first() =~= Seq::<bool>::empty());
    assert(count_true(seq![b].drop_first()) == 0);
}

/// Counting over one more row adds that row's value.
pub proof fn lemma_count_true_take_step(s: Seq<bool>, i: int)
    requires
        0 <= i < s.len(),
    ensures
        count_true(s.take(i + 1)) == count_true(s.take(i)) + (if s[i] { 1nat } else { 0nat }),
{
    assert(s.take(i + 1) =~= s.take(i) + seq![s[i]]);
    lemma_count_true_concat(s.take(i), seq![s[i]]);
    lemma_count_true_singleton(s[i]);
}

pub proof fn lemma_count_true_take_monotonic(s: Seq<bool>, i: int, j: int)
    requires
        0 <= i <= j <= s.len(),
    ensures
        count_true(s.take(i)) <= count_true(s.take(j)),
{
    assert(s.take(j) =~= s.take(i) + s.subrange(i, j));
    lemma_count_true_concat(s.take(i), s.subrange(i, j));
}

/// A pattern that implies another row by row selects no more rows.
pub proof fn lemma_count_true_pointwise_le(a: Seq<bool>, b: Seq<bool>)
    requires
        a.len() == b.len(),
        forall|i: int| 0 <= i < a.len() && a[i] ==> b[i],
    ensures
        count_true(a) <= count_true(b),
    decreases a.len(),
{
    if a.len() > 0 {
        lemma_count_true_pointwise_le(a.drop_first(), b.drop_first());
    }
}

/// An ordered run-length selection of the rows of one row group.
#[derive(Debug)]
pub struct RowSelection {
    /// The runs, in row order.
    pub selectors: Vec<RowSelector>,
}

impl View for RowSelection {
    type V = Seq<RowSelector>;

    open spec fn view(&self) -> Seq<RowSelector> {
        self.selectors@
    }
}

impl RowSelection {
    /// The per-row boolean pattern this selection describes.
    pub open spec fn rows(self) -> Seq<bool> {
        runs_rows(self@)
    }

    /// The number of rows the runs describe (selected and skipped).
    pub open spec fn total_rows(self) -> nat {
        self.rows().len()
    }

    /// The number of selected rows.
    pub open spec fn selected(self) -> nat {
        count_true(self.rows())
    }

    /// The run lengths must describe a number of rows a machine can count.
    pub open spec fn wf(self) -> bool {
        self.total_rows() <= usize::MAX
    }

    /// A selection with no runs: every row is skipped.
    pub fn empty() -> (r: RowSelection)
        ensures
            r@ =~= Seq::<RowSelector>::empty(),
            r.rows() =~= Seq::<bool>::empty(),
            r.wf(),
    {
        RowSelection { selectors: Vec::new() }
    }

    /// Wraps a vector of runs as a selection.
    pub fn from_selectors(selectors: Vec<RowSelector>) -> (r: RowSelection)
        requires
            runs_rows(selectors@).len() <= usize::MAX,
        ensures
            r@ == selectors@,
            r.wf(),
    {
        RowSelection { selectors }
    }
}

/// Trailing skip runs of a run sequence removed.
pub open spec fn trim_spec(runs: Seq<RowSelector>) -> Seq<RowSelector>
    decreases runs.len(),
{
    if runs.len() > 0 && runs.last().skip {
        trim_spec(runs.drop_last())
    } else {
        runs
    }
}

/// Drops trailing `skip` runs: a selection need not describe rows past the
/// last selected one.
pub fn trim_row_selection(selection: RowSelection) -> (r: RowSelection)
    ensures
        r@ == trim_spec(selection@),
{
    let mut selectors = selection.selectors;
    while selectors.len() > 0 && selectors[selectors.len() - 1].skip
        invariant
            trim_spec(selectors@) == trim_spec(selection@),
        decreases selectors.len(),
    {
        proof {
            assert(selectors@.drop_last() =~= selectors@.take(selectors@.len() - 1));
        }
        selectors.pop();
    }
    RowSelection { selectors }
}

/// Trimming never lengthens the pattern.
pub proof fn lemma_trim_spec_len(runs: Seq<RowSelector>)
    ensures
        runs_rows(trim_spec(runs)).len() <= runs_rows(runs).len(),
    decreases runs.len(),
{
    if runs.len() > 0 && runs.last().skip {
        lemma_trim_spec_len(runs.drop_last());
        assert(runs =~= runs.drop_last().push(runs.last()));
        lemma_runs_rows_push(runs.drop_last(), runs.last());
    }
}

/// Trimming a selection and expanding it back to any row count `n` that
/// covers the original pattern reproduces that pattern row for row: the
/// dropped trailing runs described only skipped rows.
pub proof fn lemma_trim_preserves_rows(runs: Seq<RowSelector>, n: nat)
    requires
        runs_rows(runs).len() <= n,
    ensures
        expand_rows(runs_rows(trim_spec(runs)), n) == expand_rows(runs_rows(runs), n),
    decreases runs.len(),
{
    if runs.len() > 0 && runs.last().skip {
        assert(runs =~= runs.drop_last().push(runs.last()));
        lemma_runs_rows_push(runs.drop_last(), runs.last());
        lemma_trim_preserves_rows(runs.drop_last(), n);
        assert(expand_rows(runs_rows(runs.drop_last()), n) =~= expand_rows(runs_rows(runs), n));
    }
}

/// Counting the rows of one run.
pub proof fn lemma_count_true_run(r: RowSelector)
    ensures
        count_true(run_rows(r)) == if r.skip { 0nat } else { r.row_count as nat },
    decreases r.row_count,
{
    if r.row_count > 0 {
        let smaller = RowSelector { row_count: (r.row_count - 1) as usize, skip: r.skip };
        assert(run_rows(r).drop_first() =~= run_rows(smaller));
        lemma_count_true_run(smaller);
    }
}

/// The pattern of a run sequence, split at run `j`.
pub proof fn lemma_runs_rows_decompose(runs: Seq<RowSelector>, j: int)
    requires
        0 <= j < runs.len(),
    ensures
        runs_rows(runs) == runs_rows(runs.take(j)) + run_rows(runs[j]) + runs_rows(runs.skip(j + 1)),
{
    assert(runs =~= runs.take(j) + seq![runs[j]] + runs.skip(j + 1));
    lemma_runs_rows_concat(runs.take(j) + seq![runs[j]], runs.skip(j + 1));
    lemma_runs_rows_concat(runs.take(j), seq![runs[j]]);
    lemma_runs_rows_singleton(runs[j]);
}

/// A prefix of the runs describes no more rows, and selects no more rows,
/// than the whole.
pub proof fn lemma_runs_rows_take_le(runs: Seq<RowSelector>, j: int)
    requires
        0 <= j <= runs.len(),
    ensures
        runs_rows(runs.take(j)).len() <= runs_rows(runs).len(),
        count_true(runs_rows(runs.take(j))) <= count_true(runs_rows(runs)),
        runs_rows(runs) == runs_rows(runs.take(j)) + runs_rows(runs.skip(j)),
{
    assert(runs =~= runs.take(j) + runs.skip(j));
    lemma_runs_rows_concat(runs.take(j), runs.skip(j));
    lemma_count_true_concat(runs_rows(runs.take(j)), runs_rows(runs.skip(j)));
}

/// Returns `true` if `selection` is absent (everything selected) or selects
/// at least one row.
pub fn selects_any(selection: Option<&RowSelection>) -> (r: bool)
    ensures
        r == match selection {
            None => true,
            Some(s) => count_true(s.rows()) > 0,
        },
{
    match selection {
        None => true,
        Some(s) => has_selected_rows(s),
    }
}

/// Returns `true` if the selection selects at least one row.
pub fn has_selected_rows(s: &RowSelection) -> (r: bool)
    ensures
        r == (count_true(s.rows()) > 0),
{
    let mut j: usize = 0;
    while j < s.selectors.len()
        invariant
            j <= s.selectors@.len(),
            count_true(runs_rows(s.selectors@.take(j as int))) == 0,
        decreases s.selectors@.len() - j,
    {
        let sel = s.selectors[j];
        proof {
            assert(s.selectors@.take(j + 1) =~= s.selectors@.take(j as int).push(sel));
            lemma_runs_rows_push(s.selectors@.take(j as int), sel);
            lemma_count_true_concat(runs_rows(s.selectors@.take(j as int)), run_rows(sel));
            lemma_count_true_run(sel);
            lemma_runs_rows_take_le(s.selectors@, j + 1);
            lemma_count_true_concat(
                runs_rows(s.selectors@.take(j + 1)),
                runs_rows(s.selectors@.skip(j + 1)),
            );
        }
        if !sel.skip && sel.row_count > 0 {
            return true;
        }
        j += 1;
    }
    proof {
        assert(s.selectors@.take(s.selectors@.len() as int) =~= s.selectors@);
    }
    false
}

impl RowSelection {
    /// The number of selected rows.
    pub fn row_count(&self) -> (r: usize)
        requires
            self.wf(),
        ensures
            r == self.selected(),
    {
        let mut acc: usize = 0;
        let mut j: usize = 0;
        while j < self.selectors.len()
            invariant
                self.wf(),
                j <= self.selectors@.len(),
                acc == count_true(runs_rows(self.selectors@.take(j as int))),
            decreases self.selectors@.len() - j,
        {
            let sel = self.selectors[j];
            proof {
                assert(self.selectors@.take(j + 1) =~= self.selectors@.take(j as int).push(sel));
                lemma_runs_rows_push(self.selectors@.take(j as int), sel);
                lemma_count_true_concat(runs_rows(self.selectors@.take(j as int)), run_rows(sel));
                lemma_count_true_run(sel);
                lemma_runs_rows_take_le(self.selectors@, j + 1);
                lemma_count_true_le_len(self.rows());
            }
            if !sel.skip {
                acc = acc + sel.row_count;
            }
            j += 1;
        }
        proof {
            assert(self.selectors@.take(self.selectors@.len() as int) =~= self.selectors@);
        }
        acc
    }

    /// The number of rows the runs describe, selected and skipped together.
    pub fn total_row_count(&self) -> (r: usize)
        requires
            self.wf(),
        ensures
            r == self.total_rows(),
    {
        let mut acc: usize = 0;
        let mut j: usize = 0;
        while j < self.selectors.len()
            invariant
                self.wf(),
                j <= self.selectors@.len(),
                acc == runs_rows(self.selectors@.take(j as int)).len(),
            decreases self.selectors@.len() - j,
        {
            let sel = self.selectors[j];
            proof {
                assert(self.selectors@.take(j + 1) =~= self.selectors@.take(j as int).push(sel));
                lemma_runs_rows_push(self.selectors@.take(j as int), sel);
                lemma_runs_rows_take_le(self.selectors@, j + 1);
            }
            acc = acc + sel.row_count;
            j += 1;
        }
        proof {
            assert(self.selectors@.take(self.selectors@.len() as int) =~= self.selectors@);
        }
        acc
    }

    /// The per-row pattern as a boolean vector of `n` rows, rows past the
    /// described prefix skipped.
    pub fn expand_to_mask(&self, n: usize) -> (mask: Vec<bool>)
        requires
            self.wf(),
            self.total_rows() <= n,
        ensures
            mask@ == expand_rows(self.rows(), n as nat),
    {
        let mut mask: Vec<bool> = Vec::new();
        let mut j: usize = 0;
        while j < self.selectors.len()
            invariant
                self.wf(),
                self.total_rows() <= n,
                j <= self.selectors@.len(),
                mask@ == runs_rows(self.selectors@.take(j as int)),
            decreases self.selectors@.len() - j,
        {
            let sel = self.selectors[j];
            let mut t: usize = 0;
            while t < sel.row_count
                invariant
                    t <= sel.row_count,
                    j < self.selectors@.len(),
                    sel == self.selectors@[j as int],
                    mask@ == runs_rows(self.selectors@.take(j as int))
                        + Seq::new(t as nat, |i: int| !sel.skip),
                decreases sel.row_count - t,
            {
                mask.push(!sel.skip);
                proof {
                    assert(Seq::new((t + 1) as nat, |i: int| !sel.skip)
                        =~= Seq::new(t as nat, |i: int| !sel.skip).push(!sel.skip));
                    assert(mask@ =~= runs_rows(self.selectors@.take(j as int))
                        + Seq::new((t + 1) as nat, |i: int| !sel.skip));
                }
                t += 1;
            }
            proof {
                assert(Seq::new(sel.row_count as nat, |i: int| !sel.skip) =~= run_rows(sel));
                assert(self.selectors@.take(j + 1) =~= self.selectors@.take(j as int).push(sel));
                lemma_runs_rows_push(self.selectors@.take(j as int), sel);
            }
            j += 1;
        }
        proof {
            assert(self.selectors@.take(self.selectors@.len() as int) =~= self.selectors@);
            assert(mask@ =~= expand_rows(self.rows(), mask@.len() as nat));
        }
        while mask.len() < n
            invariant
                mask@.len() >= self.total_rows(),
                mask@.len() <= n,
                mask@ == expand_rows(self.rows(), mask@.len() as nat),
            decreases n - mask@.len(),
        {
            mask.push(false);
            proof {
                assert(mask@ =~= expand_rows(self.rows(), mask@.len() as nat));
            }
        }
        mask
    }
}

/// Builds a selection from a per-row boolean mask: `true` rows are selected,
/// `false` rows skipped, consecutive equal rows coalesced into one run.
pub fn from_mask(mask: &Vec<bool>) -> (r: RowSelection)
    ensures
        r.wf(),
        r.rows() == mask@,
{
    let mut selectors: Vec<RowSelector> = Vec::new();
    let mut i: usize = 0;
    while i < mask.len()
        invariant
            i <= mask@.len(),
            runs_rows(selectors@) == mask@.take(i as int),
        decreases mask@.len() - i,
    {
        let b = mask[i];
        let k = selectors.len();
        proof {
            assert(mask@.take(i + 1) =~= mask@.take(i as int).push(b));
        }
        if k > 0 && !selectors[k - 1].skip == b {
            let cur = selectors[k - 1];
            let ghost pre = selectors@;
            proof {
                assert(pre =~= pre.take(k - 1).push(cur));
                lemma_runs_rows_push(pre.take(k - 1), cur);
            }
            let updated = RowSelector { row_count: cur.row_count + 1, skip: cur.skip };
            selectors.set(k - 1, updated);
            proof {
                assert(selectors@ =~= pre.take(k - 1).push(updated));
                lemma_runs_rows_push(pre.take(k - 1), updated);
                assert(run_rows(updated) =~= run_rows(cur).push(b));
                assert(runs_rows(selectors@) =~= mask@.take(i + 1));
            }
        } else {
            let ghost pre = selectors@;
            let fresh = RowSelector { row_count: 1, skip: !b };
            selectors.push(fresh);
            proof {
                lemma_runs_rows_push(pre, fresh);
                assert(run_rows(fresh) =~= seq![b]);
                assert(runs_rows(selectors@) =~= mask@.take(i + 1));
            }
        }
        i += 1;
    }
    proof {
        assert(mask@.take(mask@.len() as int) =~= mask@);
    }
    RowSelection { selectors }
}

/// The row-by-row intersection of two patterns of equal length.
pub open spec fn and_rows(a: Seq<bool>, b: Seq<bool>) -> Seq<bool> {
    Seq::new(a.len(), |i: int| a[i] && b[i])
}

/// Intersects two row-aligned selections: a row survives iff both select it.
pub fn conjunction(a: &RowSelection, b: &RowSelection) -> (r: RowSelection)
    requires
        a.wf(),
        b.wf(),
        a.total_rows() == b.total_rows(),
    ensures
        r.wf(),
        r.rows() == and_rows(a.rows(), b.rows()),
{
    let n = a.total_row_count();
    let ma = a.expand_to_mask(n);
    let mb = b.expand_to_mask(n);
    let mut m: Vec<bool> = Vec::new();
    let mut i: usize = 0;
    proof {
        assert(expand_rows(a.rows(), n as nat) =~= a.rows());
        assert(expand_rows(b.rows(), n as nat) =~= b.rows());
    }
    while i < n
        invariant
            i <= n,
            ma@ == a.rows(),
            mb@ == b.rows(),
            ma@.len() == n,
            mb@.len() == n,
            m@ == and_rows(ma@, mb@).take(i as int),
        decreases n - i,
    {
        m.push(ma[i] && mb[i]);
        proof {
            assert(and_rows(ma@, mb@).take(i + 1)
                =~= and_rows(ma@, mb@).take(i as int).push(ma@[i as int] && mb@[i as int]));
        }
        i += 1;
    }
    let r = from_mask(&m);
    proof {
        assert(m@ =~= and_rows(a.rows(), b.rows()));
    }
    r
}

/// Conjunction of row-aligned selections of equal total length is
/// commutative: intersecting in either order selects the same rows.
pub proof fn lemma_conjunction_commutative(a: RowSelection, b: RowSelection)
    requires
        a.total_rows() == b.total_rows(),
    ensures
        and_rows(a.rows(), b.rows()) == and_rows(b.rows(), a.rows()),
{
    assert(and_rows(a.rows(), b.rows()) =~= and_rows(b.rows(), a.rows()));
}

/// Conjunction of row-aligned selections of equal total length is
/// associative: grouping does not change which rows survive.
pub proof fn lemma_conjunction_associative(a: RowSelection, b: RowSelection, c: RowSelection)
    requires
        a.total_rows() == b.total_rows(),
        b.total_rows() == c.total_rows(),
    ensures
        and_rows(and_rows(a.rows(), b.rows()), c.rows())
            == and_rows(a.rows(), and_rows(b.rows(), c.rows())),
{
    assert(and_rows(and_rows(a.rows(), b.rows()), c.rows())
        =~= and_rows(a.rows(), and_rows(b.rows(), c.rows())));
}

/// A pattern of `n` selected rows.
pub open spec fn all_true(n: nat) -> Seq<bool> {
    Seq::new(n, |i: int| true)
}

/// A pattern of `n` skipped rows.
pub open spec fn all_false(n: nat) -> Seq<bool> {
    Seq::new(n, |i: int| false)
}

pub proof fn lemma_count_all_true(n: nat)
    ensures
        count_true(all_true(n)) == n,
    decreases n,
{
    if n > 0 {
        assert(all_true(n).drop_first() =~= all_true((n - 1) as nat));
        lemma_count_all_true((n - 1) as nat);
    }
}

pub proof fn lemma_count_all_false(n: nat)
    ensures
        count_true(all_false(n)) == 0,
    decreases n,
{
    if n > 0 {
        assert(all_false(n).drop_first() =~= all_false((n - 1) as nat));
        lemma_count_all_false((n - 1) as nat);
    }
}

/// The pattern left after dropping the first `k` selected rows: a row stays
/// selected iff it was selected and at least `k` selected rows lie before it.
pub open spec fn offset_rows(s: Seq<bool>, k: nat) -> Seq<bool> {
    Seq::new(s.len(), |i: int| s[i] && count_true(s.take(i)) >= k)
}

/// The pattern kept by a limit of `k` selected rows: a row stays selected
/// iff it was selected and fewer than `k` selected rows lie before it.
pub open spec fn limit_rows(s: Seq<bool>, k: nat) -> Seq<bool> {
    Seq::new(s.len(), |i: int| s[i] && count_true(s.take(i)) < k)
}


/// A limit of `k` keeps exactly `min(k, selected)` rows selected.
pub proof fn lemma_count_limit_rows(s: Seq<bool>, k: nat)
    ensures
        count_true(limit_rows(s, k)) == if k <= count_true(s) { k } else { count_true(s) },
    decreases s.len(),
{
    if k == 0 {
        assert(limit_rows(s, 0) =~= all_false(s.len()));
        lemma_count_all_false(s.len());
        lemma_count_true_le_len(s);
    } else if s.len() == 0 {
        assert(limit_rows(s, k) =~= Seq::<bool>::empty());
    } else {
        let s0 = s[0];
        let tail = s.drop_first();
        let k2: nat = if s0 { (k - 1) as nat } else { k };
        assert forall|i: int| 0 <= i < tail.len() implies
            limit_rows(s, k)[i + 1] == limit_rows(tail, k2)[i] by {
            assert(s.take(i + 1) =~= seq![s0] + tail.take(i));
            lemma_count_true_concat(seq![s0], tail.take(i));
            lemma_count_true_singleton(s0);
        }
        assert(limit_rows(s, k).drop_first() =~= limit_rows(tail, k2));
        assert(s.take(0) =~= Seq::<bool>::empty());
        assert(limit_rows(s, k)[0] == s0);
        lemma_count_limit_rows(tail, k2);
    }
}

/// Splits the selection at the `offset`-th selected row: everything before
/// the split, plus the consumed prefix of the split run, becomes one skip
/// run; the rest of the split run stays selected; later runs are kept
/// unchanged. If at most `offset` rows are selected, nothing remains.
pub fn offset_row_selection(selection: RowSelection, offset: usize) -> (r: RowSelection)
    requires
        selection.wf(),
    ensures
        r.wf(),
        r.total_rows() <= selection.total_rows(),
        offset == 0 ==> r@ == selection@,
        offset > 0 && count_true(selection.rows()) <= offset ==> r@.len() == 0,
        expand_rows(r.rows(), selection.total_rows())
            == offset_rows(selection.rows(), offset as nat),
{
    if offset == 0 {
        proof {
            assert(offset_rows(selection.rows(), 0) =~= selection.rows());
            assert(expand_rows(selection.rows(), selection.total_rows()) =~= selection.rows());
        }
        return selection;
    }
    let mut selected_count: usize = 0;
    let mut skipped_count: usize = 0;
    let mut j: usize = 0;
    while j < selection.selectors.len()
        invariant
            selection.wf(),
            j <= selection@.len(),
            selected_count == count_true(runs_rows(selection@.take(j as int))),
            skipped_count + selected_count == runs_rows(selection@.take(j as int)).len(),
            selected_count <= offset,
        ensures
            selection.wf(),
            j <= selection@.len(),
            selected_count == count_true(runs_rows(selection@.take(j as int))),
            skipped_count + selected_count == runs_rows(selection@.take(j as int)).len(),
            selected_count <= offset,
            j == selection@.len()
                || (!selection@[j as int].skip
                    && selected_count + selection@[j as int].row_count > offset),
        decreases selection@.len() - j,
    {
        let sel = selection.selectors[j];
        proof {
            assert(selection@.take(j + 1) =~= selection@.take(j as int).push(sel));
            lemma_runs_rows_push(selection@.take(j as int), sel);
            lemma_count_true_concat(runs_rows(selection@.take(j as int)), run_rows(sel));
            lemma_count_true_run(sel);
            lemma_runs_rows_take_le(selection@, j + 1);
        }
        if !sel.skip && selected_count + sel.row_count > offset {
            break;
        }
        if sel.skip {
            skipped_count = skipped_count + sel.row_count;
        } else {
            selected_count = selected_count + sel.row_count;
        }
        j += 1;
    }
    let ghost rows = selection.rows();
    if j == selection.selectors.len() {
        proof {
            assert(selection@.take(selection@.len() as int) =~= selection@);
            assert forall|i: int| 0 <= i < rows.len() implies
                !offset_rows(rows, offset as nat)[i] by {
                if rows[i] {
                    lemma_count_true_take_step(rows, i);
                    lemma_count_true_take_monotonic(rows, i + 1, rows.len() as int);
                    assert(rows.take(rows.len() as int) =~= rows);
                }
            }
            assert(expand_rows(runs_rows(Seq::<RowSelector>::empty()), selection.total_rows())
                =~= offset_rows(rows, offset as nat));
        }
        return RowSelection { selectors: Vec::new() };
    }
    let sel = selection.selectors[j];
    proof {
        assert(selection@.take(j + 1) =~= selection@.take(j as int).push(sel));
        lemma_runs_rows_push(selection@.take(j as int), sel);
        lemma_runs_rows_take_le(selection@, j + 1);
        lemma_count_true_concat(runs_rows(selection@.take(j as int)), run_rows(sel));
        lemma_count_true_run(sel);
        lemma_count_true_le_len(selection.rows());
    }
    let consumed = offset - selected_count;
    let remainder = sel.row_count - consumed;
    let head = RowSelector { row_count: skipped_count + offset, skip: true };
    let mid = RowSelector { row_count: remainder, skip: false };
    let mut new_selectors: Vec<RowSelector> = Vec::new();
    new_selectors.push(head);
    new_selectors.push(mid);
    let mut k = j + 1;
    while k < selection.selectors.len()
        invariant
            j < selection@.len(),
            j + 1 <= k <= selection@.len(),
            new_selectors@ == seq![head, mid] + selection@.subrange(j + 1, k as int),
        decreases selection@.len() - k,
    {
        new_selectors.push(selection.selectors[k]);
        proof {
            assert(new_selectors@ =~= seq![head, mid] + selection@.subrange(j + 1, k + 1));
        }
        k += 1;
    }
    proof {
        lemma_runs_rows_decompose(selection@, j as int);
        let ca = runs_rows(selection@.take(j as int));
        let cb = run_rows(sel);
        let cc = runs_rows(selection@.skip(j + 1));
        assert(selection@.subrange(j + 1, selection@.len() as int) =~= selection@.skip(j + 1));
        assert(new_selectors@ =~= seq![head, mid] + selection@.skip(j + 1));
        assert(seq![head, mid] =~= seq![head].push(mid));
        lemma_runs_rows_push(seq![head], mid);
        lemma_runs_rows_singleton(head);
        lemma_runs_rows_concat(seq![head, mid], selection@.skip(j + 1));
        let rr = runs_rows(new_selectors@);
        assert(rr == run_rows(head) + run_rows(mid) + cc);
        let start = ca.len() as int;
        let cnt = count_true(ca) as int;
        assert(skipped_count + selected_count == start);
        assert(rr.len() == rows.len());
        assert forall|i: int| 0 <= i < rows.len() implies
            expand_rows(rr, rows.len())[i] == offset_rows(rows, offset as nat)[i] by {
            if i < start {
                assert(rows[i] == ca[i]);
                assert(!rr[i]);
                if rows[i] {
                    lemma_count_true_take_step(rows, i);
                    assert(rows.take(i + 1) =~= ca.take(i + 1));
                    lemma_count_true_take_monotonic(ca, i + 1, start);
                    assert(ca.take(start) =~= ca);
                    assert(rows.take(i) =~= ca.take(i));
                    lemma_count_true_take_monotonic(ca, i, start);
                }
            } else if i < start + sel.row_count {
                assert(rows[i] == cb[i - start]);
                assert(rows[i]);
                assert(rows.take(i) =~= ca + cb.take(i - start));
                lemma_count_true_concat(ca, cb.take(i - start));
                assert(cb.take(i - start) =~= all_true((i - start) as nat));
                lemma_count_all_true((i - start) as nat);
                assert(count_true(rows.take(i)) == cnt + i - start);
            } else {
                assert(rows[i] == cc[i - start - sel.row_count]);
                assert(start + sel.row_count == skipped_count + offset + remainder);
                assert(rr[i] == cc[i - (skipped_count + offset) - remainder]);
                lemma_count_true_take_monotonic(rows, start + sel.row_count, i);
                assert(rows.take(start + sel.row_count) =~= ca + cb);
                lemma_count_true_concat(ca, cb);
                lemma_count_true_run(sel);
            }
        }
        assert(expand_rows(rr, rows.len()) =~= offset_rows(rows, offset as nat));
    }
    RowSelection { selectors: new_selectors }
}

/// Keeps only the first `limit` selected rows: the run that would exceed the
/// remaining budget is truncated to it and everything after is discarded.
pub fn limit_row_selection(selection: RowSelection, limit: usize) -> (r: RowSelection)
    requires
        selection.wf(),
    ensures
        r.wf(),
        r.total_rows() <= selection.total_rows(),
        limit == 0 ==> r@.len() == 0,
        expand_rows(r.rows(), selection.total_rows())
            == limit_rows(selection.rows(), limit as nat),
{
    let ghost rows = selection.rows();
    if limit == 0 {
        proof {
            assert(expand_rows(runs_rows(Seq::<RowSelector>::empty()), selection.total_rows())
                =~= limit_rows(rows, 0));
        }
        return RowSelection { selectors: Vec::new() };
    }
    let mut out: Vec<RowSelector> = Vec::new();
    let mut budget: usize = limit;
    let mut j: usize = 0;
    while j < selection.selectors.len()
        invariant
            selection.wf(),
            j <= selection@.len(),
            1 <= budget <= limit,
            out@ == selection@.take(j as int),
            count_true(runs_rows(selection@.take(j as int))) + budget == limit,
        ensures
            selection.wf(),
            j <= selection@.len(),
            1 <= budget <= limit,
            out@ == selection@.take(j as int),
            count_true(runs_rows(selection@.take(j as int))) + budget == limit,
            j == selection@.len()
                || (!selection@[j as int].skip && selection@[j as int].row_count >= budget),
        decreases selection@.len() - j,
    {
        let sel = selection.selectors[j];
        if !sel.skip && sel.row_count >= budget {
            break;
        }
        proof {
            assert(selection@.take(j + 1) =~= selection@.take(j as int).push(sel));
            lemma_runs_rows_push(selection@.take(j as int), sel);
            lemma_count_true_concat(runs_rows(selection@.take(j as int)), run_rows(sel));
            lemma_count_true_run(sel);
        }
        out.push(sel);
        if !sel.skip {
            budget = budget - sel.row_count;
        }
        j += 1;
    }
    if j == selection.selectors.len() {
        proof {
            assert(selection@.take(selection@.len() as int) =~= selection@);
            assert forall|i: int| 0 <= i < rows.len() implies
                expand_rows(rows, rows.len() as nat)[i] == limit_rows(rows, limit as nat)[i] by {
                if rows[i] {
                    lemma_count_true_take_step(rows, i);
                    lemma_count_true_take_monotonic(rows, i + 1, rows.len() as int);
                    assert(rows.take(rows.len() as int) =~= rows);
                }
            }
            assert(expand_rows(rows, rows.len() as nat) =~= limit_rows(rows, limit as nat));
        }
        return RowSelection { selectors: out };
    }
    let sel = selection.selectors[j];
    out.push(RowSelector { row_count: budget, skip: false });
    proof {
        lemma_runs_rows_decompose(selection@, j as int);
        let ca = runs_rows(selection@.take(j as int));
        let cb = run_rows(sel);
        lemma_runs_rows_push(
            selection@.take(j as int),
            RowSelector { row_count: budget, skip: false },
        );
        let rr = runs_rows(out@);
        assert(rr == ca + run_rows(RowSelector { row_count: budget, skip: false }));
        let start = ca.len() as int;
        let cnt = count_true(ca) as int;
        assert(rr.len() == start + budget);
        assert(rr.len() <= rows.len());
        assert forall|i: int| 0 <= i < rows.len() implies
            expand_rows(rr, rows.len())[i] == limit_rows(rows, limit as nat)[i] by {
            if i < start {
                assert(rows[i] == ca[i]);
                assert(rr[i] == ca[i]);
                if rows[i] {
                    lemma_count_true_take_step(rows, i);
                    assert(rows.take(i + 1) =~= ca.take(i + 1));
                    lemma_count_true_take_monotonic(ca, i + 1, start);
                    assert(ca.take(start) =~= ca);
                    assert(rows.take(i) =~= ca.take(i));
                    lemma_count_true_take_monotonic(ca, i, start);
                }
            } else if i < start + budget {
                assert(rows[i] == cb[i - start]);
                assert(rows[i]);
                assert(rr[i]);
                assert(rows.take(i) =~= ca + cb.take(i - start));
                lemma_count_true_concat(ca, cb.take(i - start));
                assert(cb.take(i - start) =~= all_true((i - start) as nat));
                lemma_count_all_true((i - start) as nat);
                assert(count_true(rows.take(i)) == cnt + i - start);
            } else {
                if rows[i] {
                    lemma_count_true_take_monotonic(rows, start + budget, i);
                    assert(rows.take(start + budget) =~= ca + cb.take(budget as int));
                    lemma_count_true_concat(ca, cb.take(budget as int));
                    assert(cb.take(budget as int) =~= all_true(budget as nat));
                    lemma_count_all_true(budget as nat);
                }
            }
        }
        assert(expand_rows(rr, rows.len()) =~= limit_rows(rows, limit as nat));
    }
    RowSelection { selectors: out }
}

impl RowSelection {
    /// Splits off the first `row_count` rows as their own selection, leaving
    /// the remainder behind: used to hand a cross-row-group selection to row
    /// groups one at a time.
    pub fn split_off(&mut self, row_count: usize) -> (r: RowSelection)
        requires
            old(self).wf(),
        ensures
            r.wf(),
            final(self).wf(),
            (row_count as nat) >= old(self).total_rows() ==> r.rows() == old(self).rows()
                && final(self).total_rows() == 0,
            (row_count as nat) < old(self).total_rows() ==> r.rows() == old(self).rows().take(
                row_count as int,
            ) && final(self).rows() == old(self).rows().skip(row_count as int),
    {
        let ghost rows = self.rows();
        let mut acc: usize = 0;
        let mut j: usize = 0;
        while j < self.selectors.len()
            invariant
                self.wf(),
                self == old(self),
                j <= self.selectors@.len(),
                acc == runs_rows(self.selectors@.take(j as int)).len(),
                acc <= row_count,
            ensures
                self.wf(),
                self == old(self),
                j <= self.selectors@.len(),
                acc == runs_rows(self.selectors@.take(j as int)).len(),
                acc <= row_count,
                j == self.selectors@.len()
                    || acc + self.selectors@[j as int].row_count > row_count,
            decreases self.selectors@.len() - j,
        {
            let sel = self.selectors[j];
            proof {
                assert(self.selectors@.take(j + 1) =~= self.selectors@.take(j as int).push(sel));
                lemma_runs_rows_push(self.selectors@.take(j as int), sel);
                lemma_runs_rows_take_le(self.selectors@, j + 1);
            }
            if acc + sel.row_count > row_count {
                break;
            }
            acc = acc + sel.row_count;
            j += 1;
        }
        let mut prefix: Vec<RowSelector> = Vec::new();
        let mut k: usize = 0;
        while k < j
            invariant
                k <= j,
                j <= self.selectors@.len(),
                self == old(self),
                prefix@ == self.selectors@.take(k as int),
            decreases j - k,
        {
            prefix.push(self.selectors[k]);
            proof {
                assert(self.selectors@.take(k + 1) =~= self.selectors@.take(k as int).push(
                    self.selectors@[k as int],
                ));
            }
            k += 1;
        }
        if j == self.selectors.len() {
            proof {
                assert(self.selectors@.take(self.selectors@.len() as int) =~= self.selectors@);
            }
            let r = RowSelection { selectors: prefix };
            self.selectors = Vec::new();
            return r;
        }
        let sel = self.selectors[j];
        let t = row_count - acc;
        let ghost pre_prefix = prefix@;
        prefix.push(RowSelector { row_count: t, skip: sel.skip });
        let mut rest: Vec<RowSelector> = Vec::new();
        rest.push(RowSelector { row_count: sel.row_count - t, skip: sel.skip });
        let mut k2 = j + 1;
        while k2 < self.selectors.len()
            invariant
                self == old(self),
                j < self.selectors@.len(),
                j + 1 <= k2 <= self.selectors@.len(),
                rest@ == seq![rest@[0]] + self.selectors@.subrange(j + 1, k2 as int),
                rest@[0] == (RowSelector {
                    row_count: (self.selectors@[j as int].row_count - t) as usize,
                    skip: self.selectors@[j as int].skip,
                }),
                t <= self.selectors@[j as int].row_count,
            decreases self.selectors@.len() - k2,
        {
            rest.push(self.selectors[k2]);
            proof {
                assert(rest@ =~= seq![rest@[0]] + self.selectors@.subrange(j + 1, k2 + 1));
            }
            k2 += 1;
        }
        proof {
            lemma_runs_rows_decompose(self.selectors@, j as int);
            let ca = runs_rows(self.selectors@.take(j as int));
            let cb = run_rows(sel);
            let cc = runs_rows(self.selectors@.skip(j + 1));
            assert(rows == ca + cb + cc);
            assert(ca.len() == acc);
            lemma_runs_rows_push(pre_prefix, RowSelector { row_count: t, skip: sel.skip });
            let pr = runs_rows(prefix@);
            assert(pr == ca + run_rows(RowSelector { row_count: t, skip: sel.skip }));
            assert(pr.len() == row_count);
            assert forall|i: int| 0 <= i < row_count implies pr[i] == rows[i] by {
                if i >= acc {
                    assert(pr[i] == !sel.skip);
                    assert(rows[i] == cb[i - acc]);
                }
            }
            assert(pr =~= rows.take(row_count as int));
            assert(self.selectors@.subrange(j + 1, self.selectors@.len() as int)
                =~= self.selectors@.skip(j + 1));
            assert(rest@ =~= seq![rest@[0]] + self.selectors@.skip(j + 1));
            lemma_runs_rows_concat(seq![rest@[0]], self.selectors@.skip(j + 1));
            lemma_runs_rows_singleton(rest@[0]);
            let rr = runs_rows(rest@);
            assert(rr == run_rows(rest@[0]) + cc);
            assert forall|i: int| 0 <= i < rr.len() implies rr[i] == rows[row_count + i] by {
                if i < sel.row_count - t {
                    assert(rr[i] == !sel.skip);
                    assert(rows[row_count + i] == cb[row_count + i - acc]);
                } else {
                    assert(rr[i] == cc[i - (sel.row_count - t)]);
                    assert(rows[row_count + i] == cc[row_count + i - acc - sel.row_count]);
                }
            }
            assert(rr =~= rows.skip(row_count as int));
        }
        let r = RowSelection { selectors: prefix };
        self.selectors = rest;
        r
    }
}

/// The pattern a row group starts from: the given selection padded to the
/// row count, or every row selected when no selection is given.
pub open spec fn base_rows(selection: Option<RowSelection>, row_count: nat) -> Seq<bool> {
    match selection {
        Some(s) => expand_rows(s.rows(), row_count),
        None => all_true(row_count),
    }
}

/// The pattern left after folding an optional offset, then an optional
/// limit, into a pattern.
pub open spec fn range_rows(s: Seq<bool>, offset: Option<usize>, limit: Option<usize>) -> Seq<bool> {
    let s1 = match offset {
        Some(o) => offset_rows(s, o as nat),
        None => s,
    };
    match limit {
        Some(l) => limit_rows(s1, l as nat),
        None => s1,
    }
}

/// Taking a prefix of a padded pattern that stays inside the original
/// pattern is taking the prefix of the original.
pub proof fn lemma_expand_take(s: Seq<bool>, n: nat, i: int)
    requires
        s.len() <= n,
        0 <= i <= s.len(),
    ensures
        expand_rows(s, n).take(i) == s.take(i),
        count_true(expand_rows(s, n).take(i)) == count_true(s.take(i)),
{
    assert(expand_rows(s, n).take(i) =~= s.take(i));
}

/// Folding an offset commutes with padding the pattern out to more rows.
pub proof fn lemma_offset_rows_expand(s: Seq<bool>, n: nat, k: nat)
    requires
        s.len() <= n,
    ensures
        offset_rows(expand_rows(s, n), k) == expand_rows(offset_rows(s, k), n),
{
    assert forall|i: int| 0 <= i < n implies
        offset_rows(expand_rows(s, n), k)[i] == expand_rows(offset_rows(s, k), n)[i] by {
        if i < s.len() {
            lemma_expand_take(s, n, i);
        }
    }
    assert(offset_rows(expand_rows(s, n), k) =~= expand_rows(offset_rows(s, k), n));
}

/// Folding a limit commutes with padding the pattern out to more rows.
pub proof fn lemma_limit_rows_expand(s: Seq<bool>, n: nat, k: nat)
    requires
        s.len() <= n,
    ensures
        limit_rows(expand_rows(s, n), k) == expand_rows(limit_rows(s, k), n),
{
    assert forall|i: int| 0 <= i < n implies
        limit_rows(expand_rows(s, n), k)[i] == expand_rows(limit_rows(s, k), n)[i] by {
        if i < s.len() {
            lemma_expand_take(s, n, i);
        }
    }
    assert(limit_rows(expand_rows(s, n), k) =~= expand_rows(limit_rows(s, k), n));
}

/// Padding twice pads once.
pub proof fn lemma_expand_expand(s: Seq<bool>, n1: nat, n2: nat)
    requires
        s.len() <= n1 <= n2,
    ensures
        expand_rows(expand_rows(s, n1), n2) == expand_rows(s, n2),
{
    assert(expand_rows(expand_rows(s, n1), n2) =~= expand_rows(s, n2));
}

/// Padding does not change how many rows are selected.
pub proof fn lemma_count_expand(s: Seq<bool>, n: nat)
    requires
        s.len() <= n,
    ensures
        count_true(expand_rows(s, n)) == count_true(s),
{
    assert(expand_rows(s, n) =~= s + all_false((n - s.len()) as nat));
    lemma_count_true_concat(s, all_false((n - s.len()) as nat));
    lemma_count_all_false((n - s.len()) as nat);
}

/// Folding an offset or a limit never selects a row the pattern did not
/// select, so it never increases the selected count.
pub proof fn lemma_range_rows_le(s: Seq<bool>, offset: Option<usize>, limit: Option<usize>)
    ensures
        range_rows(s, offset, limit).len() == s.len(),
        count_true(range_rows(s, offset, limit)) <= count_true(s),
{
    let s1 = match offset {
        Some(o) => offset_rows(s, o as nat),
        None => s,
    };
    lemma_count_true_pointwise_le(s1, s);
    lemma_count_true_pointwise_le(range_rows(s, offset, limit), s1);
}

/// When both an offset and a limit are folded in, at most `limit` rows stay
/// selected, and no more than remain after the offset alone.
pub proof fn lemma_apply_range_bound(s: Seq<bool>, offset: usize, limit: usize)
    ensures
        count_true(range_rows(s, Some(offset), Some(limit))) <= limit,
        count_true(range_rows(s, Some(offset), Some(limit)))
            <= count_true(offset_rows(s, offset as nat)),
{
    lemma_count_limit_rows(offset_rows(s, offset as nat), limit as nat);
}

/// Folding a limit keeps at most `limit` selected rows, whatever the pattern.
pub proof fn lemma_limit_rows_bound(s: Seq<bool>, limit: nat)
    ensures
        count_true(limit_rows(s, limit)) <= limit,
{
    lemma_count_limit_rows(s, limit);
}

/// Applies an optional offset, then an optional limit, to an optional
/// selection over a row group of `row_count` rows; an absent selection means
/// every row is selected. Returns an absent selection only when there was
/// nothing to fold in.
pub fn apply_range(
    selection: Option<RowSelection>,
    row_count: usize,
    offset: Option<usize>,
    limit: Option<usize>,
) -> (r: Option<RowSelection>)
    requires
        selection matches Some(s) ==> s.wf() && s.total_rows() <= row_count,
    ensures
        r is Some <==> (selection is Some || offset is Some || limit is Some),
        offset is None && limit is None ==> r == selection,
        r matches Some(rs) ==> rs.wf() && rs.total_rows() <= row_count
            && expand_rows(rs.rows(), row_count as nat)
                == range_rows(base_rows(selection, row_count as nat), offset, limit),
{
    let ghost base = base_rows(selection, row_count as nat);
    let mut sel = selection;
    if let Some(o) = offset {
        let stage = if o > row_count {
            proof {
                assert forall|i: int| 0 <= i < base.len() implies
                    !offset_rows(base, o as nat)[i] by {
                    lemma_count_true_le_len(base.take(i));
                }
                assert(expand_rows(runs_rows(Seq::<RowSelector>::empty()), row_count as nat)
                    =~= offset_rows(base, o as nat));
            }
            RowSelection { selectors: Vec::new() }
        } else {
            match sel {
                Some(s) => {
                    let ghost srows = s.rows();
                    let r1 = offset_row_selection(s, o);
                    proof {
                        lemma_offset_rows_expand(srows, row_count as nat, o as nat);
                        lemma_expand_expand(r1.rows(), srows.len(), row_count as nat);
                    }
                    r1
                }
                None => {
                    let mut v: Vec<RowSelector> = Vec::new();
                    v.push(RowSelector { row_count: o, skip: true });
                    v.push(RowSelector { row_count: row_count - o, skip: false });
                    proof {
                        let head = RowSelector { row_count: o, skip: true };
                        let mid = RowSelector { row_count: (row_count - o) as usize, skip: false };
                        assert(v@ =~= seq![head].push(mid));
                        lemma_runs_rows_push(seq![head], mid);
                        lemma_runs_rows_singleton(head);
                        let vr = runs_rows(v@);
                        assert(vr == run_rows(head) + run_rows(mid));
                        assert forall|i: int| 0 <= i < row_count implies
                            expand_rows(vr, row_count as nat)[i]
                                == offset_rows(base, o as nat)[i] by {
                            assert(base.take(i) =~= all_true(i as nat));
                            lemma_count_all_true(i as nat);
                        }
                        assert(expand_rows(vr, row_count as nat) =~= offset_rows(base, o as nat));
                    }
                    RowSelection { selectors: v }
                }
            }
        };
        sel = Some(stage);
    }
    if let Some(l) = limit {
        let stage = match sel {
            Some(s) => {
                let ghost srows = s.rows();
                let r2 = limit_row_selection(s, l);
                proof {
                    lemma_limit_rows_expand(srows, row_count as nat, l as nat);
                    lemma_expand_expand(r2.rows(), srows.len(), row_count as nat);
                }
                r2
            }
            None => {
                let m = if l < row_count { l } else { row_count };
                let mut v: Vec<RowSelector> = Vec::new();
                v.push(RowSelector { row_count: m, skip: false });
                proof {
                    let only = RowSelector { row_count: m, skip: false };
                    assert(v@ =~= seq![only]);
                    lemma_runs_rows_singleton(only);
                    assert forall|i: int| 0 <= i < row_count implies
                        expand_rows(runs_rows(v@), row_count as nat)[i]
                            == limit_rows(base, l as nat)[i] by {
                        assert(base.take(i) =~= all_true(i as nat));
                        lemma_count_all_true(i as nat);
                    }
                    assert(expand_rows(runs_rows(v@), row_count as nat)
                        =~= limit_rows(base, l as nat));
                }
                RowSelection { selectors: v }
            }
        };
        sel = Some(stage);
    }
    sel
}

} // verus!
