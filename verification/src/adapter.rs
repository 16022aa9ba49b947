//! The pull-based batch decode adapter.
//!
//! Wraps a trimmed selection and a batch size into a synchronous pull
//! iterator: each pull yields the row ranges to skip and to read, in
//! order, drawing decoded rows until the batch is full or the selection
//! is exhausted. The adapter itself never touches bytes; the surrounding
//! decoder executes the plan it produces.

use vstd::prelude::*;

use crate::selection::RowSelection;
use crate::selection::RowSelector;
use crate::selection::count_true;
use crate::selection::expand_rows;
use crate::selection::lemma_count_true_concat;
use crate::selection::lemma_count_true_run;
use crate::selection::lemma_runs_rows_concat;
use crate::selection::lemma_runs_rows_push;
use crate::selection::lemma_runs_rows_singleton;
use crate::selection::lemma_trim_preserves_rows;
use crate::selection::lemma_trim_spec_len;
use crate::selection::run_rows;
use crate::selection::runs_rows;
use crate::selection::trim_row_selection;
use crate::selection::trim_spec;

verus! {

/// A pull iterator of decode plans over one row group's trimmed selection.
pub struct BatchDecodeAdapter {
    /// How many decoded rows one pull may draw.
    pub batch_size: usize,
    /// The trimmed selection's runs; consumed from `pos` on.
    pub selectors: Vec<RowSelector>,
    /// The first run not yet consumed.
    pub pos: usize,
    /// Built without a selection: every pull reads a full batch until the
    /// decoder itself runs dry.
    pub unlimited: bool,
}

impl BatchDecodeAdapter {
    /// The per-row pattern not yet consumed.
    pub open spec fn remaining(self) -> Seq<bool> {
        runs_rows(self.selectors@.skip(self.pos as int))
    }

    pub open spec fn wf(self) -> bool {
        &&& self.pos <= self.selectors@.len()
        &&& self.batch_size >= 1
        &&& self.remaining().len() <= usize::MAX
    }

    /// Wraps a selection (absent: every row) and a batch size; the
    /// selection is trimmed first, which changes no row's fate.
    pub fn new(batch_size: usize, selection: Option<RowSelection>) -> (a: BatchDecodeAdapter)
        requires
            batch_size >= 1,
            selection matches Some(s) ==> s.wf(),
        ensures
            a.wf(),
            a.batch_size == batch_size,
            a.pos == 0,
            match selection {
                None => a.unlimited,
                Some(s) => !a.unlimited && a.selectors@ == trim_spec(s@) && expand_rows(
                    a.remaining(),
                    s.total_rows(),
                ) == expand_rows(s.rows(), s.total_rows()),
            },
    {
        match selection {
            None => BatchDecodeAdapter {
                batch_size,
                selectors: Vec::new(),
                pos: 0,
                unlimited: true,
            },
            Some(s) => {
                let ghost pre = s;
                let t = trim_row_selection(s);
                proof {
                    lemma_trim_spec_len(pre@);
                    lemma_trim_preserves_rows(pre@, pre.total_rows());
                    assert(t.selectors@.skip(0) =~= t.selectors@);
                }
                BatchDecodeAdapter { batch_size, selectors: t.selectors, pos: 0, unlimited: false }
            }
        }
    }

    /// Whether another pull can draw at least one row.
    pub fn has_more(&self) -> (r: bool)
        requires
            self.wf(),
            !self.unlimited,
        ensures
            r == (count_true(self.remaining()) > 0),
    {
        let mut j: usize = self.pos;
        while j < self.selectors.len()
            invariant
                self.pos <= j <= self.selectors@.len(),
                count_true(runs_rows(self.selectors@.subrange(self.pos as int, j as int))) == 0,
            decreases self.selectors@.len() - j,
        {
            let sel = self.selectors[j];
            proof {
                assert(self.selectors@.subrange(self.pos as int, j + 1)
                    =~= self.selectors@.subrange(self.pos as int, j as int).push(sel));
                lemma_runs_rows_push(self.selectors@.subrange(self.pos as int, j as int), sel);
                lemma_count_true_concat(
                    runs_rows(self.selectors@.subrange(self.pos as int, j as int)),
                    run_rows(sel),
                );
                lemma_count_true_run(sel);
                assert(self.selectors@.skip(self.pos as int)
                    =~= self.selectors@.subrange(self.pos as int, j + 1)
                    + self.selectors@.skip(j + 1));
                lemma_runs_rows_concat(
                    self.selectors@.subrange(self.pos as int, j + 1),
                    self.selectors@.skip(j + 1),
                );
                lemma_count_true_concat(
                    runs_rows(self.selectors@.subrange(self.pos as int, j + 1)),
                    runs_rows(self.selectors@.skip(j + 1)),
                );
            }
            if !sel.skip && sel.row_count > 0 {
                return true;
            }
            j += 1;
        }
        proof {
            assert(self.selectors@.subrange(self.pos as int, self.selectors@.len() as int)
                =~= self.selectors@.skip(self.pos as int));
        }
        false
    }

    /// Plans one pull: the returned runs say, in order, how many rows to
    /// skip and how many to read. They consume a prefix of the remaining
    /// pattern and read exactly `min(batch_size, remaining selected)` rows.
    #[verifier::rlimit(50)]
    pub fn next_ops(&mut self) -> (ops: Vec<RowSelector>)
        requires
            old(self).wf(),
            !old(self).unlimited,
        ensures
            final(self).wf(),
            !final(self).unlimited,
            final(self).batch_size == old(self).batch_size,
            runs_rows(ops@) == old(self).remaining().take(runs_rows(ops@).len() as int),
            final(self).remaining() == old(self).remaining().skip(runs_rows(ops@).len() as int),
            count_true(runs_rows(ops@)) == (
                if old(self).batch_size as nat <= count_true(old(self).remaining()) {
                    old(self).batch_size as nat
                } else {
                    count_true(old(self).remaining())
                }),
    {
        let ghost orig = self.remaining();
        let mut ops: Vec<RowSelector> = Vec::new();
        let mut read: usize = 0;
        while read < self.batch_size && self.pos < self.selectors.len()
            invariant
                self.wf(),
                !self.unlimited,
                self.batch_size == old(self).batch_size,
                read <= self.batch_size,
                runs_rows(ops@).len() <= orig.len(),
                runs_rows(ops@) == orig.take(runs_rows(ops@).len() as int),
                self.remaining() == orig.skip(runs_rows(ops@).len() as int),
                count_true(runs_rows(ops@)) == read,
            ensures
                self.wf(),
                !self.unlimited,
                self.batch_size == old(self).batch_size,
                read <= self.batch_size,
                runs_rows(ops@).len() <= orig.len(),
                runs_rows(ops@) == orig.take(runs_rows(ops@).len() as int),
                self.remaining() == orig.skip(runs_rows(ops@).len() as int),
                count_true(runs_rows(ops@)) == read,
                read == self.batch_size || self.pos == self.selectors@.len(),
            decreases self.selectors@.len() - self.pos, self.batch_size - read,
        {
            let front = self.selectors[self.pos];
            let ghost consumed = runs_rows(ops@).len();
            let ghost rem = self.remaining();
            proof {
                assert(self.selectors@.skip(self.pos as int)
                    =~= seq![front] + self.selectors@.skip(self.pos + 1));
                lemma_runs_rows_concat(seq![front], self.selectors@.skip(self.pos + 1));
                lemma_runs_rows_singleton(front);
                lemma_count_true_run(front);
                lemma_count_true_concat(runs_rows(ops@), run_rows(front));
            }
            let ghost pre_ops = ops@;
            if front.skip || front.row_count <= self.batch_size - read {
                ops.push(front);
                self.pos = self.pos + 1;
                if !front.skip {
                    read = read + front.row_count;
                }
                proof {
                    lemma_runs_rows_push(pre_ops, front);
                    assert(rem.take(front.row_count as int) =~= run_rows(front));
                    assert(orig.take(consumed + front.row_count)
                        =~= orig.take(consumed as int) + rem.take(front.row_count as int));
                    assert(runs_rows(ops@) =~= orig.take(consumed + front.row_count));
                    assert(self.remaining() =~= rem.skip(front.row_count as int));
                    assert(rem.skip(front.row_count as int)
                        =~= orig.skip(consumed + front.row_count));
                }
            } else {
                let avail = self.batch_size - read;
                ops.push(RowSelector { row_count: avail, skip: false });
                let ghost pre = self.selectors@;
                let shrunk = RowSelector { row_count: front.row_count - avail, skip: false };
                let p = self.pos;
                self.selectors.set(p, shrunk);
                read = self.batch_size;
                proof {
                    let piece = RowSelector { row_count: avail, skip: false };
                    lemma_runs_rows_push(pre_ops, piece);
                    lemma_count_true_run(piece);
                    lemma_count_true_concat(runs_rows(pre_ops), run_rows(piece));
                    assert(run_rows(piece) =~= rem.take(avail as int));
                    assert(orig.take(consumed + avail)
                        =~= orig.take(consumed as int) + rem.take(avail as int));
                    assert(runs_rows(ops@) =~= orig.take(consumed + avail));
                    assert(self.selectors@.skip(self.pos as int)
                        =~= seq![shrunk] + pre.skip(self.pos + 1));
                    lemma_runs_rows_concat(seq![shrunk], pre.skip(self.pos + 1));
                    lemma_runs_rows_singleton(shrunk);
                    assert(run_rows(shrunk) =~= run_rows(front).skip(avail as int));
                    assert(self.remaining() =~= rem.skip(avail as int));
                    assert(rem.skip(avail as int) =~= orig.skip(consumed + avail));
                }
            }
        }
        proof {
            let consumed = runs_rows(ops@).len();
            if self.pos == self.selectors@.len() {
                assert(self.selectors@.skip(self.pos as int)
                    =~= Seq::<RowSelector>::empty());
                assert(orig =~= orig.take(consumed as int) + orig.skip(consumed as int));
                lemma_count_true_concat(orig.take(consumed as int), orig.skip(consumed as int));
            } else {
                assert(read == self.batch_size);
                assert(orig =~= orig.take(consumed as int) + orig.skip(consumed as int));
                lemma_count_true_concat(orig.take(consumed as int), orig.skip(consumed as int));
            }
        }
        ops
    }
}

} // verus!
