//! The pull-based stream state machine over row groups.
//!
//! The stream owns a queue of row-group indices and an optional
//! cross-row-group selection. Each poll either starts the asynchronous
//! read of the next row group, reacts to a finished read, or pulls from
//! the row group being decoded. The machine here decides every
//! transition; performing the read and the decode is the surrounding
//! code's job, which reports back what happened.

use vstd::prelude::*;

use crate::selection::RowSelection;

verus! {

/// Where the stream stands between two polls.
#[derive(Clone, Copy, Debug, PartialEq, Eq, Structural)]
pub enum StreamState {
    /// At the start of a new row group, or at the end of the stream.
    Init,
    /// An asynchronous row-group read is in flight.
    Reading,
    /// A row group's batches are being decoded.
    Decoding,
    /// A terminal error was emitted; nothing follows, not even the error
    /// again.
    Error,
}

/// What the stream asks its surroundings to do after an `Init` poll.
pub enum InitStep {
    /// No queued row groups remain: the stream ends.
    Finished,
    /// Start the asynchronous read of this row group, with the part of the
    /// cross-row-group selection that belongs to it.
    StartRead { row_group_idx: usize, selection: Option<RowSelection> },
}

/// What the in-flight read reported.
pub enum ReadOutcome {
    /// The read failed; the error becomes the stream's last item.
    Failed,
    /// The row group was filtered out entirely; nothing to decode.
    NoRows,
    /// The row group produced a batch decoder.
    HasRows,
}

/// What one decode pull reported.
pub enum DecodeOutcome {
    /// A batch was produced.
    Batch,
    /// The row group is exhausted.
    Exhausted,
    /// Decoding failed; the error becomes the stream's last item.
    Failed,
}

/// What the stream hands its consumer after a transition.
#[derive(Clone, Copy, Debug, PartialEq, Eq, Structural)]
pub enum StreamEmit {
    /// Yield the decoded batch.
    EmitBatch,
    /// Yield the error, then end the stream.
    EmitError,
    /// Nothing to yield; poll again.
    Continue,
}

/// The verified core of the record batch stream: the row-group queue, the
/// cross-row-group selection, and the state the next poll dispatches on.
pub struct StreamDriver {
    /// Queued row-group indices, consumed front to back.
    pub row_groups: Vec<usize>,
    /// How many of `row_groups` were already started.
    pub next_group: usize,
    /// Row count of each row group of the file, indexed by row-group index.
    pub row_counts: Vec<usize>,
    /// What is left of the cross-row-group selection.
    pub selection: Option<RowSelection>,
    /// Where the stream stands.
    pub state: StreamState,
}

impl StreamDriver {
    /// Every queued row group has a row count, and the selection is sound.
    pub open spec fn wf(self) -> bool {
        &&& self.next_group <= self.row_groups@.len()
        &&& forall|i: int| self.next_group <= i < self.row_groups@.len()
            ==> (#[trigger] self.row_groups@[i]) < self.row_counts@.len()
        &&& (self.selection matches Some(s) ==> s.wf())
    }

    /// A fresh stream over the given row groups, ready for its first poll.
    pub fn new(
        row_groups: Vec<usize>,
        row_counts: Vec<usize>,
        selection: Option<RowSelection>,
    ) -> (d: StreamDriver)
        requires
            forall|i: int| 0 <= i < row_groups@.len()
                ==> (#[trigger] row_groups@[i]) < row_counts@.len(),
            selection matches Some(s) ==> s.wf(),
        ensures
            d.wf(),
            d.state is Init,
            d.next_group == 0,
            d.row_groups@ == row_groups@,
            d.row_counts@ == row_counts@,
            d.selection == selection,
    {
        StreamDriver { row_groups, next_group: 0, row_counts, selection, state: StreamState::Init }
    }

    /// Polls in `Init`: either the queue is exhausted and the stream ends,
    /// or the next row group is popped, the leading part of the
    /// cross-row-group selection is split off for it, and a read starts.
    pub fn poll_init(&mut self) -> (a: InitStep)
        requires
            old(self).wf(),
            old(self).state is Init,
        ensures
            final(self).wf(),
            final(self).row_groups@ == old(self).row_groups@,
            final(self).row_counts@ == old(self).row_counts@,
            old(self).next_group == old(self).row_groups@.len() ==> a is Finished
                && *final(self) == *old(self),
            old(self).next_group < old(self).row_groups@.len() ==> {
                let idx = old(self).row_groups@[old(self).next_group as int];
                let rc = old(self).row_counts@[idx as int];
                &&& final(self).state is Reading
                &&& final(self).next_group == old(self).next_group + 1
                &&& a matches InitStep::StartRead { row_group_idx, selection }
                &&& (a matches InitStep::StartRead { row_group_idx, selection } ==> {
                    &&& row_group_idx == idx
                    &&& match old(self).selection {
                        None => selection is None && final(self).selection is None,
                        Some(s) => {
                            &&& selection matches Some(p) && p.rows() == (
                                if rc as nat >= s.total_rows() {
                                    s.rows()
                                } else {
                                    s.rows().take(rc as int)
                                })
                            &&& final(self).selection matches Some(q) && q.rows() == (
                                if rc as nat >= s.total_rows() {
                                    Seq::<bool>::empty()
                                } else {
                                    s.rows().skip(rc as int)
                                })
                        },
                    }
                })
            },
    {
        if self.next_group == self.row_groups.len() {
            return InitStep::Finished;
        }
        let row_group_idx = self.row_groups[self.next_group];
        self.next_group = self.next_group + 1;
        let rc = self.row_counts[row_group_idx];
        let split = match &mut self.selection {
            None => None,
            Some(s) => {
                let ghost pre = *s;
                let p = s.split_off(rc);
                proof {
                    if rc as nat >= pre.total_rows() {
                        assert(p.rows() == pre.rows());
                    }
                }
                Some(p)
            }
        };
        self.state = StreamState::Reading;
        InitStep::StartRead { row_group_idx, selection: split }
    }

    /// Reacts in `Reading` to the finished read: a failure is emitted once
    /// and ends the stream; an empty row group goes back to `Init`; a
    /// decoder moves to `Decoding`.
    pub fn on_read(&mut self, outcome: ReadOutcome) -> (e: StreamEmit)
        requires
            old(self).wf(),
            old(self).state is Reading,
        ensures
            final(self).wf(),
            final(self).row_groups@ == old(self).row_groups@,
            final(self).row_counts@ == old(self).row_counts@,
            final(self).next_group == old(self).next_group,
            final(self).selection == old(self).selection,
            outcome is Failed ==> final(self).state is Error && e is EmitError,
            outcome is NoRows ==> final(self).state is Init && e is Continue,
            outcome is HasRows ==> final(self).state is Decoding && e is Continue,
    {
        match outcome {
            ReadOutcome::Failed => {
                self.state = StreamState::Error;
                StreamEmit::EmitError
            }
            ReadOutcome::NoRows => {
                self.state = StreamState::Init;
                StreamEmit::Continue
            }
            ReadOutcome::HasRows => {
                self.state = StreamState::Decoding;
                StreamEmit::Continue
            }
        }
    }

    /// Reacts in `Decoding` to one decode pull: a batch is emitted and
    /// decoding goes on; exhaustion returns to `Init` for the next row
    /// group; a failure is emitted once and ends the stream.
    pub fn on_decode(&mut self, outcome: DecodeOutcome) -> (e: StreamEmit)
        requires
            old(self).wf(),
            old(self).state is Decoding,
        ensures
            final(self).wf(),
            final(self).row_groups@ == old(self).row_groups@,
            final(self).row_counts@ == old(self).row_counts@,
            final(self).next_group == old(self).next_group,
            final(self).selection == old(self).selection,
            outcome is Batch ==> final(self).state is Decoding && e is EmitBatch,
            outcome is Exhausted ==> final(self).state is Init && e is Continue,
            outcome is Failed ==> final(self).state is Error && e is EmitError,
    {
        match outcome {
            DecodeOutcome::Batch => StreamEmit::EmitBatch,
            DecodeOutcome::Exhausted => {
                self.state = StreamState::Init;
                StreamEmit::Continue
            }
            DecodeOutcome::Failed => {
                self.state = StreamState::Error;
                StreamEmit::EmitError
            }
        }
    }

    /// Whether the stream is over: a terminal error was reached, or the
    /// queue is exhausted with nothing being read or decoded. In either
    /// case a poll yields no further item.
    pub fn is_terminated(&self) -> (r: bool)
        ensures
            r == (self.state is Error || (self.state is Init
                && self.next_group >= self.row_groups@.len())),
    {
        match self.state {
            StreamState::Error => true,
            StreamState::Init => self.next_group >= self.row_groups.len(),
            _ => false,
        }
    }
}

} // verus!
