//! Decisions of the batch writer.
//!
//! The writer holds the rows it has received but not yet written. It is
//! driven by three events: a timer tick, an incoming row, and the closing of
//! the channel that delivers rows. For each event it says whether a batch is
//! to be written now, and whether it is done. Writing a batch is the caller's
//! work: the rows of a batch leave the buffer whether or not the write
//! succeeds.

use vstd::prelude::*;

use crate::models::{BatchConfig, PriceRow, PriceRowView};

verus! {

/// What the writer is told.
pub enum BatchEvent {
    /// The flush timer fired.
    Tick,
    /// A row arrived.
    Row(PriceRow),
    /// The row channel closed: no row will follow.
    Closed,
}

/// What the writer asks for in answer to an event.
pub enum BatchAction {
    /// Nothing to do.
    Wait,
    /// Write these rows, then keep going.
    Flush(Vec<PriceRow>),
    /// Write these rows, then stop.
    FlushAndStop(Vec<PriceRow>),
    /// Stop; nothing is left to write.
    Stop,
}

/// Mathematical content of a [`BatchEvent`].
pub enum BatchEventView {
    Tick,
    Row(PriceRowView),
    Closed,
}

/// Mathematical content of a [`BatchAction`].
pub enum BatchActionView {
    Wait,
    Flush(Seq<PriceRowView>),
    FlushAndStop(Seq<PriceRowView>),
    Stop,
}

pub open spec fn rows_view(rows: Seq<PriceRow>) -> Seq<PriceRowView> {
    rows.map_values(|r: PriceRow| r@)
}

impl View for BatchEvent {
    type V = BatchEventView;

    open spec fn view(&self) -> BatchEventView {
        match self {
            BatchEvent::Tick => BatchEventView::Tick,
            BatchEvent::Row(r) => BatchEventView::Row(r@),
            BatchEvent::Closed => BatchEventView::Closed,
        }
    }
}

impl View for BatchAction {
    type V = BatchActionView;

    open spec fn view(&self) -> BatchActionView {
        match self {
            BatchAction::Wait => BatchActionView::Wait,
            BatchAction::Flush(rows) => BatchActionView::Flush(rows_view(rows@)),
            BatchAction::FlushAndStop(rows) => BatchActionView::FlushAndStop(rows_view(rows@)),
            BatchAction::Stop => BatchActionView::Stop,
        }
    }
}

impl BatchActionView {
    /// The rows that this action hands out for writing.
    pub open spec fn flushed(self) -> Seq<PriceRowView> {
        match self {
            BatchActionView::Flush(rows) => rows,
            BatchActionView::FlushAndStop(rows) => rows,
            _ => Seq::empty(),
        }
    }

    /// Whether this action ends the writer.
    pub open spec fn stops(self) -> bool {
        match self {
            BatchActionView::FlushAndStop(_) => true,
            BatchActionView::Stop => true,
            _ => false,
        }
    }
}

/// One step of the writer: from the pending rows, the size limit and an
/// event, the pending rows afterwards and the action.
pub open spec fn batch_step(pending: Seq<PriceRowView>, max_size: nat, event: BatchEventView) -> (
    Seq<PriceRowView>,
    BatchActionView,
) {
    match event {
        BatchEventView::Tick => if pending.len() == 0 {
            (pending, BatchActionView::Wait)
        } else {
            (Seq::empty(), BatchActionView::Flush(pending))
        },
        BatchEventView::Row(row) => {
            let grown = pending.push(row);
            if grown.len() >= max_size {
                (Seq::empty(), BatchActionView::Flush(grown))
            } else {
                (grown, BatchActionView::Wait)
            }
        },
        BatchEventView::Closed => if pending.len() == 0 {
            (Seq::empty(), BatchActionView::Stop)
        } else {
            (Seq::empty(), BatchActionView::FlushAndStop(pending))
        },
    }
}

/// The rows that a sequence of events delivers, in order.
pub open spec fn delivered_rows(events: Seq<BatchEventView>) -> Seq<PriceRowView>
    decreases events.len(),
{
    if events.len() == 0 {
        Seq::empty()
    } else {
        let head = match events[0] {
            BatchEventView::Row(r) => seq![r],
            _ => Seq::empty(),
        };
        head + delivered_rows(events.drop_first())
    }
}

/// Running the writer over a sequence of events: the rows handed out for
/// writing, in order, and the pending rows at the end.
pub open spec fn batch_run(pending: Seq<PriceRowView>, max_size: nat, events: Seq<BatchEventView>) -> (
    Seq<PriceRowView>,
    Seq<PriceRowView>,
)
    decreases events.len(),
{
    if events.len() == 0 {
        (Seq::empty(), pending)
    } else {
        let (next, action) = batch_step(pending, max_size, events[0]);
        let (later, last) = batch_run(next, max_size, events.drop_first());
        (action.flushed() + later, last)
    }
}

/// The pending rows respect the size limit: either none are pending or fewer
/// than the limit.
pub open spec fn pending_within_limit(pending: Seq<PriceRowView>, max_size: nat) -> bool {
    pending.len() == 0 || pending.len() < max_size
}

/// Rows delivered to the writer are written exactly once and in the order
/// they arrived: whatever the events, the rows handed out for writing,
/// followed by those still pending, are the rows that were pending at the
/// start followed by the rows the events delivered.
pub proof fn lemma_rows_written_once_in_order(
    pending: Seq<PriceRowView>,
    max_size: nat,
    events: Seq<BatchEventView>,
)
    ensures
        batch_run(pending, max_size, events).0 + batch_run(pending, max_size, events).1 =~= pending
            + delivered_rows(events),
    decreases events.len(),
{
    if events.len() > 0 {
        let (next, action) = batch_step(pending, max_size, events[0]);
        lemma_rows_written_once_in_order(next, max_size, events.drop_first());
        assert(action.flushed() + next =~= pending + match events[0] {
            BatchEventView::Row(r) => seq![r],
            _ => Seq::empty(),
        });
    }
}

/// The size limit is kept by every step, and every batch handed out holds at
/// least one row and at most the limit (at most one row when the limit is 0).
pub proof fn lemma_step_keeps_limit(pending: Seq<PriceRowView>, max_size: nat, event: BatchEventView)
    requires
        pending_within_limit(pending, max_size),
    ensures
        pending_within_limit(batch_step(pending, max_size, event).0, max_size),
        batch_step(pending, max_size, event).1 is Flush ==> 1 <= batch_step(
            pending,
            max_size,
            event,
        ).1.flushed().len() <= if max_size == 0 {
            1
        } else {
            max_size
        },
        batch_step(pending, max_size, event).1 is FlushAndStop ==> 1 <= batch_step(
            pending,
            max_size,
            event,
        ).1.flushed().len() < max_size,
{
}

/// Once the channel has closed, nothing is left pending, and the rows that
/// were pending are all handed out in the same step.
pub proof fn lemma_close_drains(pending: Seq<PriceRowView>, max_size: nat)
    ensures
        batch_step(pending, max_size, BatchEventView::Closed).0.len() == 0,
        batch_step(pending, max_size, BatchEventView::Closed).1.flushed() == pending,
        batch_step(pending, max_size, BatchEventView::Closed).1.stops(),
{
}

/// What each event does, in terms of the pending rows alone: a tick hands
/// out every pending row (or waits when there is none); a row is appended,
/// and the grown buffer is handed out whole once it reaches the limit; the
/// closing of the channel hands out every pending row and stops. In every
/// case the rows handed out followed by those still pending are the rows
/// pending before followed by the row delivered, if any.
pub proof fn lemma_each_event_does_its_job(pending: Seq<PriceRowView>, max_size: nat, event: BatchEventView)
    ensures
        ({
            let (next, action) = batch_step(pending, max_size, event);
            &&& action.flushed() + next =~= pending + match event {
                BatchEventView::Row(r) => seq![r],
                _ => Seq::empty(),
            }
            &&& event is Tick && pending.len() > 0 ==> action == BatchActionView::Flush(pending)
                && next.len() == 0
            &&& event is Tick && pending.len() == 0 ==> action is Wait && next.len() == 0
            &&& event matches BatchEventView::Row(r) ==> if pending.len() + 1 >= max_size {
                action == BatchActionView::Flush(pending.push(r)) && next.len() == 0
            } else {
                action is Wait && next == pending.push(r)
            }
            &&& event is Closed ==> action.stops() && action.flushed() == pending && next.len()
                == 0
        }),
{
}

/// The batch writer's buffer and its size limit.
pub struct BatchWriter {
    buffer: Vec<PriceRow>,
    max_size: usize,
}

impl BatchWriter {
    /// The rows received and not yet handed out, in arrival order.
    pub closed spec fn pending(&self) -> Seq<PriceRowView> {
        rows_view(self.buffer@)
    }

    /// The number of rows at which a batch is written at once.
    pub closed spec fn limit(&self) -> nat {
        self.max_size as nat
    }

    /// Well-formedness: the pending rows respect the size limit.
    pub open spec fn wf(&self) -> bool {
        pending_within_limit(self.pending(), self.limit())
    }

    /// A writer with nothing pending, with the limit of `config`.
    pub fn new(config: &BatchConfig) -> (w: BatchWriter)
        ensures
            w.wf(),
            w.pending() == Seq::<PriceRowView>::empty(),
            w.limit() == config.max_size,
    {
        let w = BatchWriter { buffer: Vec::with_capacity(config.max_size), max_size: config.max_size };
        assert(w.pending() =~= Seq::<PriceRowView>::empty());
        w
    }

    /// Number of rows pending.
    pub fn pending_len(&self) -> (n: usize)
        ensures
            n == self.pending().len(),
    {
        self.buffer.len()
    }

    /// Takes every pending row out of the buffer, in order.
    fn take_all(&mut self) -> (rows: Vec<PriceRow>)
        ensures
            rows@ == old(self).buffer@,
            final(self).buffer@ == Seq::<PriceRow>::empty(),
            final(self).max_size == old(self).max_size,
    {
        let mut rows = Vec::new();
        std::mem::swap(&mut rows, &mut self.buffer);
        rows
    }

    /// Answers one event: a tick writes whatever is pending; a row is added,
    /// and when the pending rows reach the limit they are written; the
    /// closing of the channel writes what is pending and ends the writer.
    pub fn handle(&mut self, event: BatchEvent) -> (action: BatchAction)
        requires
            old(self).wf(),
        ensures
            final(self).wf(),
            final(self).limit() == old(self).limit(),
            (final(self).pending(), action@) == batch_step(
                old(self).pending(),
                old(self).limit(),
                event@,
            ),
            action@.flushed() + final(self).pending() == old(self).pending() + match event@ {
                BatchEventView::Row(r) => seq![r],
                _ => Seq::empty(),
            },
            event@ is Tick && old(self).pending().len() > 0 ==> action@ == BatchActionView::Flush(
                old(self).pending(),
            ) && final(self).pending().len() == 0,
            event@ is Tick && old(self).pending().len() == 0 ==> action@ is Wait
                && final(self).pending().len() == 0,
            event@ matches BatchEventView::Row(r) ==> if old(self).pending().len() + 1 >= old(
                self,
            ).limit() {
                action@ == BatchActionView::Flush(old(self).pending().push(r))
                    && final(self).pending().len() == 0
            } else {
                action@ is Wait && final(self).pending() == old(self).pending().push(r)
            },
            event@ is Closed ==> action@.stops() && action@.flushed() == old(self).pending()
                && final(self).pending().len() == 0,
    {
        proof {
            lemma_each_event_does_its_job(self.pending(), self.limit(), event@);
        }
        proof {
            lemma_step_keeps_limit(self.pending(), self.limit(), event@);
        }
        match event {
            BatchEvent::Tick => {
                if self.buffer.len() == 0 {
                    BatchAction::Wait
                } else {
                    let rows = self.take_all();
                    assert(self.pending() =~= Seq::<PriceRowView>::empty());
                    BatchAction::Flush(rows)
                }
            },
            BatchEvent::Row(row) => {
                let ghost before = self.buffer@;
                self.buffer.push(row);
                assert(rows_view(self.buffer@) =~= rows_view(before).push(row@));
                if self.buffer.len() >= self.max_size {
                    let rows = self.take_all();
                    assert(self.pending() =~= Seq::<PriceRowView>::empty());
                    BatchAction::Flush(rows)
                } else {
                    BatchAction::Wait
                }
            },
            BatchEvent::Closed => {
                if self.buffer.len() == 0 {
                    assert(self.pending() =~= Seq::<PriceRowView>::empty());
                    BatchAction::Stop
                } else {
                    let rows = self.take_all();
                    assert(self.pending() =~= Seq::<PriceRowView>::empty());
                    BatchAction::FlushAndStop(rows)
                }
            },
        }
    }
}

} // verus!
