use vstd::prelude::*;
use std::collections::VecDeque;
use crate::buffer::{TtyBuffer, TTY_BUFFER_SIZE, TTY_BUFFER_THRESHOLD};
use crate::driver::drive;
use crate::event::{Event, InternalEvent};
use crate::parse::IncrementalParser;

verus! {

/// The single-threaded state behind a multiplexed event source: the reusable
/// terminal byte buffer and the FIFO queue of already-decoded events awaiting
/// delivery. The blocking wait, the reads and the signal handling live with
/// the caller; this state takes the bytes a read produced and hands back
/// decoded events, one per call.
pub struct InternalEventSource {
    /// Unresolved terminal bytes.
    pub buffer: TtyBuffer,
    /// Decoded events not yet delivered, oldest first.
    pub queue: VecDeque<InternalEvent>,
}

impl InternalEventSource {
    /// The source invariant: the byte buffer is well formed.
    pub open spec fn wf(self) -> bool {
        self.buffer.wf()
    }

    /// A fresh source: empty buffer, empty queue.
    pub fn new() -> (r: InternalEventSource)
        ensures
            r.wf(),
            r.queue@ == Seq::<InternalEvent>::empty(),
            r.buffer.pending_bytes() == Seq::<u8>::empty(),
            r.buffer.spec_free_len() == TTY_BUFFER_SIZE,
    {
        InternalEventSource { buffer: TtyBuffer::new(), queue: VecDeque::new() }
    }

    /// Delivers the oldest decoded event still queued from an earlier pass,
    /// if any; the queue keeps FIFO order.
    pub fn pop_pending(&mut self) -> (r: Option<InternalEvent>)
        ensures
            final(self).buffer == old(self).buffer,
            old(self).queue@.len() == 0 ==> r is None && final(self).queue@ == old(self).queue@,
            old(self).queue@.len() > 0 ==> r == Some(old(self).queue@[0]) && final(self).queue@
                == old(self).queue@.drop_first(),
    {
        self.queue.pop_front()
    }

    /// How many bytes the next read may hand to `advance`. Zero here means
    /// the buffer is exhausted without the parser having made progress; the
    /// composition root must treat that as a fatal defect, not read more.
    pub fn max_read_len(&self) -> (r: usize)
        requires
            self.wf(),
        ensures
            r == self.buffer.spec_free_len(),
    {
        self.buffer.free_len()
    }

    /// One full driver step for bytes just read from the terminal: append
    /// them after the unresolved bytes, run the incremental parser over the
    /// live region (with `more_available` saying whether the terminal
    /// reported further input already waiting), queue every decoded event,
    /// compact the buffer if the live region is near the end, and deliver the
    /// first queued event, if any.
    ///
    /// Exactly the events that `drive` ascribes to the old unresolved bytes
    /// followed by `new_bytes` are delivered (through the result and the
    /// queue, oldest first), and exactly the leftover `drive` ascribes stays
    /// buffered: compaction never loses or reorders unresolved bytes.
    pub fn advance<P: IncrementalParser>(
        &mut self,
        parser: &P,
        new_bytes: &[u8],
        more_available: bool,
    ) -> (r: Option<InternalEvent>)
        requires
            old(self).wf(),
            new_bytes@.len() <= old(self).buffer.spec_free_len(),
        ensures
            final(self).wf(),
            ({
                let d = drive(
                    *parser,
                    old(self).buffer.pending_bytes() + new_bytes@,
                    more_available,
                );
                let q = old(self).queue@ + d.0;
                &&& final(self).buffer.pending_bytes() == d.1
                &&& q.len() == 0 ==> r is None && final(self).queue@.len() == 0
                &&& q.len() > 0 ==> r == Some(q[0]) && final(self).queue@ == q.drop_first()
            }),
    {
        self.buffer.push_bytes(new_bytes);
        self.buffer.run_pass(parser, more_available, &mut self.queue);
        if self.buffer.head + TTY_BUFFER_THRESHOLD >= TTY_BUFFER_SIZE - 1 {
            self.buffer.compact();
        }
        self.queue.pop_front()
    }

    /// The event synthesized when the resize signal fires: the listener
    /// drains every queued occurrence of the signal and reports the terminal
    /// size measured at drain time, once.
    pub fn resize_event(columns: u16, rows: u16) -> (r: InternalEvent)
        ensures
            r == InternalEvent::Event(Event::Resize(columns, rows)),
    {
        InternalEvent::Event(Event::Resize(columns, rows))
    }

    /// The signal listener's decision once the queued signals have been
    /// drained: a resize event is owed exactly when the resize signal was
    /// among them — once, however many occurrences were queued, and carrying
    /// the size measured at drain time, which the listener queries only then.
    pub fn wants_resize(drained: &Vec<i32>, resize_signal: i32) -> (r: bool)
        ensures
            r == drained@.contains(resize_signal),
    {
        let mut k: usize = 0;
        while k < drained.len()
            invariant
                k <= drained.len(),
                forall|j: int| 0 <= j < k ==> #[trigger] drained@[j] != resize_signal,
            decreases drained.len() - k,
        {
            if drained[k] == resize_signal {
                return true;
            }
            k += 1;
        }
        proof {
            assert(!drained@.contains(resize_signal));
        }
        false
    }
}

} // verus!
