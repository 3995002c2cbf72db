//! The client-side access pool consumer: an in-process batching buffer with
//! size- and time-triggered flushes, failure retention, and a shutdown
//! drain.
//!
//! The consumer sits behind an unbounded queue. Each round it wakes on one
//! event — a periodic tick, a batch read from the queue, or a shutdown
//! signal — decides whether to attempt a flush, and on queue close or
//! shutdown moves to the drain. The surrounding task (timers, the queue and
//! the HTTP client) reports every flush outcome back through
//! [`PoolConsumer::apply_flush_result`]; a failed attempt keeps every
//! record for a later retry.

use vstd::prelude::*;
use crate::access::Access;
use crate::wire::{access_array_json, access_views, encode_accesses};

verus! {

/// Buffer capacity; reaching it triggers an immediate flush.
pub const FLUSH_THRESHOLD: usize = 1024;

/// What the consumer wakes on in one round.
pub enum PoolEvent {
    /// The periodic (10 s) timer fired.
    Tick,
    /// A batch was read from the queue; an empty batch means the queue is
    /// closed.
    Batch(Vec<Access>),
    /// The process is being interrupted.
    Shutdown,
}

/// What the surrounding task must do after a round.
#[derive(Clone, Copy, PartialEq, Eq, Structural, Debug)]
pub enum PoolDirective {
    /// Attempt a flush now.
    Flush,
    /// Wait for the next event.
    Continue,
    /// Leave the loop and drain the buffer.
    Drain,
}

/// The buffer contents after one flush attempt: a delivered flush clears
/// the buffer, a failed one retains every record.
pub open spec fn buffer_after_flush(buf: Seq<Access>, delivered: bool) -> Seq<Access> {
    if delivered { Seq::empty() } else { buf }
}

/// The buffer contents after a drain whose successive attempts had the
/// given outcomes.
pub open spec fn drain_result(buf: Seq<Access>, outcomes: Seq<bool>) -> Seq<Access>
    decreases outcomes.len(),
{
    if outcomes.len() == 0 {
        buf
    } else {
        drain_result(buffer_after_flush(buf, outcomes[0]), outcomes.drop_first())
    }
}

/// The state of the pool's single consumer: its flush buffer.
pub struct PoolConsumer {
    /// Records taken from the queue and not yet delivered.
    pub buf: Vec<Access>,
}

impl PoolConsumer {
    /// The buffer never grows past the flush threshold.
    pub open spec fn wf(self) -> bool {
        self.buf@.len() <= FLUSH_THRESHOLD
    }

    /// A fresh consumer with an empty buffer.
    pub fn new() -> (r: Self)
        ensures
            r.buf@.len() == 0,
            r.wf(),
    {
        PoolConsumer { buf: Vec::new() }
    }

    /// How many records may be read from the queue this round: the room
    /// left under the threshold.
    pub fn recv_capacity(&self) -> (n: usize)
        ensures
            n == FLUSH_THRESHOLD - self.buf@.len() || (self.buf@.len() > FLUSH_THRESHOLD && n == 0),
    {
        if self.buf.len() >= FLUSH_THRESHOLD {
            0
        } else {
            FLUSH_THRESHOLD - self.buf.len()
        }
    }

    /// One round of the consumer loop, on the event that woke it.
    ///
    /// A tick always attempts a flush (which is a no-op on an empty
    /// buffer). A non-empty batch is appended whole, in order, and
    /// triggers a flush exactly when the buffer reaches the threshold. An
    /// empty batch means the queue closed; it and a shutdown signal leave
    /// the buffer untouched and move to the drain.
    pub fn step(&mut self, event: PoolEvent) -> (d: PoolDirective)
        requires
            old(self).wf(),
            event matches PoolEvent::Batch(b) ==> old(self).buf@.len() + b@.len()
                <= FLUSH_THRESHOLD,
        ensures
            final(self).wf(),
            match event {
                PoolEvent::Tick => final(self).buf@ == old(self).buf@ && d is Flush,
                PoolEvent::Batch(b) => if b@.len() == 0 {
                    final(self).buf@ == old(self).buf@ && d is Drain
                } else {
                    &&& final(self).buf@ == old(self).buf@ + b@
                    &&& (d is Flush <==> final(self).buf@.len() >= FLUSH_THRESHOLD)
                    &&& (d is Flush || d is Continue)
                },
                PoolEvent::Shutdown => final(self).buf@ == old(self).buf@ && d is Drain,
            },
    {
        match event {
            PoolEvent::Tick => PoolDirective::Flush,
            PoolEvent::Batch(mut b) => {
                if b.is_empty() {
                    PoolDirective::Drain
                } else {
                    self.buf.append(&mut b);
                    if self.buf.len() >= FLUSH_THRESHOLD {
                        PoolDirective::Flush
                    } else {
                        PoolDirective::Continue
                    }
                }
            }
            PoolEvent::Shutdown => PoolDirective::Drain,
        }
    }

    /// The body of one flush attempt: `None` — and no HTTP request — when
    /// the buffer is empty, otherwise the JSON array of exactly the
    /// buffered records, in order.
    pub fn flush_payload(&self) -> (r: Option<String>)
        ensures
            r is None <==> self.buf@.len() == 0,
            r matches Some(body) ==> body@ == access_array_json(access_views(self.buf@)),
    {
        if self.buf.is_empty() {
            None
        } else {
            Some(encode_accesses(&self.buf))
        }
    }

    /// Records the outcome of the flush attempt: delivery (a 2xx reply)
    /// clears the buffer — the only path that discards records — while any
    /// failure retains every record for the next trigger.
    pub fn apply_flush_result(&mut self, delivered: bool)
        requires
            old(self).wf(),
        ensures
            final(self).buf@ == buffer_after_flush(old(self).buf@, delivered),
            final(self).wf(),
    {
        if delivered {
            self.buf.truncate(0);
            proof {
                assert(self.buf@ =~= Seq::<Access>::empty());
            }
        }
    }

    /// Whether the drain after queue close still has work.
    pub fn drain_pending(&self) -> (r: bool)
        ensures
            r <==> self.buf@.len() > 0,
    {
        !self.buf.is_empty()
    }
}

/// A drain leaves the buffer empty exactly when some attempt succeeded;
/// until then each failed attempt retains every record unchanged, so a
/// record is never silently discarded.
pub proof fn lemma_drain(buf: Seq<Access>, outcomes: Seq<bool>)
    ensures
        (exists|i: int| 0 <= i < outcomes.len() && outcomes[i]) ==> drain_result(
            buf,
            outcomes,
        ).len() == 0,
        !(exists|i: int| 0 <= i < outcomes.len() && outcomes[i]) ==> drain_result(buf, outcomes)
            == buf,
    decreases outcomes.len(),
{
    if outcomes.len() > 0 {
        let rest = outcomes.drop_first();
        assert(forall|j: int| 0 <= j < rest.len() ==> rest[j] == outcomes[j + 1]);
        if outcomes[0] {
            lemma_drain(Seq::empty(), rest);
            assert(drain_result(buf, outcomes) == drain_result(Seq::<Access>::empty(), rest));
            if exists|j: int| 0 <= j < rest.len() && rest[j] {
                assert(drain_result(Seq::<Access>::empty(), rest).len() == 0);
            } else {
                assert(drain_result(Seq::<Access>::empty(), rest) == Seq::<Access>::empty());
            }
            assert(exists|i: int| 0 <= i < outcomes.len() && outcomes[i]);
        } else {
            lemma_drain(buf, rest);
            assert(drain_result(buf, outcomes) == drain_result(buf, rest));
            if exists|j: int| 0 <= j < rest.len() && rest[j] {
                let j = choose|j: int| 0 <= j < rest.len() && rest[j];
                assert(outcomes[j + 1]);
                assert(exists|i: int| 0 <= i < outcomes.len() && outcomes[i]);
            } else {
                assert(drain_result(buf, rest) == buf);
                if exists|i: int| 0 <= i < outcomes.len() && outcomes[i] {
                    let i = choose|i: int| 0 <= i < outcomes.len() && outcomes[i];
                    assert(i >= 1);
                    assert(rest[i - 1]);
                }
            }
        }
    }
}

/// Every record the consumer observes is either delivered or still held:
/// an undelivered flush keeps the whole buffer unchanged, and a delivered
/// one empties a buffer whose records all stood, in order, in the payload
/// just sent — the JSON array of exactly `access_views(buf)`. A record is
/// never silently discarded.
pub proof fn lemma_flush_accounting(buf: Seq<Access>, delivered: bool)
    ensures
        !delivered ==> buffer_after_flush(buf, delivered) == buf,
        delivered ==> buffer_after_flush(buf, delivered).len() == 0,
        forall|i: int| 0 <= i < buf.len() ==> access_views(buf)[i] == buf[i]@,
{
}

} // verus!
