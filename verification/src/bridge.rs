//! The subscription bridge: the decision core that adapts a
//! connection-owned, push-delivered message source to a consumer-paced
//! pull interface.
//!
//! One bridge stands between the background task that owns the backend
//! connection's message stream and the handle the HTTP stream writer
//! pulls from. Messages pass through a staging slot of capacity one, so
//! the background task observes backpressure instead of queuing without
//! bound, and a teardown flag set when the consumer disappears tells the
//! background task to stop within one step and release the dedicated
//! connection. The surrounding program performs the actual polling,
//! sleeping and waking; every decision — whether to read, whether to
//! wait, whether to stop, what the consumer receives next — is taken
//! here, and the contracts pin order, occupancy and teardown exactly.

use vstd::prelude::*;

verus! {

/// What the background task must do next.
#[derive(Clone, Copy, Debug, PartialEq, Eq, Structural)]
pub enum ProducerStep {
    /// The consumer is gone: stop reading and release the dedicated
    /// connection.
    Stop,
    /// The staging slot is occupied: suspend until the consumer takes the
    /// staged message, and do not poll the message source meanwhile.
    Wait,
    /// There is room: poll the message source for the next pushed
    /// message.
    PollSource,
}

/// What the consumer observes when it asks for the next message.
#[derive(Debug, PartialEq, Eq)]
pub enum Pulled {
    /// The next message, in push order.
    Item(Vec<u8>),
    /// The source ended cleanly, or the end was already reported: the
    /// sequence is exhausted.
    Ended,
    /// The source ended with a transport failure; reported exactly once.
    Failed,
    /// Nothing is staged yet: suspend until the background task stages
    /// the next message or the source ends.
    Pending,
}

/// The shared state of one subscription: the staging slot, the teardown
/// and termination flags, and (as ghost history) everything the backend
/// pushed and everything the consumer has taken.
pub struct Bridge {
    slot: Option<Vec<u8>>,
    consumer_gone: bool,
    source_done: bool,
    source_failed: bool,
    end_reported: bool,
    hist_pushed: Ghost<Seq<Seq<u8>>>,
    hist_delivered: Ghost<Seq<Seq<u8>>>,
}

impl Bridge {
    /// Everything the backend has pushed through this bridge, in order.
    pub closed spec fn pushed(self) -> Seq<Seq<u8>> {
        self.hist_pushed@
    }

    /// Everything the consumer has taken, in order.
    pub closed spec fn delivered(self) -> Seq<Seq<u8>> {
        self.hist_delivered@
    }

    /// What currently sits in the staging slot, as a sequence of length
    /// zero or one.
    pub closed spec fn staged(self) -> Seq<Seq<u8>> {
        match self.slot {
            Some(m) => seq![m@],
            None => Seq::empty(),
        }
    }

    /// How many messages are buffered between the two sides.
    pub open spec fn buffered(self) -> nat {
        self.staged().len()
    }

    /// The consumer has released its handle.
    pub closed spec fn is_consumer_gone(self) -> bool {
        self.consumer_gone
    }

    /// The message source has ended and will push nothing more.
    pub closed spec fn is_source_done(self) -> bool {
        self.source_done
    }

    /// The message source ended with a transport failure.
    pub closed spec fn is_source_failed(self) -> bool {
        self.source_failed
    }

    /// The termination has already been handed to the consumer.
    pub closed spec fn is_end_reported(self) -> bool {
        self.end_reported
    }

    /// The bridge invariant: the consumer has received exactly the pushed
    /// messages minus what is still staged — nothing reordered, nothing
    /// duplicated, nothing dropped — and termination is only ever
    /// reported after the source ended.
    pub closed spec fn wf(self) -> bool {
        &&& self.hist_delivered@ + self.staged() == self.hist_pushed@
        &&& self.end_reported ==> self.source_done
    }

    /// The decision the background task must take in the current state.
    pub closed spec fn producer_step_spec(self) -> ProducerStep {
        if self.consumer_gone {
            ProducerStep::Stop
        } else if self.slot is Some {
            ProducerStep::Wait
        } else {
            ProducerStep::PollSource
        }
    }

    /// A fresh bridge for one subscription: empty, live, with no history.
    pub fn new() -> (b: Bridge)
        ensures
            b.wf(),
            b.pushed() == Seq::<Seq<u8>>::empty(),
            b.delivered() == Seq::<Seq<u8>>::empty(),
            b.buffered() == 0,
            !b.is_consumer_gone(),
            !b.is_source_done(),
            !b.is_end_reported(),
    {
        let b = Bridge {
            slot: None,
            consumer_gone: false,
            source_done: false,
            source_failed: false,
            end_reported: false,
            hist_pushed: Ghost(Seq::empty()),
            hist_delivered: Ghost(Seq::empty()),
        };
        proof {
            assert(b.delivered() + b.staged() =~= b.pushed());
        }
        b
    }

    /// The background task's decision point, taken before every read of
    /// the message source: stop as soon as the consumer is gone, wait
    /// while the slot is full, and only otherwise poll the source.
    pub fn producer_poll(&self) -> (r: ProducerStep)
        ensures
            r == self.producer_step_spec(),
            r == ProducerStep::Stop <==> self.is_consumer_gone(),
            r == ProducerStep::Wait <==> !self.is_consumer_gone() && self.buffered() == 1,
            r == ProducerStep::PollSource <==> !self.is_consumer_gone() && self.buffered() == 0,
    {
        if self.consumer_gone {
            ProducerStep::Stop
        } else if self.slot.is_some() {
            ProducerStep::Wait
        } else {
            ProducerStep::PollSource
        }
    }

    /// Stage one message pushed by the backend. Only legal when the
    /// producer's decision was to poll the source: the slot is free and
    /// the source still open.
    pub fn stage(&mut self, m: Vec<u8>)
        requires
            old(self).wf(),
            !old(self).is_consumer_gone(),
            old(self).buffered() == 0,
            !old(self).is_source_done(),
        ensures
            final(self).wf(),
            final(self).pushed() == old(self).pushed() + seq![m@],
            final(self).delivered() == old(self).delivered(),
            final(self).buffered() == 1,
            final(self).is_consumer_gone() == old(self).is_consumer_gone(),
            final(self).is_source_done() == old(self).is_source_done(),
            final(self).is_source_failed() == old(self).is_source_failed(),
            final(self).is_end_reported() == old(self).is_end_reported(),
    {
        let ghost mv = m@;
        self.slot = Some(m);
        proof {
            self.hist_pushed@ = self.hist_pushed@ + seq![mv];
            assert(self.hist_delivered@ + self.staged() =~= self.hist_pushed@);
        }
    }

    /// Record that the message source ended, cleanly or with a transport
    /// failure. Nothing buffered is lost: the staged message, if any,
    /// stays for the consumer.
    pub fn source_end(&mut self, failed: bool)
        requires
            old(self).wf(),
        ensures
            final(self).wf(),
            final(self).pushed() == old(self).pushed(),
            final(self).delivered() == old(self).delivered(),
            final(self).buffered() == old(self).buffered(),
            final(self).is_consumer_gone() == old(self).is_consumer_gone(),
            final(self).is_source_done(),
            final(self).is_source_failed() == failed,
            final(self).is_end_reported() == old(self).is_end_reported(),
    {
        self.source_done = true;
        self.source_failed = failed;
    }

    /// The consumer asks for the next message. It receives the pushed
    /// messages one by one in push order; once the source has ended and
    /// the slot is drained, it receives the termination exactly once — a
    /// failure as [`Pulled::Failed`], a clean end as [`Pulled::Ended`] —
    /// and the sequence is exhausted from then on.
    pub fn consumer_next(&mut self) -> (r: Pulled)
        requires
            old(self).wf(),
            !old(self).is_consumer_gone(),
        ensures
            final(self).wf(),
            final(self).pushed() == old(self).pushed(),
            final(self).is_consumer_gone() == old(self).is_consumer_gone(),
            final(self).is_source_done() == old(self).is_source_done(),
            final(self).is_source_failed() == old(self).is_source_failed(),
            match r {
                Pulled::Item(m) => {
                    &&& old(self).buffered() == 1
                    &&& m@ == old(self).pushed()[old(self).delivered().len() as int]
                    &&& final(self).delivered() == old(self).delivered() + seq![m@]
                    &&& final(self).buffered() == 0
                    &&& final(self).is_end_reported() == old(self).is_end_reported()
                },
                Pulled::Ended => {
                    &&& old(self).buffered() == 0
                    &&& old(self).is_source_done()
                    &&& (old(self).is_end_reported() || !old(self).is_source_failed())
                    &&& final(self).delivered() == old(self).delivered()
                    &&& final(self).buffered() == 0
                    &&& final(self).is_end_reported()
                },
                Pulled::Failed => {
                    &&& old(self).buffered() == 0
                    &&& old(self).is_source_done()
                    &&& old(self).is_source_failed()
                    &&& !old(self).is_end_reported()
                    &&& final(self).delivered() == old(self).delivered()
                    &&& final(self).buffered() == 0
                    &&& final(self).is_end_reported()
                },
                Pulled::Pending => {
                    &&& old(self).buffered() == 0
                    &&& !old(self).is_source_done()
                    &&& *final(self) == *old(self)
                },
            },
    {
        let staged = self.slot.take();
        match staged {
            Some(m) => {
                let ghost mv = m@;
                proof {
                    assert(old(self).staged() =~= seq![mv]);
                    assert(old(self).delivered() + old(self).staged() == old(self).pushed());
                    assert(old(self).pushed()[old(self).delivered().len() as int] == mv);
                    self.hist_delivered@ = self.hist_delivered@ + seq![mv];
                    assert(self.hist_delivered@ + self.staged() =~= self.hist_pushed@);
                }
                Pulled::Item(m)
            },
            None => {
                proof {
                    assert(self.staged() =~= Seq::<Seq<u8>>::empty());
                }
                if self.source_done {
                    if self.source_failed && !self.end_reported {
                        self.end_reported = true;
                        Pulled::Failed
                    } else {
                        self.end_reported = true;
                        Pulled::Ended
                    }
                } else {
                    Pulled::Pending
                }
            },
        }
    }

    /// Whether the consumer's handle is still held. The two sides share
    /// the bridge, so the pulling side tests this before it pulls.
    pub fn consumer_active(&self) -> (r: bool)
        ensures
            r == !self.is_consumer_gone(),
    {
        !self.consumer_gone
    }

    /// Whether the message source may still push. The background task
    /// tests this, together with its poll decision, before staging.
    pub fn source_open(&self) -> (r: bool)
        ensures
            r == !self.is_source_done(),
    {
        !self.source_done
    }

    /// The consumer releases its handle. From this point the background
    /// task's very next decision is to stop.
    pub fn consumer_drop(&mut self)
        ensures
            final(self).is_consumer_gone(),
            final(self).wf() == old(self).wf(),
            final(self).pushed() == old(self).pushed(),
            final(self).delivered() == old(self).delivered(),
            final(self).buffered() == old(self).buffered(),
            final(self).is_source_done() == old(self).is_source_done(),
            final(self).is_source_failed() == old(self).is_source_failed(),
            final(self).is_end_reported() == old(self).is_end_reported(),
            final(self).producer_step_spec() == ProducerStep::Stop,
    {
        self.consumer_gone = true;
    }
}

/// Order is preserved end to end: what the consumer has received is
/// exactly the first messages the backend pushed, in push order, with
/// nothing skipped, reordered or duplicated.
pub proof fn law_order_preserved(b: Bridge)
    requires
        b.wf(),
    ensures
        b.delivered() == b.pushed().take(b.delivered().len() as int),
        b.delivered().len() <= b.pushed().len(),
{
    assert(b.delivered() =~= b.pushed().take(b.delivered().len() as int));
}

/// Buffering is bounded: at most one message ever sits between the
/// backend read loop and the consumer, however far the consumer lags, and
/// while that one message is staged the producer's decision is to wait,
/// not to read further.
pub proof fn law_bounded_buffer(b: Bridge)
    requires
        b.wf(),
    ensures
        b.buffered() <= 1,
        b.pushed().len() <= b.delivered().len() + 1,
        !b.is_consumer_gone() && b.buffered() == 1 ==> b.producer_step_spec()
            == ProducerStep::Wait,
{
}

/// Teardown is prompt: once the consumer's handle is gone, the background
/// task's next decision — whatever else is staged or pending — is to
/// stop and release the dedicated connection. One scheduling step
/// suffices.
pub proof fn law_prompt_teardown(b: Bridge)
    requires
        b.is_consumer_gone(),
    ensures
        b.producer_step_spec() == ProducerStep::Stop,
{
}

} // verus!
