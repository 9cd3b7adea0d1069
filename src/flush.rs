use vstd::prelude::*;
use crate::queue::{SubscriptionReceiver, spec_pop, spec_push};

verus! {

/// Matches PONGs to the PINGs sent before them. The server answers PINGs in
/// order, so each PONG completes the oldest PING still outstanding. A PING
/// sent by `flush` carries the id of its waiter; a keepalive PING carries
/// none.
pub struct PongWaiters {
    outstanding: SubscriptionReceiver<Option<u64>>,
}

impl PongWaiters {
    /// The waiters of the outstanding PINGs, oldest first.
    pub closed spec fn spec_outstanding(&self) -> Seq<Option<u64>> {
        self.outstanding@.items
    }

    /// The record of outstanding PINGs is never closed.
    pub closed spec fn wf(&self) -> bool {
        !self.outstanding@.closed
    }

    /// No PING outstanding.
    pub fn new() -> (w: PongWaiters)
        ensures
            w.wf(),
            w.spec_outstanding() == Seq::<Option<u64>>::empty(),
    {
        PongWaiters { outstanding: SubscriptionReceiver::new() }
    }

    /// Number of PINGs not yet answered.
    pub fn len(&self) -> (n: usize)
        ensures
            n == self.spec_outstanding().len(),
    {
        self.outstanding.len()
    }

    /// Records a PING just sent, for the flush `waiter` or for keepalive.
    pub fn ping_sent(&mut self, waiter: Option<u64>)
        requires
            old(self).wf(),
        ensures
            final(self).wf(),
            final(self).spec_outstanding() == old(self).spec_outstanding().push(waiter),
    {
        let ghost q = self.outstanding@;
        self.outstanding.push(waiter);
        assert(spec_push(q, waiter).items == q.items.push(waiter));
    }

    /// A PONG arrived: it answers the oldest outstanding PING. Returns the
    /// flush waiter to release, if that PING had one; a PONG with no PING
    /// outstanding releases nobody.
    pub fn pong_received(&mut self) -> (released: Option<u64>)
        requires
            old(self).wf(),
        ensures
            final(self).wf(),
            old(self).spec_outstanding().len() > 0 ==> released == old(self).spec_outstanding()[0]
                && final(self).spec_outstanding() == old(self).spec_outstanding().drop_first(),
            old(self).spec_outstanding().len() == 0 ==> released is None
                && final(self).spec_outstanding() == old(self).spec_outstanding(),
    {
        let ghost q = self.outstanding@;
        match self.outstanding.try_recv() {
            Some(w) => {
                assert(spec_pop(q).items == q.items.drop_first());
                w
            },
            None => None,
        }
    }
}

} // verus!
