use vstd::prelude::*;
use crate::message::Message;
use crate::registry::{Registry, RegistryView, spec_dispatch, spec_dispatch_all, spec_unregister};

verus! {

/// Progress of a graceful unsubscribe.
#[derive(Clone, Copy, Debug, PartialEq, Eq, Structural)]
pub enum DrainState {
    /// The subscription receives messages as usual.
    Active,
    /// A flush PING was sent; the subscription still receives messages until
    /// its PONG comes back.
    AwaitingPong,
    /// The flush round-trip completed and the subscription was unregistered.
    Drained,
}

/// Drains one subscription: flush first, then unregister once the PONG of
/// that flush arrives, so every message the server sent before the flush is
/// still delivered and none sent after it is.
pub struct SubscriptionDrain {
    pub sid: u64,
    pub state: DrainState,
}

impl SubscriptionDrain {
    /// A drain of `sid` that has not started.
    pub fn new(sid: u64) -> (d: SubscriptionDrain)
        ensures
            d.sid == sid,
            d.state == DrainState::Active,
    {
        SubscriptionDrain { sid, state: DrainState::Active }
    }

    /// Starts the drain. Returns whether a flush PING must be sent now: only
    /// the first call starts one.
    pub fn begin(&mut self) -> (send_ping: bool)
        ensures
            final(self).sid == old(self).sid,
            send_ping == (old(self).state == DrainState::Active),
            final(self).state == if old(self).state == DrainState::Active {
                DrainState::AwaitingPong
            } else {
                old(self).state
            },
    {
        if self.state == DrainState::Active {
            self.state = DrainState::AwaitingPong;
            true
        } else {
            false
        }
    }

    /// The PONG of the flush arrived: the subscription is unregistered, and
    /// from then on messages for it are discarded. Before the drain has
    /// started, or after it has ended, nothing changes. Returns whether this
    /// call completed the drain.
    pub fn on_pong(&mut self, reg: &mut Registry) -> (completed: bool)
        requires
            old(reg).wf(),
        ensures
            final(reg).wf(),
            final(self).sid == old(self).sid,
            completed == (old(self).state == DrainState::AwaitingPong),
            completed ==> final(self).state == DrainState::Drained && final(reg)@ == spec_unregister(
                old(reg)@,
                old(self).sid,
            ),
            !completed ==> final(self).state == old(self).state && final(reg)@ == old(reg)@,
    {
        if self.state == DrainState::AwaitingPong {
            reg.unregister(self.sid);
            self.state = DrainState::Drained;
            true
        } else {
            false
        }
    }
}

/// Completing a drain keeps every message queued before it for the reader,
/// and no message arriving afterwards reaches the drained subscription.
pub proof fn lemma_drain_cuts_off(v: RegistryView, sid: u64, ms: Seq<Message>)
    requires
        v.subs.contains_key(sid),
    ensures
        spec_unregister(v, sid).subs[sid].queue.items == v.subs[sid].queue.items,
        spec_dispatch_all(spec_unregister(v, sid), sid, ms) == spec_unregister(v, sid),
    decreases ms.len(),
{
    if ms.len() > 0 {
        let w = spec_unregister(v, sid);
        assert(w.subs.insert(sid, w.subs[sid]) =~= w.subs);
        assert(spec_dispatch(w, sid, ms[0]) == w);
        lemma_drain_cuts_off(v, sid, ms.drop_first());
    }
}

} // verus!
