use vstd::prelude::*;
use crate::message::Message;
use crate::queue::Recv;
use crate::registry::{Registry, spec_register, spec_unregister, spec_next, spec_after_next};

verus! {

/// Why a request ended without a reply.
#[derive(Clone, Copy, Debug, PartialEq, Eq, Structural)]
pub enum RequestError {
    /// The deadline passed before any reply arrived.
    TimedOut,
    /// The reply inbox was closed before any reply arrived.
    Closed,
}

/// Where a pending request stands after a check.
#[derive(Debug)]
pub enum RequestStatus {
    /// No reply yet and the deadline has not passed: wait and check again.
    Waiting,
    /// The request has just completed, with the first reply or an error.
    Done(Result<Message, RequestError>),
    /// The request had already completed before this check.
    AlreadyDone,
}

/// A request awaiting its reply on a dedicated inbox subscription. It
/// completes exactly once: with the first reply, or with an error at the
/// deadline; either way the inbox subscription is unregistered.
pub struct PendingRequest {
    sid: u64,
    done: bool,
}

impl PendingRequest {
    /// Identifier of the inbox subscription.
    pub closed spec fn spec_sid(&self) -> u64 {
        self.sid
    }

    /// Whether the request has completed.
    pub closed spec fn spec_done(&self) -> bool {
        self.done
    }

    /// Identifier of the inbox subscription, to publish the request with.
    pub fn sid(&self) -> (r: u64)
        ensures
            r == self.spec_sid(),
    {
        self.sid
    }

    /// Whether the request has completed.
    pub fn is_done(&self) -> (r: bool)
        ensures
            r == self.spec_done(),
    {
        self.done
    }

    /// Starts a request by registering a subscription on the reply inbox.
    pub fn start(reg: &mut Registry, inbox: Vec<u8>) -> (p: PendingRequest)
        requires
            old(reg).wf(),
            old(reg)@.next_sid < u64::MAX,
        ensures
            final(reg).wf(),
            final(reg)@ == spec_register(old(reg)@, inbox@, None),
            p.spec_sid() == old(reg)@.next_sid,
            !p.spec_done(),
    {
        let sid = reg.register(inbox, None);
        PendingRequest { sid, done: false }
    }

    /// Checks for a reply. The first reply completes the request; with none
    /// queued, a passed deadline completes it with `TimedOut` and a closed
    /// inbox with `Closed`. On completion the inbox is unregistered. A
    /// completed request is never completed again and leaves the registry
    /// alone.
    pub fn check(&mut self, reg: &mut Registry, deadline_passed: bool) -> (r: RequestStatus)
        requires
            old(reg).wf(),
        ensures
            final(reg).wf(),
            final(self).spec_sid() == old(self).spec_sid(),
            old(self).spec_done() ==> {
                &&& r is AlreadyDone
                &&& final(reg)@ == old(reg)@
                &&& final(self).spec_done()
            },
            !old(self).spec_done() ==> ({
                let sid = old(self).spec_sid();
                let read = spec_after_next(old(reg)@, sid);
                match spec_next(old(reg)@, sid) {
                    Recv::Item(m) => {
                        &&& r == RequestStatus::Done(Ok(m))
                        &&& final(reg)@ == spec_unregister(read, sid)
                        &&& final(self).spec_done()
                    },
                    Recv::Empty => if deadline_passed {
                        &&& r == RequestStatus::Done(Err(RequestError::TimedOut))
                        &&& final(reg)@ == spec_unregister(read, sid)
                        &&& final(self).spec_done()
                    } else {
                        &&& r is Waiting
                        &&& final(reg)@ == read
                        &&& !final(self).spec_done()
                    },
                    Recv::Closed => {
                        &&& r == RequestStatus::Done(Err(RequestError::Closed))
                        &&& final(reg)@ == spec_unregister(read, sid)
                        &&& final(self).spec_done()
                    },
                }
            }),
    {
        if self.done {
            return RequestStatus::AlreadyDone;
        }
        let r = match reg.next(self.sid) {
            Recv::Item(m) => RequestStatus::Done(Ok(m)),
            Recv::Empty => if deadline_passed {
                RequestStatus::Done(Err(RequestError::TimedOut))
            } else {
                return RequestStatus::Waiting;
            },
            Recv::Closed => RequestStatus::Done(Err(RequestError::Closed)),
        };
        reg.unregister(self.sid);
        self.done = true;
        r
    }
}

} // verus!
