use vstd::prelude::*;
use crate::connection::Phase;
use crate::message::opt_view;
use crate::proto::{encode_sub, sub_frame};
use crate::registry::{Registry, RegistryView, spec_live};

verus! {

/// What became of an outbound frame handed to the outbox.
#[derive(Debug)]
pub enum Submit {
    /// The connection is writable: send this frame now.
    Send(Vec<u8>),
    /// The connection is being (re)established: the frame waits in the buffer.
    Buffered,
    /// The buffer is full, or the connection is closed: the frame is refused.
    Rejected,
}

/// Outbound frames held while the connection is not writable, in the order
/// they were written, up to a fixed number of frames.
pub struct Outbox {
    frames: Vec<Vec<u8>>,
    max_frames: usize,
}

/// Whether frames can be written straight to the transport in `p`.
pub open spec fn writable(p: Phase) -> bool {
    p == Phase::Connected || p == Phase::Draining
}

/// `frame` is the SUB that re-issues live subscription `sid` of `reg`.
pub open spec fn resubscribes(reg: RegistryView, sid: u64, frame: Seq<u8>) -> bool {
    &&& spec_live(reg).contains(sid)
    &&& frame == sub_frame(reg.subs[sid].subject, reg.subs[sid].queue_group, sid as nat)
}

/// `frame` re-issues some live subscription of `reg`.
pub open spec fn is_resubscribe(reg: RegistryView, frame: Seq<u8>) -> bool {
    exists|sid: u64| resubscribes(reg, sid, frame)
}

impl Outbox {
    /// The frames waiting, oldest first.
    pub closed spec fn spec_frames(&self) -> Seq<Seq<u8>> {
        self.frames@.map_values(|f: Vec<u8>| f@)
    }

    /// The most frames the buffer holds.
    pub closed spec fn spec_max(&self) -> nat {
        self.max_frames as nat
    }

    /// An empty outbox holding at most `max_frames` frames.
    pub fn new(max_frames: usize) -> (o: Outbox)
        ensures
            o.spec_frames() == Seq::<Seq<u8>>::empty(),
            o.spec_max() == max_frames,
    {
        let o = Outbox { frames: Vec::new(), max_frames };
        assert(o.spec_frames() =~= Seq::<Seq<u8>>::empty());
        o
    }

    /// Number of frames waiting.
    pub fn len(&self) -> (n: usize)
        ensures
            n == self.spec_frames().len(),
    {
        self.frames.len()
    }

    /// Hands over an outbound frame: sent at once while the connection is
    /// writable, buffered while it is being established and the buffer has
    /// room, refused otherwise.
    pub fn submit(&mut self, phase: Phase, frame: Vec<u8>) -> (r: Submit)
        ensures
            final(self).spec_max() == old(self).spec_max(),
            writable(phase) ==> r == Submit::Send(frame) && final(self).spec_frames()
                == old(self).spec_frames(),
            !writable(phase) && phase != Phase::Closed && old(self).spec_frames().len()
                < old(self).spec_max() ==> r is Buffered && final(self).spec_frames()
                == old(self).spec_frames().push(frame@),
            !writable(phase) && (phase == Phase::Closed || old(self).spec_frames().len()
                >= old(self).spec_max()) ==> r is Rejected && final(self).spec_frames()
                == old(self).spec_frames(),
    {
        match phase {
            Phase::Connected | Phase::Draining => Submit::Send(frame),
            Phase::Closed => Submit::Rejected,
            _ => {
                if self.frames.len() < self.max_frames {
                    let ghost f = frame@;
                    self.frames.push(frame);
                    assert(self.spec_frames() =~= old(self).spec_frames().push(f));
                    Submit::Buffered
                } else {
                    Submit::Rejected
                }
            },
        }
    }

    /// The frames to write once a connection is re-established: a SUB for
    /// every live subscription, followed by the buffered frames in the order
    /// they were written. The buffer is left empty.
    pub fn replay(&mut self, reg: &Registry) -> (r: Vec<Vec<u8>>)
        requires
            reg.wf(),
        ensures
            final(self).spec_frames() == Seq::<Seq<u8>>::empty(),
            final(self).spec_max() == old(self).spec_max(),
            r@.len() == spec_live(reg@).len() + old(self).spec_frames().len(),
            forall|k: int| 0 <= k < spec_live(reg@).len() ==> is_resubscribe(reg@, #[trigger] r@[k]@),
            forall|sid: u64| #[trigger] spec_live(reg@).contains(sid) ==> exists|k: int|
                0 <= k < spec_live(reg@).len() && resubscribes(reg@, sid, #[trigger] r@[k]@),
            forall|j: int| #![trigger old(self).spec_frames()[j]]
                0 <= j < old(self).spec_frames().len() ==> r@[spec_live(reg@).len() + j]@
                    == old(self).spec_frames()[j],
    {
        let subs = reg.live_subs();
        let mut out: Vec<Vec<u8>> = Vec::new();
        let mut i: usize = 0;
        while i < subs.len()
            invariant
                i <= subs@.len(),
                out@.len() == i,
                forall|k: int| #![trigger out@[k]] 0 <= k < i ==> out@[k]@ == sub_frame(
                    subs@[k].subject@,
                    opt_view(subs@[k].queue_group),
                    subs@[k].sid as nat,
                ),
            decreases subs@.len() - i,
        {
            let f = encode_sub(subs[i].subject.as_slice(), &subs[i].queue_group, subs[i].sid);
            out.push(f);
            i = i + 1;
        }
        let ghost n = out@.len();
        let ghost old_raw = self.frames@;
        let ghost pre = out@;
        out.append(&mut self.frames);
        assert forall|k: int| 0 <= k < spec_live(reg@).len() implies is_resubscribe(reg@, #[trigger] out@[k]@) by {
            assert(out@[k] == pre[k]);
            assert(spec_live(reg@).contains(subs@[k].sid));
            assert(resubscribes(reg@, subs@[k].sid, out@[k]@));
        }
        assert forall|sid: u64| #[trigger] spec_live(reg@).contains(sid) implies exists|k: int|
            0 <= k < spec_live(reg@).len() && resubscribes(reg@, sid, #[trigger] out@[k]@) by {
            let k = choose|k: int| 0 <= k < subs@.len() && subs@[k].sid == sid;
            assert(out@[k] == pre[k]);
            assert(spec_live(reg@).contains(subs@[k].sid));
            assert(resubscribes(reg@, sid, out@[k]@));
        }
        assert forall|j: int| #![trigger old(self).spec_frames()[j]]
            0 <= j < old(self).spec_frames().len() implies out@[spec_live(reg@).len() + j]@
                == old(self).spec_frames()[j] by {
            assert(out@[n + j] == old_raw[j]);
        }
        assert(self.spec_frames() =~= Seq::<Seq<u8>>::empty());
        out
    }
}

} // verus!
