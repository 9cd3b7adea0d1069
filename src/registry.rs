use vstd::prelude::*;
use crate::message::{Message, copy_bytes, opt_view};
use crate::queue::{QueueView, Recv, SubscriptionReceiver, spec_push, spec_close, spec_pop, spec_recv};

verus! {

/// What the registry knows of one subscription.
pub struct SubView {
    pub subject: Seq<u8>,
    pub queue_group: Option<Seq<u8>>,
    pub queue: QueueView<Message>,
}

/// The registry as a whole: the next identifier to hand out and the
/// subscriptions by identifier. A subscription whose queue is closed has been
/// unregistered; it stays only until its queued messages have been taken.
pub struct RegistryView {
    pub next_sid: u64,
    pub subs: Map<u64, SubView>,
}

/// Identifiers of the subscriptions that still receive messages.
pub open spec fn spec_live(v: RegistryView) -> Set<u64> {
    Set::new(|sid: u64| v.subs.contains_key(sid) && !v.subs[sid].queue.closed)
}

/// The registry after a new subscription on `subject`: it gets the next
/// identifier and an open, empty queue.
pub open spec fn spec_register(
    v: RegistryView,
    subject: Seq<u8>,
    queue_group: Option<Seq<u8>>,
) -> RegistryView {
    RegistryView {
        next_sid: (v.next_sid + 1) as u64,
        subs: v.subs.insert(
            v.next_sid,
            SubView { subject, queue_group, queue: QueueView { items: Seq::empty(), closed: false } },
        ),
    }
}

/// The registry after a message for `sid` arrives: queued if `sid` is live,
/// discarded otherwise.
pub open spec fn spec_dispatch(v: RegistryView, sid: u64, m: Message) -> RegistryView {
    if v.subs.contains_key(sid) {
        RegistryView {
            next_sid: v.next_sid,
            subs: v.subs.insert(sid, SubView { queue: spec_push(v.subs[sid].queue, m), ..v.subs[sid] }),
        }
    } else {
        v
    }
}

/// The registry after `sid` is unregistered: its queue is closed; a sid with
/// no entry leaves the registry unchanged.
pub open spec fn spec_unregister(v: RegistryView, sid: u64) -> RegistryView {
    if v.subs.contains_key(sid) {
        RegistryView {
            next_sid: v.next_sid,
            subs: v.subs.insert(sid, SubView { queue: spec_close(v.subs[sid].queue), ..v.subs[sid] }),
        }
    } else {
        v
    }
}

/// What a read on `sid` returns: an unknown sid reads as closed.
pub open spec fn spec_next(v: RegistryView, sid: u64) -> Recv<Message> {
    if v.subs.contains_key(sid) {
        spec_recv(v.subs[sid].queue)
    } else {
        Recv::Closed
    }
}

/// The registry after a read on `sid`: the oldest message is taken, and a
/// closed subscription with nothing left is forgotten.
pub open spec fn spec_after_next(v: RegistryView, sid: u64) -> RegistryView {
    if !v.subs.contains_key(sid) {
        v
    } else if v.subs[sid].queue.closed && v.subs[sid].queue.items.len() == 0 {
        RegistryView { next_sid: v.next_sid, subs: v.subs.remove(sid) }
    } else {
        RegistryView {
            next_sid: v.next_sid,
            subs: v.subs.insert(sid, SubView { queue: spec_pop(v.subs[sid].queue), ..v.subs[sid] }),
        }
    }
}

struct Entry {
    sid: u64,
    subject: Vec<u8>,
    queue_group: Option<Vec<u8>>,
    rx: SubscriptionReceiver<Message>,
}

impl Entry {
    spec fn view(&self) -> SubView {
        SubView {
            subject: self.subject@,
            queue_group: opt_view(self.queue_group),
            queue: self.rx@,
        }
    }
}

/// A live subscription as replayed after a reconnect.
#[derive(Debug)]
pub struct LiveSub {
    pub sid: u64,
    pub subject: Vec<u8>,
    pub queue_group: Option<Vec<u8>>,
}

/// Maps subscription identifiers to their delivery queues. Identifiers are
/// handed out in increasing order and never reused.
pub struct Registry {
    next_sid: u64,
    entries: Vec<Entry>,
    subs: Ghost<Map<u64, SubView>>,
}

impl View for Registry {
    type V = RegistryView;

    closed spec fn view(&self) -> RegistryView {
        RegistryView { next_sid: self.next_sid, subs: self.subs@ }
    }
}

impl Registry {
    /// The registry's internal consistency: entries sorted by identifier, all
    /// below the next identifier, and exactly the subscriptions of the view.
    pub closed spec fn wf(&self) -> bool {
        &&& forall|i: int, j: int|
            0 <= i < j < self.entries@.len() ==> self.entries@[i].sid < self.entries@[j].sid
        &&& forall|i: int| 0 <= i < self.entries@.len() ==> self.entries@[i].sid < self.next_sid
        &&& forall|i: int|
            0 <= i < self.entries@.len() ==> #[trigger] self.subs@.contains_key(
                self.entries@[i].sid,
            ) && self.subs@[self.entries@[i].sid] == self.entries@[i].view()
        &&& forall|sid: u64|
            #[trigger] self.subs@.contains_key(sid) ==> exists|i: int|
                0 <= i < self.entries@.len() && self.entries@[i].sid == sid
    }

    /// An empty registry; identifiers start at 1.
    pub fn new() -> (r: Registry)
        ensures
            r.wf(),
            r@.next_sid == 1,
            r@.subs == Map::<u64, SubView>::empty(),
    {
        Registry { next_sid: 1, entries: Vec::new(), subs: Ghost(Map::empty()) }
    }

    /// Whether another identifier can be handed out.
    pub fn can_register(&self) -> (b: bool)
        ensures
            b == (self@.next_sid < u64::MAX),
    {
        self.next_sid < u64::MAX
    }

    fn find(&self, sid: u64) -> (r: Option<usize>)
        requires
            self.wf(),
        ensures
            match r {
                Some(i) => i < self.entries@.len() && self.entries@[i as int].sid == sid,
                None => !self@.subs.contains_key(sid),
            },
    {
        let mut i: usize = 0;
        while i < self.entries.len()
            invariant
                self.wf(),
                i <= self.entries@.len(),
                forall|k: int| 0 <= k < i ==> self.entries@[k].sid != sid,
            decreases self.entries@.len() - i,
        {
            if self.entries[i].sid == sid {
                return Some(i);
            }
            i = i + 1;
        }
        None
    }

    /// Registers a subscription on `subject`, optionally in a queue group,
    /// and returns its identifier. The entry exists from this call on.
    pub fn register(&mut self, subject: Vec<u8>, queue_group: Option<Vec<u8>>) -> (sid: u64)
        requires
            old(self).wf(),
            old(self)@.next_sid < u64::MAX,
        ensures
            final(self).wf(),
            sid == old(self)@.next_sid,
            final(self)@ == spec_register(old(self)@, subject@, opt_view(queue_group)),
    {
        let sid = self.next_sid;
        let e = Entry { sid, subject, queue_group, rx: SubscriptionReceiver::new() };
        let ghost ev = e.view();
        let ghost old_entries = self.entries@;
        self.entries.push(e);
        self.next_sid = sid + 1;
        self.subs = Ghost(self.subs@.insert(sid, ev));
        assert forall|s: u64| #[trigger] self.subs@.contains_key(s) implies exists|i: int|
            0 <= i < self.entries@.len() && self.entries@[i].sid == s by {
            if s != sid {
                let i = choose|i: int| 0 <= i < old_entries.len() && old_entries[i].sid == s;
                assert(self.entries@[i].sid == s);
            } else {
                assert(self.entries@[old_entries.len() as int].sid == s);
            }
        }
        sid
    }

    /// Routes a message to the queue of `sid`. A sid that is unknown or
    /// already unregistered discards it. Returns whether it was queued.
    pub fn dispatch(&mut self, sid: u64, m: Message) -> (queued: bool)
        requires
            old(self).wf(),
        ensures
            final(self).wf(),
            final(self)@ == spec_dispatch(old(self)@, sid, m),
            queued == spec_live(old(self)@).contains(sid),
    {
        match self.find(sid) {
            None => false,
            Some(i) => {
                let ghost old_entries = self.entries@;
                let ghost old_subs = self.subs@;
                let mut e = self.entries.remove(i);
                let queued = e.rx.push(m);
                let ghost ev = e.view();
                self.entries.insert(i, e);
                self.subs = Ghost(self.subs@.insert(sid, ev));
                proof { self.lemma_replaced(old_entries, old_subs, i as int); }
                queued
            },
        }
    }

    /// Unregisters `sid`: its queue is closed, so further messages for it are
    /// discarded and its reader sees the end of the stream once the queue is
    /// drained. Unregistering an unknown or already closed sid changes
    /// nothing. Returns whether `sid` was live.
    pub fn unregister(&mut self, sid: u64) -> (was_live: bool)
        requires
            old(self).wf(),
        ensures
            final(self).wf(),
            final(self)@ == spec_unregister(old(self)@, sid),
            was_live == spec_live(old(self)@).contains(sid),
    {
        match self.find(sid) {
            None => false,
            Some(i) => {
                let ghost old_entries = self.entries@;
                let ghost old_subs = self.subs@;
                let mut e = self.entries.remove(i);
                let was_live = !e.rx.is_closed();
                e.rx.close();
                let ghost ev = e.view();
                self.entries.insert(i, e);
                self.subs = Ghost(self.subs@.insert(sid, ev));
                proof { self.lemma_replaced(old_entries, old_subs, i as int); }
                was_live
            },
        }
    }

    /// Reads from the queue of `sid` without waiting: the oldest message, or
    /// `Empty` while the subscription is live with nothing queued, or `Closed`
    /// once it is unregistered and drained (or unknown). A drained closed
    /// subscription is then forgotten.
    pub fn next(&mut self, sid: u64) -> (r: Recv<Message>)
        requires
            old(self).wf(),
        ensures
            final(self).wf(),
            r == spec_next(old(self)@, sid),
            final(self)@ == spec_after_next(old(self)@, sid),
    {
        match self.find(sid) {
            None => Recv::Closed,
            Some(i) => {
                let ghost old_entries = self.entries@;
                let ghost old_subs = self.subs@;
                if self.entries[i].rx.is_closed() && self.entries[i].rx.len() == 0 {
                    self.entries.remove(i);
                    self.subs = Ghost(self.subs@.remove(sid));
                    proof { self.lemma_removed(old_entries, old_subs, i as int); }
                    Recv::Closed
                } else {
                    let mut e = self.entries.remove(i);
                    let r = e.rx.poll();
                    let ghost ev = e.view();
                    self.entries.insert(i, e);
                    self.subs = Ghost(self.subs@.insert(sid, ev));
                    proof { self.lemma_replaced(old_entries, old_subs, i as int); }
                    r
                }
            },
        }
    }

    /// The subscriptions that still receive messages, in identifier order,
    /// for replay after a reconnect.
    pub fn live_subs(&self) -> (r: Vec<LiveSub>)
        requires
            self.wf(),
        ensures
            forall|k: int| #![trigger r@[k]] 0 <= k < r@.len() ==> spec_live(self@).contains(r@[k].sid)
                && r@[k].subject@ == self@.subs[r@[k].sid].subject
                    && opt_view(r@[k].queue_group) == self@.subs[r@[k].sid].queue_group,
            forall|sid: u64| #[trigger] spec_live(self@).contains(sid) ==> exists|k: int|
                0 <= k < r@.len() && r@[k].sid == sid,
            forall|a: int, b: int| 0 <= a < b < r@.len() ==> r@[a].sid < r@[b].sid,
            r@.len() == spec_live(self@).len(),
    {
        let mut r: Vec<LiveSub> = Vec::new();
        let mut i: usize = 0;
        while i < self.entries.len()
            invariant
                self.wf(),
                i <= self.entries@.len(),
                forall|k: int| #![trigger r@[k]] 0 <= k < r@.len() ==> spec_live(self@).contains(r@[k].sid)
                    && r@[k].subject@ == self@.subs[r@[k].sid].subject
                    && opt_view(r@[k].queue_group) == self@.subs[r@[k].sid].queue_group,
                forall|j: int| 0 <= j < i && !self.entries@[j].rx@.closed ==> exists|k: int|
                    0 <= k < r@.len() && r@[k].sid == self.entries@[j].sid,
                forall|a: int, b: int| 0 <= a < b < r@.len() ==> r@[a].sid < r@[b].sid,
                forall|k: int| #![trigger r@[k]] 0 <= k < r@.len() ==> exists|j: int| 0 <= j < i && r@[k].sid == #[trigger] self.entries@[j].sid,
            decreases self.entries@.len() - i,
        {
            let e = &self.entries[i];
            if !e.rx.is_closed() {
                let ghost old_r = r@;
                let g = match &e.queue_group {
                    Some(g) => Some(copy_bytes(g)),
                    None => None,
                };
                r.push(LiveSub { sid: e.sid, subject: copy_bytes(&e.subject), queue_group: g });
                assert(self.subs@.contains_key(self.entries@[i as int].sid));
                assert(spec_live(self@).contains(self.entries@[i as int].sid));
                assert forall|k: int| #![trigger r@[k]] 0 <= k < r@.len() implies spec_live(self@).contains(r@[k].sid)
                    && r@[k].subject@ == self@.subs[r@[k].sid].subject
                    && opt_view(r@[k].queue_group) == self@.subs[r@[k].sid].queue_group by {
                    if k < old_r.len() {
                        assert(r@[k] == old_r[k]);
                    }
                }
                assert forall|k: int| #![trigger r@[k]] 0 <= k < r@.len() implies exists|j: int| 0 <= j < i + 1 && r@[k].sid == #[trigger] self.entries@[j].sid by {
                    if k < old_r.len() {
                        assert(r@[k] == old_r[k]);
                        let j = choose|j: int| 0 <= j < i && old_r[k].sid == self.entries@[j].sid;
                    } else {
                        assert(r@[k].sid == self.entries@[i as int].sid);
                    }
                }
                assert forall|a: int, b: int| 0 <= a < b < r@.len() implies r@[a].sid < r@[b].sid by {
                    if b == old_r.len() {
                        let j = choose|j: int| 0 <= j < i && old_r[a].sid == self.entries@[j].sid;
                        assert(r@[a] == old_r[a]);
                    } else {
                        assert(r@[a] == old_r[a]);
                        assert(r@[b] == old_r[b]);
                    }
                }
                assert forall|j: int| 0 <= j < i + 1 && !self.entries@[j].rx@.closed implies exists|k: int|
                    0 <= k < r@.len() && r@[k].sid == #[trigger] self.entries@[j].sid by {
                    if j < i {
                        let k = choose|k: int| 0 <= k < old_r.len() && old_r[k].sid == self.entries@[j].sid;
                        assert(r@[k] == old_r[k]);
                    } else {
                        assert(r@[old_r.len() as int].sid == self.entries@[j].sid);
                    }
                }
            }
            i = i + 1;
        }
        assert forall|sid: u64| #[trigger] spec_live(self@).contains(sid) implies exists|k: int|
            0 <= k < r@.len() && r@[k].sid == sid by {
            let j = choose|j: int| 0 <= j < self.entries@.len() && self.entries@[j].sid == sid;
            assert(self.subs@[self.entries@[j].sid] == self.entries@[j].view());
        }
        proof { lemma_live_len(self@, r@); }
        r
    }

    /// Every identifier in use is below the next one to be handed out.
    pub proof fn lemma_sids_below_next(&self)
        requires
            self.wf(),
        ensures
            forall|sid: u64| #[trigger] self@.subs.contains_key(sid) ==> sid < self@.next_sid,
    {
        assert forall|sid: u64| #[trigger] self@.subs.contains_key(sid) implies sid < self@.next_sid by {
            let i = choose|i: int| 0 <= i < self.entries@.len() && self.entries@[i].sid == sid;
        }
    }

    /// Number of subscriptions that still receive messages.
    pub fn live_count(&self) -> (n: usize)
        requires
            self.wf(),
        ensures
            n == spec_live(self@).len(),
    {
        let r = self.live_subs();
        r.len()
    }

    proof fn lemma_removed(&self, old_entries: Seq<Entry>, old_subs: Map<u64, SubView>, i: int)
        requires
            0 <= i < old_entries.len(),
            self.entries@ == old_entries.remove(i),
            self.subs@ == old_subs.remove(old_entries[i].sid),
            forall|a: int, b: int|
                0 <= a < b < old_entries.len() ==> old_entries[a].sid < old_entries[b].sid,
            forall|a: int| 0 <= a < old_entries.len() ==> old_entries[a].sid < self.next_sid,
            forall|a: int|
                0 <= a < old_entries.len() ==> #[trigger] old_subs.contains_key(old_entries[a].sid)
                    && old_subs[old_entries[a].sid] == old_entries[a].view(),
            forall|sid: u64|
                #[trigger] old_subs.contains_key(sid) ==> exists|a: int|
                    0 <= a < old_entries.len() && old_entries[a].sid == sid,
        ensures
            self.wf(),
    {
        assert forall|a: int| 0 <= a < self.entries@.len() implies #[trigger] self.subs@.contains_key(
            self.entries@[a].sid,
        ) && self.subs@[self.entries@[a].sid] == self.entries@[a].view() by {
            let oa = if a < i { a } else { a + 1 };
            assert(self.entries@[a] == old_entries[oa]);
            assert(old_subs.contains_key(old_entries[oa].sid));
            if oa < i {
                assert(old_entries[oa].sid < old_entries[i].sid);
            } else {
                assert(old_entries[i].sid < old_entries[oa].sid);
            }
        }
        assert forall|a: int, b: int|
            0 <= a < b < self.entries@.len() implies self.entries@[a].sid < self.entries@[b].sid by {
            let oa = if a < i { a } else { a + 1 };
            let ob = if b < i { b } else { b + 1 };
            assert(self.entries@[a] == old_entries[oa]);
            assert(self.entries@[b] == old_entries[ob]);
        }
        assert forall|a: int| 0 <= a < self.entries@.len() implies self.entries@[a].sid < self.next_sid by {
            let oa = if a < i { a } else { a + 1 };
            assert(self.entries@[a] == old_entries[oa]);
        }
        assert forall|sid: u64| #[trigger] self.subs@.contains_key(sid) implies exists|a: int|
            0 <= a < self.entries@.len() && self.entries@[a].sid == sid by {
            assert(old_subs.contains_key(sid));
            let oa = choose|a: int| 0 <= a < old_entries.len() && old_entries[a].sid == sid;
            assert(oa != i);
            let a = if oa < i { oa } else { oa - 1 };
            assert(self.entries@[a] == old_entries[oa]);
        }
    }

    proof fn lemma_replaced(&self, old_entries: Seq<Entry>, old_subs: Map<u64, SubView>, i: int)
        requires
            0 <= i < old_entries.len(),
            self.entries@.len() == old_entries.len(),
            forall|k: int| 0 <= k < old_entries.len() && k != i ==> self.entries@[k] == old_entries[k],
            self.entries@[i].sid == old_entries[i].sid,
            self.subs@ == old_subs.insert(old_entries[i].sid, self.entries@[i].view()),
            forall|a: int, b: int|
                0 <= a < b < old_entries.len() ==> old_entries[a].sid < old_entries[b].sid,
            forall|a: int| 0 <= a < old_entries.len() ==> old_entries[a].sid < self.next_sid,
            forall|a: int|
                0 <= a < old_entries.len() ==> #[trigger] old_subs.contains_key(old_entries[a].sid)
                    && old_subs[old_entries[a].sid] == old_entries[a].view(),
            forall|sid: u64|
                #[trigger] old_subs.contains_key(sid) ==> exists|a: int|
                    0 <= a < old_entries.len() && old_entries[a].sid == sid,
        ensures
            self.wf(),
    {
        assert forall|a: int, b: int|
            0 <= a < b < self.entries@.len() implies self.entries@[a].sid < self.entries@[b].sid by {
            assert(self.entries@[a].sid == old_entries[a].sid);
            assert(self.entries@[b].sid == old_entries[b].sid);
        }
        assert forall|a: int| 0 <= a < self.entries@.len() implies self.entries@[a].sid < self.next_sid by {
            assert(self.entries@[a].sid == old_entries[a].sid);
        }
        assert forall|a: int| 0 <= a < self.entries@.len() implies #[trigger] self.subs@.contains_key(
            self.entries@[a].sid,
        ) && self.subs@[self.entries@[a].sid] == self.entries@[a].view() by {
            if a != i {
                assert(self.entries@[a] == old_entries[a]);
                assert(old_entries[a].sid != old_entries[i].sid) by {
                    if a < i {
                        assert(old_entries[a].sid < old_entries[i].sid);
                    } else {
                        assert(old_entries[i].sid < old_entries[a].sid);
                    }
                }
                assert(old_subs.contains_key(old_entries[a].sid));
            }
        }
        assert forall|sid: u64| #[trigger] self.subs@.contains_key(sid) implies exists|a: int|
            0 <= a < self.entries@.len() && self.entries@[a].sid == sid by {
            if sid == old_entries[i].sid {
                assert(self.entries@[i].sid == sid);
            } else {
                assert(old_subs.contains_key(sid));
                let a = choose|a: int| 0 <= a < old_entries.len() && old_entries[a].sid == sid;
                assert(a != i);
                assert(self.entries@[a] == old_entries[a]);
                assert(self.entries@[a].sid == sid);
            }
        }
    }
}

/// The registry after messages `ms` arrive for `sid`, in order.
pub open spec fn spec_dispatch_all(v: RegistryView, sid: u64, ms: Seq<Message>) -> RegistryView
    decreases ms.len(),
{
    if ms.len() == 0 {
        v
    } else {
        spec_dispatch_all(spec_dispatch(v, sid, ms[0]), sid, ms.drop_first())
    }
}

/// The messages that `n` successive reads on `sid` return, in order (reads
/// that find no message add nothing).
pub open spec fn spec_read_all(v: RegistryView, sid: u64, n: nat) -> Seq<Message>
    decreases n,
{
    if n == 0 {
        Seq::empty()
    } else {
        let first = match spec_next(v, sid) {
            Recv::Item(m) => seq![m],
            _ => Seq::empty(),
        };
        first + spec_read_all(spec_after_next(v, sid), sid, (n - 1) as nat)
    }
}

proof fn lemma_dispatch_all_open(v: RegistryView, sid: u64, ms: Seq<Message>)
    requires
        spec_live(v).contains(sid),
    ensures
        ({
            let w = spec_dispatch_all(v, sid, ms);
            &&& w.subs.contains_key(sid)
            &&& !w.subs[sid].queue.closed
            &&& w.subs[sid].queue.items == v.subs[sid].queue.items + ms
            &&& w.subs.remove(sid) == v.subs.remove(sid)
        }),
    decreases ms.len(),
{
    if ms.len() == 0 {
        assert(v.subs[sid].queue.items + ms =~= v.subs[sid].queue.items);
    } else {
        let v1 = spec_dispatch(v, sid, ms[0]);
        assert(spec_live(v1).contains(sid));
        lemma_dispatch_all_open(v1, sid, ms.drop_first());
        assert(v1.subs[sid].queue.items + ms.drop_first() =~= v.subs[sid].queue.items + ms);
        assert(v1.subs.remove(sid) =~= v.subs.remove(sid));
    }
}

proof fn lemma_read_all_open(v: RegistryView, sid: u64, n: nat)
    requires
        v.subs.contains_key(sid),
        !v.subs[sid].queue.closed,
        n <= v.subs[sid].queue.items.len(),
    ensures
        spec_read_all(v, sid, n) == v.subs[sid].queue.items.subrange(0, n as int),
    decreases n,
{
    if n > 0 {
        let v1 = spec_after_next(v, sid);
        lemma_read_all_open(v1, sid, (n - 1) as nat);
        let items = v.subs[sid].queue.items;
        assert(v1.subs[sid].queue.items == items.drop_first());
        assert(seq![items[0]] + items.drop_first().subrange(0, n - 1) =~= items.subrange(0, n as int));
    } else {
        assert(v.subs[sid].queue.items.subrange(0, 0) =~= Seq::<Message>::empty());
    }
}

/// Messages for one live subscription are read back in the order they
/// arrived: after `ms` arrive on a live subscription with nothing queued,
/// `ms.len()` reads return exactly `ms`.
pub proof fn lemma_delivery_order(v: RegistryView, sid: u64, ms: Seq<Message>)
    requires
        spec_live(v).contains(sid),
        v.subs[sid].queue.items.len() == 0,
    ensures
        spec_read_all(spec_dispatch_all(v, sid, ms), sid, ms.len()) == ms,
{
    lemma_dispatch_all_open(v, sid, ms);
    let w = spec_dispatch_all(v, sid, ms);
    lemma_read_all_open(w, sid, ms.len());
    assert(v.subs[sid].queue.items + ms =~= ms);
    assert(ms.subrange(0, ms.len() as int) =~= ms);
}

/// The registry after `n` successive reads on `sid`.
pub open spec fn spec_after_reads(v: RegistryView, sid: u64, n: nat) -> RegistryView
    decreases n,
{
    if n == 0 {
        v
    } else {
        spec_after_reads(spec_after_next(v, sid), sid, (n - 1) as nat)
    }
}

/// Once `sid` is unregistered, a message for it changes nothing; each message
/// still queued is read in turn, and then reads report the end of the stream.
pub proof fn lemma_unregistered_is_inert(v: RegistryView, sid: u64, m: Message)
    ensures
        spec_dispatch(spec_unregister(v, sid), sid, m) == spec_unregister(v, sid),
        ({
            let w = spec_unregister(v, sid);
            let n = if w.subs.contains_key(sid) { w.subs[sid].queue.items.len() } else { 0 };
            &&& forall|k: nat| k < n ==> #[trigger] spec_next(spec_after_reads(w, sid, k), sid) is Item
            &&& spec_next(spec_after_reads(w, sid, n), sid) is Closed
        }),
{
    let w = spec_unregister(v, sid);
    if v.subs.contains_key(sid) {
        assert(w.subs.insert(sid, w.subs[sid]) =~= w.subs);
    }
    let n = if w.subs.contains_key(sid) { w.subs[sid].queue.items.len() } else { 0 };
    assert forall|k: nat| k < n implies #[trigger] spec_next(spec_after_reads(w, sid, k), sid) is Item by {
        lemma_reads_closed(w, sid, k);
    }
    lemma_reads_closed(w, sid, n);
}

proof fn lemma_reads_closed(w: RegistryView, sid: u64, k: nat)
    requires
        w.subs.contains_key(sid) ==> w.subs[sid].queue.closed && k <= w.subs[sid].queue.items.len(),
    ensures
        ({
            let u = spec_after_reads(w, sid, k);
            if w.subs.contains_key(sid) {
                &&& u.subs.contains_key(sid)
                &&& u.subs[sid].queue.closed
                &&& u.subs[sid].queue.items.len() == w.subs[sid].queue.items.len() - k
            } else {
                !u.subs.contains_key(sid)
            }
        }),
    decreases k,
{
    if k > 0 {
        let w1 = spec_after_next(w, sid);
        lemma_reads_closed(w1, sid, (k - 1) as nat);
    }
}

/// A request that no responder answers registers its reply inbox, finds it
/// empty, and unregisters it: the set of live subscriptions is then the same
/// as before the request.
pub proof fn lemma_request_timeout_restores_live(
    v: RegistryView,
    inbox: Seq<u8>,
)
    requires
        forall|sid: u64| #[trigger] v.subs.contains_key(sid) ==> sid < v.next_sid,
    ensures
        spec_next(spec_register(v, inbox, None), v.next_sid) is Empty,
        spec_live(spec_unregister(spec_after_next(spec_register(v, inbox, None), v.next_sid), v.next_sid))
            == spec_live(v),
        spec_live(spec_unregister(spec_after_next(spec_register(v, inbox, None), v.next_sid), v.next_sid)).len()
            == spec_live(v).len(),
{
    let w = spec_unregister(spec_after_next(spec_register(v, inbox, None), v.next_sid), v.next_sid);
    assert(spec_live(w) =~= spec_live(v));
}

proof fn lemma_live_len(v: RegistryView, r: Seq<LiveSub>)
    requires
        forall|k: int| 0 <= k < r.len() ==> #[trigger] spec_live(v).contains(r[k].sid),
        forall|sid: u64| #[trigger] spec_live(v).contains(sid) ==> exists|k: int|
            0 <= k < r.len() && r[k].sid == sid,
        forall|a: int, b: int| 0 <= a < b < r.len() ==> r[a].sid < r[b].sid,
    ensures
        r.len() == spec_live(v).len(),
{
    let sids = r.map_values(|l: LiveSub| l.sid);
    assert(sids.no_duplicates()) by {
        assert forall|a: int, b: int| 0 <= a < sids.len() && 0 <= b < sids.len() && a != b implies sids[a] != sids[b] by {
            if a < b { assert(r[a].sid < r[b].sid); } else { assert(r[b].sid < r[a].sid); }
        }
    }
    assert(sids.to_set() =~= spec_live(v)) by {
        assert forall|sid: u64| sids.to_set().contains(sid) <==> spec_live(v).contains(sid) by {
            if spec_live(v).contains(sid) {
                let k = choose|k: int| 0 <= k < r.len() && r[k].sid == sid;
                assert(sids[k] == sid);
            }
            if sids.to_set().contains(sid) {
                let k = choose|k: int| 0 <= k < sids.len() && sids[k] == sid;
                assert(spec_live(v).contains(r[k].sid));
            }
        }
    }
    sids.unique_seq_to_set();
}

} // verus!
