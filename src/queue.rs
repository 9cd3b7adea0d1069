use vstd::prelude::*;

verus! {

/// What a delivery queue holds: the messages not yet taken, oldest first, and
/// whether the producer side has been closed.
pub struct QueueView<T> {
    pub items: Seq<T>,
    pub closed: bool,
}

/// The queue after a producer offers `x`: appended at the back while open,
/// dropped once closed.
pub open spec fn spec_push<T>(q: QueueView<T>, x: T) -> QueueView<T> {
    if q.closed {
        q
    } else {
        QueueView { items: q.items.push(x), closed: false }
    }
}

/// The queue after its oldest message, if any, is taken.
pub open spec fn spec_pop<T>(q: QueueView<T>) -> QueueView<T> {
    if q.items.len() == 0 {
        q
    } else {
        QueueView { items: q.items.drop_first(), closed: q.closed }
    }
}

/// The queue after the producer side is closed; queued messages stay.
pub open spec fn spec_close<T>(q: QueueView<T>) -> QueueView<T> {
    QueueView { items: q.items, closed: true }
}

/// The queue after offering each of `xs` in turn.
pub open spec fn spec_push_all<T>(q: QueueView<T>, xs: Seq<T>) -> QueueView<T>
    decreases xs.len(),
{
    if xs.len() == 0 {
        q
    } else {
        spec_push_all(spec_push(q, xs[0]), xs.drop_first())
    }
}

/// What `n` successive takes return, in order.
pub open spec fn spec_take<T>(q: QueueView<T>, n: nat) -> Seq<T>
    decreases n,
{
    if n == 0 || q.items.len() == 0 {
        Seq::empty()
    } else {
        seq![q.items[0]] + spec_take(spec_pop(q), (n - 1) as nat)
    }
}

/// Result of a read that does not wait.
#[derive(Debug)]
pub enum Recv<T> {
    /// The oldest queued message.
    Item(T),
    /// Nothing is queued yet, but more may come.
    Empty,
    /// Nothing is queued and nothing more will come.
    Closed,
}

/// The outcome a read gives on a queue in state `q`.
pub open spec fn spec_recv<T>(q: QueueView<T>) -> Recv<T> {
    if q.items.len() > 0 {
        Recv::Item(q.items[0])
    } else if q.closed {
        Recv::Closed
    } else {
        Recv::Empty
    }
}

/// The delivery queue of one subscription: a FIFO buffer filled by the reader
/// and drained by the consumer, which can be closed so that readers see the
/// end of the stream once everything queued has been taken.
pub struct SubscriptionReceiver<T> {
    items: std::collections::VecDeque<T>,
    closed: bool,
}

impl<T> View for SubscriptionReceiver<T> {
    type V = QueueView<T>;

    closed spec fn view(&self) -> QueueView<T> {
        QueueView { items: self.items@, closed: self.closed }
    }
}

impl<T> SubscriptionReceiver<T> {
    /// An open, empty queue.
    pub fn new() -> (r: Self)
        ensures
            r@.items == Seq::<T>::empty(),
            !r@.closed,
    {
        SubscriptionReceiver { items: std::collections::VecDeque::new(), closed: false }
    }

    /// Number of messages queued.
    pub fn len(&self) -> (n: usize)
        ensures
            n == self@.items.len(),
    {
        self.items.len()
    }

    /// Whether the producer side has been closed.
    pub fn is_closed(&self) -> (b: bool)
        ensures
            b == self@.closed,
    {
        self.closed
    }

    /// Offers a message: queued at the back while the queue is open, dropped
    /// once it is closed. Returns whether it was queued.
    pub fn push(&mut self, x: T) -> (queued: bool)
        ensures
            final(self)@ == spec_push(old(self)@, x),
            queued == !old(self)@.closed,
    {
        if self.closed {
            false
        } else {
            self.items.push_back(x);
            true
        }
    }

    /// Closes the producer side. Messages already queued can still be taken.
    pub fn close(&mut self)
        ensures
            final(self)@ == spec_close(old(self)@),
    {
        self.closed = true;
    }

    /// Takes the oldest message if there is one, telling an empty open queue
    /// apart from a closed and drained one.
    pub fn poll(&mut self) -> (r: Recv<T>)
        ensures
            r == spec_recv(old(self)@),
            final(self)@ == spec_pop(old(self)@),
    {
        match self.items.pop_front() {
            Some(x) => Recv::Item(x),
            None => if self.closed {
                Recv::Closed
            } else {
                Recv::Empty
            },
        }
    }

    /// Takes the oldest message, or `None` when nothing is queued, whether or
    /// not the queue is closed.
    pub fn try_recv(&mut self) -> (r: Option<T>)
        ensures
            final(self)@ == spec_pop(old(self)@),
            old(self)@.items.len() > 0 ==> r == Some(old(self)@.items[0]),
            old(self)@.items.len() == 0 ==> r is None,
    {
        self.items.pop_front()
    }

    /// Takes and drops everything queued; returns how many were dropped.
    pub fn discard_all(&mut self) -> (n: usize)
        ensures
            n == old(self)@.items.len(),
            final(self)@.items.len() == 0,
            final(self)@.closed == old(self)@.closed,
    {
        let mut n: usize = 0;
        let ghost start = self@;
        let total = self.items.len();
        while self.items.len() > 0
            invariant
                n + self@.items.len() == total,
                total == start.items.len(),
                self@.closed == start.closed,
            decreases self@.items.len(),
        {
            self.items.pop_front();
            n = n + 1;
        }
        n
    }
}

/// The queue after everything queued has been taken.
pub open spec fn spec_drain<T>(q: QueueView<T>) -> QueueView<T> {
    QueueView { items: Seq::empty(), closed: q.closed }
}

/// Messages offered to an open queue come out in the order they were offered:
/// after pushing `xs` onto an open empty queue, `xs.len()` takes return `xs`.
pub proof fn lemma_fifo_order<T>(xs: Seq<T>)
    ensures
        spec_take(spec_push_all(QueueView { items: Seq::empty(), closed: false }, xs), xs.len())
            == xs,
{
    lemma_push_all_open(QueueView { items: Seq::empty(), closed: false }, xs);
    lemma_take_all(spec_push_all(QueueView { items: Seq::empty(), closed: false }, xs).items, false);
    assert(Seq::<T>::empty() + xs =~= xs);
}

proof fn lemma_push_all_open<T>(q: QueueView<T>, xs: Seq<T>)
    requires
        !q.closed,
    ensures
        spec_push_all(q, xs) == (QueueView { items: q.items + xs, closed: false }),
    decreases xs.len(),
{
    if xs.len() > 0 {
        let q2 = spec_push(q, xs[0]);
        lemma_push_all_open(q2, xs.drop_first());
        assert(q2.items + xs.drop_first() =~= q.items + xs);
    } else {
        assert(q.items + xs =~= q.items);
    }
}

proof fn lemma_take_all<T>(s: Seq<T>, closed: bool)
    ensures
        spec_take(QueueView { items: s, closed }, s.len()) == s,
    decreases s.len(),
{
    if s.len() > 0 {
        lemma_take_all(s.drop_first(), closed);
        assert(seq![s[0]] + s.drop_first() =~= s);
    }
}

/// Once a queue is closed, offers leave it unchanged, and after everything
/// queued has been taken a read reports the end of the stream.
pub proof fn lemma_closed_drains_to_end<T>(q: QueueView<T>, x: T)
    ensures
        spec_push(spec_close(q), x) == spec_close(q),
        spec_recv(spec_drain(spec_close(q))) is Closed,
{
}

} // verus!
