use vstd::prelude::*;

verus! {

/// Lifecycle phase of the one connection to the broker.
#[derive(Clone, Copy, Debug, PartialEq, Eq, Structural)]
pub enum Phase {
    Disconnected,
    Connecting,
    Connected,
    Reconnecting,
    Draining,
    Closed,
}

/// Something that happened to the connection, as reported by the I/O side.
#[derive(Clone, Copy, Debug, PartialEq, Eq, Structural)]
pub enum Event {
    /// The user asked to connect.
    ConnectRequested,
    /// A transport was opened and the handshake succeeded.
    HandshakeOk,
    /// Opening a transport or the handshake failed; `fatal` when the server
    /// refused for a reason that retrying cannot mend (authorization).
    HandshakeFailed { fatal: bool },
    /// The transport failed while in use.
    TransportFailed,
    /// The keepalive timer fired.
    PingTimer,
    /// A PONG arrived.
    Pong,
    /// The server sent `-ERR`; `fatal` as classified by the codec.
    ServerError { fatal: bool },
    /// The user asked for a graceful close.
    DrainRequested,
    /// Every subscription has been drained.
    DrainComplete,
    /// The user asked to close at once.
    CloseRequested,
}

/// What the I/O side must do next.
#[derive(Clone, Copy, Debug, PartialEq, Eq, Structural)]
pub enum Action {
    /// Open a transport to a server and perform the handshake.
    OpenTransport,
    /// Wait the backoff delay for this attempt before opening.
    Backoff { attempt: u32 },
    /// Send a PING.
    SendPing,
    /// Invoke the disconnect callback.
    NotifyDisconnected,
    /// Re-issue SUB for every live subscription, then send the buffered writes.
    Replay,
    /// Invoke the reconnect callback.
    NotifyReconnected,
    /// Flush, then drain every subscription.
    DrainSubscriptions,
    /// Shut the transport down and release every blocked reader.
    Shutdown,
    /// Invoke the close callback.
    NotifyClosed,
}

/// The connection's lifecycle state: phase, failed attempts in the current
/// (re)connect sequence and keepalive pings not yet answered, with their
/// ceilings.
#[derive(Clone, Copy, Debug, PartialEq, Eq, Structural)]
pub struct Lifecycle {
    pub phase: Phase,
    pub attempts: u32,
    pub max_attempts: u32,
    pub pings_out: u32,
    pub max_pings_out: u32,
}

/// Going to Closed: shut down and tell the close callback.
pub open spec fn spec_close(s: Lifecycle) -> (Lifecycle, Seq<Action>) {
    (Lifecycle { phase: Phase::Closed, attempts: 0, pings_out: 0, ..s }, seq![Action::Shutdown, Action::NotifyClosed])
}

/// Losing a live connection: tell the disconnect callback once and start
/// reconnecting.
pub open spec fn spec_lost(s: Lifecycle) -> (Lifecycle, Seq<Action>) {
    (
        Lifecycle { phase: Phase::Reconnecting, attempts: 0, pings_out: 0, ..s },
        seq![Action::NotifyDisconnected, Action::OpenTransport],
    )
}

/// The next state and the actions for event `e` in state `s`. Events that
/// do not apply to the current phase change nothing.
pub open spec fn spec_step(s: Lifecycle, e: Event) -> (Lifecycle, Seq<Action>) {
    match (s.phase, e) {
        (Phase::Closed, _) => (s, Seq::empty()),
        (_, Event::CloseRequested) => spec_close(s),
        (Phase::Disconnected, Event::ConnectRequested) => (
            Lifecycle { phase: Phase::Connecting, attempts: 0, pings_out: 0, ..s },
            seq![Action::OpenTransport],
        ),
        (Phase::Connecting, Event::HandshakeOk) => (
            Lifecycle { phase: Phase::Connected, attempts: 0, pings_out: 0, ..s },
            Seq::empty(),
        ),
        (Phase::Reconnecting, Event::HandshakeOk) => (
            Lifecycle { phase: Phase::Connected, attempts: 0, pings_out: 0, ..s },
            seq![Action::Replay, Action::NotifyReconnected],
        ),
        (Phase::Connecting, Event::HandshakeFailed { fatal })
        | (Phase::Reconnecting, Event::HandshakeFailed { fatal }) => if fatal || s.attempts + 1
            >= s.max_attempts {
            spec_close(s)
        } else {
            (
                Lifecycle { attempts: (s.attempts + 1) as u32, ..s },
                seq![Action::Backoff { attempt: (s.attempts + 1) as u32 }, Action::OpenTransport],
            )
        },
        (Phase::Connected, Event::TransportFailed) => spec_lost(s),
        (Phase::Connected, Event::PingTimer) => if s.pings_out >= s.max_pings_out {
            spec_lost(s)
        } else {
            (Lifecycle { pings_out: (s.pings_out + 1) as u32, ..s }, seq![Action::SendPing])
        },
        (Phase::Connected, Event::Pong) | (Phase::Draining, Event::Pong) => (
            Lifecycle { pings_out: 0, ..s },
            Seq::empty(),
        ),
        (Phase::Connected, Event::ServerError { fatal }) | (Phase::Draining, Event::ServerError { fatal })
        | (Phase::Reconnecting, Event::ServerError { fatal }) => if fatal {
            spec_close(s)
        } else {
            (s, Seq::empty())
        },
        (Phase::Connected, Event::DrainRequested) => (
            Lifecycle { phase: Phase::Draining, ..s },
            seq![Action::DrainSubscriptions],
        ),
        (Phase::Draining, Event::DrainComplete) => spec_close(s),
        (Phase::Draining, Event::TransportFailed) => spec_close(s),
        _ => (s, Seq::empty()),
    }
}

/// The state and all actions after the events `es`, in order.
pub open spec fn spec_run(s: Lifecycle, es: Seq<Event>) -> (Lifecycle, Seq<Action>)
    decreases es.len(),
{
    if es.len() == 0 {
        (s, Seq::empty())
    } else {
        let (s1, a1) = spec_step(s, es[0]);
        let (s2, a2) = spec_run(s1, es.drop_first());
        (s2, a1 + a2)
    }
}

/// How many times `a` occurs in `acts`.
pub open spec fn spec_count(acts: Seq<Action>, a: Action) -> nat
    decreases acts.len(),
{
    if acts.len() == 0 {
        0
    } else {
        (if acts[0] == a { 1nat } else { 0nat }) + spec_count(acts.drop_first(), a)
    }
}

/// `k` failed (non-fatal) reconnect attempts in a row.
pub open spec fn spec_failures(k: nat) -> Seq<Event> {
    Seq::new(k, |i: int| Event::HandshakeFailed { fatal: false })
}

proof fn lemma_count_append(a: Seq<Action>, b: Seq<Action>, x: Action)
    ensures
        spec_count(a + b, x) == spec_count(a, x) + spec_count(b, x),
    decreases a.len(),
{
    if a.len() > 0 {
        lemma_count_append(a.drop_first(), b, x);
        assert((a + b).drop_first() =~= a.drop_first() + b);
    } else {
        assert(a + b =~= b);
    }
}

proof fn lemma_count_two(p: Action, q: Action, x: Action)
    ensures
        spec_count(seq![p, q], x) == (if p == x { 1nat } else { 0nat }) + (if q == x { 1nat } else { 0nat }),
{
    let s = seq![p, q];
    assert(s.drop_first() =~= seq![q]);
    assert(s.drop_first().drop_first() =~= Seq::<Action>::empty());
    assert(spec_count(seq![q], x) == (if q == x { 1nat } else { 0nat }) + spec_count(Seq::<Action>::empty(), x));
}

proof fn lemma_run_one(s: Lifecycle, e: Event)
    ensures
        spec_run(s, seq![e]) == spec_step(s, e),
{
    let es = seq![e];
    assert(es.drop_first() =~= Seq::<Event>::empty());
    assert(es[0] == e);
    let (s1, x1) = spec_step(s, e);
    assert(spec_run(s1, es.drop_first()) == (s1, Seq::<Action>::empty()));
    assert(x1 + Seq::<Action>::empty() =~= x1);
}

proof fn lemma_run_append(s: Lifecycle, a: Seq<Event>, b: Seq<Event>)
    ensures
        spec_run(s, a + b) == ({
            let (s1, x1) = spec_run(s, a);
            let (s2, x2) = spec_run(s1, b);
            (s2, x1 + x2)
        }),
    decreases a.len(),
{
    if a.len() == 0 {
        assert(a + b =~= b);
        assert(Seq::<Action>::empty() + spec_run(s, b).1 =~= spec_run(s, b).1);
    } else {
        let (s1, x1) = spec_step(s, a[0]);
        assert((a + b).drop_first() =~= a.drop_first() + b);
        lemma_run_append(s1, a.drop_first(), b);
        let (s2, x2) = spec_run(s1, a.drop_first());
        let (s3, x3) = spec_run(s2, b);
        assert(x1 + (x2 + x3) =~= (x1 + x2) + x3);
    }
}

proof fn lemma_failures(s: Lifecycle, k: nat)
    requires
        s.phase == Phase::Reconnecting,
        s.attempts + k < s.max_attempts,
    ensures
        spec_run(s, spec_failures(k)).0 == (Lifecycle { attempts: (s.attempts + k) as u32, ..s }),
        spec_count(spec_run(s, spec_failures(k)).1, Action::NotifyDisconnected) == 0,
        spec_count(spec_run(s, spec_failures(k)).1, Action::Replay) == 0,
        spec_count(spec_run(s, spec_failures(k)).1, Action::NotifyReconnected) == 0,
    decreases k,
{
    if k > 0 {
        let s1 = Lifecycle { attempts: (s.attempts + 1) as u32, ..s };
        let x1 = seq![Action::Backoff { attempt: (s.attempts + 1) as u32 }, Action::OpenTransport];
        assert(spec_step(s, Event::HandshakeFailed { fatal: false }) == (s1, x1));
        assert(spec_failures(k).drop_first() =~= spec_failures((k - 1) as nat));
        lemma_failures(s1, (k - 1) as nat);
        let x2 = spec_run(s1, spec_failures((k - 1) as nat)).1;
        lemma_count_append(x1, x2, Action::NotifyDisconnected);
        lemma_count_append(x1, x2, Action::Replay);
        lemma_count_append(x1, x2, Action::NotifyReconnected);
        lemma_count_two(Action::Backoff { attempt: (s.attempts + 1) as u32 }, Action::OpenTransport, Action::NotifyDisconnected);
        lemma_count_two(Action::Backoff { attempt: (s.attempts + 1) as u32 }, Action::OpenTransport, Action::Replay);
        lemma_count_two(Action::Backoff { attempt: (s.attempts + 1) as u32 }, Action::OpenTransport, Action::NotifyReconnected);
    } else {
        assert(spec_failures(k) =~= Seq::<Event>::empty());
    }
}

/// A live connection whose transport fails, which then fails `k` reconnect
/// attempts (fewer than its ceiling) and succeeds on the next, ends up
/// connected again; over the whole outage the disconnect callback, the replay
/// of the live subscriptions and the reconnect callback each happen exactly
/// once.
pub proof fn lemma_reconnect_once(s: Lifecycle, k: nat)
    requires
        s.phase == Phase::Connected,
        k < s.max_attempts,
    ensures
        ({
            let es = seq![Event::TransportFailed] + spec_failures(k) + seq![Event::HandshakeOk];
            let (t, acts) = spec_run(s, es);
            &&& t.phase == Phase::Connected
            &&& t.attempts == 0
            &&& spec_count(acts, Action::NotifyDisconnected) == 1
            &&& spec_count(acts, Action::Replay) == 1
            &&& spec_count(acts, Action::NotifyReconnected) == 1
        }),
{
    let a = seq![Event::TransportFailed];
    let f = spec_failures(k);
    let b = seq![Event::HandshakeOk];
    lemma_run_append(s, a + f, b);
    lemma_run_append(s, a, f);
    let (s1, x1) = spec_lost(s);
    lemma_run_one(s, Event::TransportFailed);
    lemma_failures(s1, k);
    let (s2, x2) = spec_run(s1, f);
    let s3 = Lifecycle { phase: Phase::Connected, attempts: 0, pings_out: 0, ..s2 };
    let x3 = seq![Action::Replay, Action::NotifyReconnected];
    lemma_run_one(s2, Event::HandshakeOk);
    lemma_count_append(x1 + x2, x3, Action::NotifyDisconnected);
    lemma_count_append(x1 + x2, x3, Action::Replay);
    lemma_count_append(x1 + x2, x3, Action::NotifyReconnected);
    lemma_count_append(x1, x2, Action::NotifyDisconnected);
    lemma_count_append(x1, x2, Action::Replay);
    lemma_count_append(x1, x2, Action::NotifyReconnected);
    lemma_count_two(Action::NotifyDisconnected, Action::OpenTransport, Action::NotifyDisconnected);
    lemma_count_two(Action::NotifyDisconnected, Action::OpenTransport, Action::Replay);
    lemma_count_two(Action::NotifyDisconnected, Action::OpenTransport, Action::NotifyReconnected);
    lemma_count_two(Action::Replay, Action::NotifyReconnected, Action::NotifyDisconnected);
    lemma_count_two(Action::Replay, Action::NotifyReconnected, Action::Replay);
    lemma_count_two(Action::Replay, Action::NotifyReconnected, Action::NotifyReconnected);
}

/// Two to the `k`.
pub open spec fn pow2(k: nat) -> nat
    decreases k,
{
    if k == 0 {
        1
    } else {
        2 * pow2((k - 1) as nat)
    }
}

/// Delay before reconnect attempt `attempt`: `base` doubled for each
/// earlier failed attempt, never more than `cap`.
pub open spec fn backoff_delay(attempt: nat, base: nat, cap: nat) -> nat {
    let d = base * pow2(if attempt == 0 { 0 } else { (attempt - 1) as nat });
    if d < cap {
        d
    } else {
        cap
    }
}

/// The delay, in milliseconds, to wait before reconnect attempt `attempt`.
pub fn backoff_millis(attempt: u32, base: u64, cap: u64) -> (d: u64)
    ensures
        d == backoff_delay(attempt as nat, base as nat, cap as nat),
{
    let doublings: u32 = if attempt == 0 { 0 } else { attempt - 1 };
    let mut d: u64 = base;
    let mut k: u32 = 0;
    assert(doublings as nat == if attempt == 0 { 0 } else { (attempt - 1) as nat });
    assert(pow2(0) == 1);
    assert(d == base * pow2(0));
    while k < doublings && d < cap
        invariant
            k <= doublings,
            d == base * pow2(k as nat),
            doublings as nat == if attempt == 0 { 0 } else { (attempt - 1) as nat },
        decreases doublings - k,
    {
        proof {
            assert(pow2(k as nat + 1) == 2 * pow2(k as nat));
        }
        assert(base * pow2(k as nat + 1) == 2 * (base * pow2(k as nat))) by (nonlinear_arith)
            requires
                pow2(k as nat + 1) == 2 * pow2(k as nat),
        ;
        if cap - d <= d {
            assert(base * pow2(k as nat + 1) >= cap);
            proof { lemma_capped(base, k as nat + 1, doublings as nat, cap); }
            return cap;
        }
        d = d * 2;
        k = k + 1;
    }
    if d < cap {
        assert(k == doublings);
        d
    } else {
        proof { lemma_capped(base, k as nat, doublings as nat, cap); }
        cap
    }
}

proof fn lemma_pow2_mono(a: nat, b: nat)
    requires
        a <= b,
    ensures
        pow2(a) <= pow2(b),
    decreases b,
{
    if a < b {
        lemma_pow2_mono(a, (b - 1) as nat);
    }
}

proof fn lemma_capped(base: u64, k: nat, n: nat, cap: u64)
    requires
        k <= n,
        base * pow2(k) >= cap,
    ensures
        base * pow2(n) >= cap,
{
    lemma_pow2_mono(k, n);
    assert(base * pow2(k) <= base * pow2(n)) by (nonlinear_arith)
        requires
            pow2(k) <= pow2(n),
    ;
}

impl Lifecycle {
    /// A disconnected connection with the given ceilings on failed attempts
    /// and on unanswered pings.
    pub fn new(max_attempts: u32, max_pings_out: u32) -> (s: Lifecycle)
        ensures
            s == (Lifecycle {
                phase: Phase::Disconnected,
                attempts: 0,
                max_attempts,
                pings_out: 0,
                max_pings_out,
            }),
    {
        Lifecycle { phase: Phase::Disconnected, attempts: 0, max_attempts, pings_out: 0, max_pings_out }
    }

    fn close(&mut self) -> (acts: Vec<Action>)
        ensures
            (*final(self), acts@) == spec_close(*old(self)),
    {
        self.phase = Phase::Closed;
        self.attempts = 0;
        self.pings_out = 0;
        vec![Action::Shutdown, Action::NotifyClosed]
    }

    fn lost(&mut self) -> (acts: Vec<Action>)
        ensures
            (*final(self), acts@) == spec_lost(*old(self)),
    {
        self.phase = Phase::Reconnecting;
        self.attempts = 0;
        self.pings_out = 0;
        vec![Action::NotifyDisconnected, Action::OpenTransport]
    }

    /// Applies event `e` and returns the actions to perform, in order.
    pub fn step(&mut self, e: Event) -> (acts: Vec<Action>)
        ensures
            (*final(self), acts@) == spec_step(*old(self), e),
    {
        match (self.phase, e) {
            (Phase::Closed, _) => Vec::new(),
            (_, Event::CloseRequested) => self.close(),
            (Phase::Disconnected, Event::ConnectRequested) => {
                self.phase = Phase::Connecting;
                self.attempts = 0;
                self.pings_out = 0;
                vec![Action::OpenTransport]
            },
            (Phase::Connecting, Event::HandshakeOk) => {
                self.phase = Phase::Connected;
                self.attempts = 0;
                self.pings_out = 0;
                Vec::new()
            },
            (Phase::Reconnecting, Event::HandshakeOk) => {
                self.phase = Phase::Connected;
                self.attempts = 0;
                self.pings_out = 0;
                vec![Action::Replay, Action::NotifyReconnected]
            },
            (Phase::Connecting, Event::HandshakeFailed { fatal })
            | (Phase::Reconnecting, Event::HandshakeFailed { fatal }) => {
                if fatal || self.attempts >= self.max_attempts || self.attempts + 1 >= self.max_attempts {
                    self.close()
                } else {
                    self.attempts = self.attempts + 1;
                    vec![Action::Backoff { attempt: self.attempts }, Action::OpenTransport]
                }
            },
            (Phase::Connected, Event::TransportFailed) => self.lost(),
            (Phase::Connected, Event::PingTimer) => {
                if self.pings_out >= self.max_pings_out {
                    self.lost()
                } else {
                    self.pings_out = self.pings_out + 1;
                    vec![Action::SendPing]
                }
            },
            (Phase::Connected, Event::Pong) | (Phase::Draining, Event::Pong) => {
                self.pings_out = 0;
                Vec::new()
            },
            (Phase::Connected, Event::ServerError { fatal })
            | (Phase::Draining, Event::ServerError { fatal })
            | (Phase::Reconnecting, Event::ServerError { fatal }) => {
                if fatal {
                    self.close()
                } else {
                    Vec::new()
                }
            },
            (Phase::Connected, Event::DrainRequested) => {
                self.phase = Phase::Draining;
                vec![Action::DrainSubscriptions]
            },
            (Phase::Draining, Event::DrainComplete) => self.close(),
            (Phase::Draining, Event::TransportFailed) => self.close(),
            _ => Vec::new(),
        }
    }
}

} // verus!
