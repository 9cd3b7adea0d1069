use vstd::prelude::*;
use crate::message::{copy_bytes, opt_view};
use crate::proto::{crlf, decimal, opt_arg};

verus! {

/// An inbound frame, as byte strings.
pub enum InboundView {
    Info(Seq<u8>),
    Msg { subject: Seq<u8>, sid: nat, reply: Option<Seq<u8>>, payload: Seq<u8> },
    Ping,
    Pong,
    Okay,
    ServerErr(Seq<u8>),
}

/// What the front of a receive buffer holds.
pub enum ParsedView {
    /// More bytes are needed to tell.
    Incomplete,
    /// The buffer does not start with a well-formed frame.
    Invalid,
    /// A frame, and how many bytes it takes.
    Frame(InboundView, nat),
}

/// Index of the first CRLF at or after `i`.
pub open spec fn find_crlf(b: Seq<u8>, i: int) -> Option<int>
    decreases b.len() - i,
{
    if i < 0 || i + 1 >= b.len() {
        None
    } else if b[i] == 13 && b[i + 1] == 10 {
        Some(i)
    } else {
        find_crlf(b, i + 1)
    }
}

/// The pieces of `s` between single spaces (an empty piece where two spaces
/// meet or at either end).
pub open spec fn split_spaces(s: Seq<u8>) -> Seq<Seq<u8>>
    decreases s.len(),
{
    if s.len() == 0 {
        seq![Seq::empty()]
    } else {
        let rest = split_spaces(s.drop_first());
        if s[0] == 32 {
            seq![Seq::empty()] + rest
        } else {
            rest.update(0, seq![s[0]] + rest[0])
        }
    }
}

/// Value of the decimal digits `t`.
pub open spec fn digits_value(t: Seq<u8>) -> nat
    decreases t.len(),
{
    if t.len() == 0 {
        0
    } else {
        digits_value(t.drop_last()) * 10 + (t.last() - 48) as nat
    }
}

/// Longest decimal field accepted (keeps every value well inside 64 bits).
pub const MAX_DIGITS: usize = 18;

/// A number field: one to eighteen decimal digits.
pub open spec fn parse_number(t: Seq<u8>) -> Option<nat> {
    if 0 < t.len() <= MAX_DIGITS && forall|k: int| 0 <= k < t.len() ==> 48 <= #[trigger] t[k] <= 57 {
        Some(digits_value(t))
    } else {
        None
    }
}

/// `PING`
pub open spec fn word_ping() -> Seq<u8> {
    seq![80u8, 73u8, 78u8, 71u8]
}

/// `PONG`
pub open spec fn word_pong() -> Seq<u8> {
    seq![80u8, 79u8, 78u8, 71u8]
}

/// `+OK`
pub open spec fn word_ok() -> Seq<u8> {
    seq![43u8, 79u8, 75u8]
}

/// `-ERR `
pub open spec fn word_err() -> Seq<u8> {
    seq![45u8, 69u8, 82u8, 82u8, 32u8]
}

/// `INFO `
pub open spec fn word_info() -> Seq<u8> {
    seq![73u8, 78u8, 70u8, 79u8, 32u8]
}

/// `MSG `
pub open spec fn word_msg() -> Seq<u8> {
    seq![77u8, 83u8, 71u8, 32u8]
}

/// Whether `s` starts with `p`.
pub open spec fn has_prefix(s: Seq<u8>, p: Seq<u8>) -> bool {
    p.len() <= s.len() && s.subrange(0, p.len() as int) == p
}

/// A MSG frame whose control line ends at `i` with arguments `args`:
/// `<subject> <sid> [reply-to] <#bytes>`, then exactly that many payload
/// bytes and a CRLF. The byte count alone frames the payload.
pub open spec fn parse_msg(b: Seq<u8>, i: int, args: Seq<u8>) -> ParsedView {
    let toks = split_spaces(args);
    if toks.len() != 3 && toks.len() != 4 {
        ParsedView::Invalid
    } else {
        let subject = toks[0];
        let sid = parse_number(toks[1]);
        let reply = if toks.len() == 4 { Some(toks[2]) } else { None };
        let count = parse_number(toks[toks.len() - 1]);
        if subject.len() == 0 || sid is None || count is None || (toks.len() == 4 && toks[2].len()
            == 0) {
            ParsedView::Invalid
        } else {
            let n = count->0;
            let start = i + 2;
            if b.len() < start + n + 2 {
                ParsedView::Incomplete
            } else if b[start + n] == 13 && b[start + n + 1] == 10 {
                ParsedView::Frame(
                    InboundView::Msg {
                        subject,
                        sid: sid->0,
                        reply,
                        payload: b.subrange(start, start + n),
                    },
                    (start + n + 2) as nat,
                )
            } else {
                ParsedView::Invalid
            }
        }
    }
}

/// What the front of the receive buffer `b` holds.
pub open spec fn parse_frame(b: Seq<u8>) -> ParsedView {
    match find_crlf(b, 0) {
        None => ParsedView::Incomplete,
        Some(i) => {
            let line = b.subrange(0, i);
            let used = (i + 2) as nat;
            if line == word_ping() {
                ParsedView::Frame(InboundView::Ping, used)
            } else if line == word_pong() {
                ParsedView::Frame(InboundView::Pong, used)
            } else if line == word_ok() {
                ParsedView::Frame(InboundView::Okay, used)
            } else if has_prefix(line, word_err()) {
                ParsedView::Frame(InboundView::ServerErr(line.subrange(5, line.len() as int)), used)
            } else if has_prefix(line, word_info()) {
                ParsedView::Frame(InboundView::Info(line.subrange(5, line.len() as int)), used)
            } else if has_prefix(line, word_msg()) {
                parse_msg(b, i, line.subrange(4, line.len() as int))
            } else {
                ParsedView::Invalid
            }
        },
    }
}

/// An inbound frame.
#[derive(Debug)]
pub enum Inbound {
    Info(Vec<u8>),
    Msg { subject: Vec<u8>, sid: u64, reply: Option<Vec<u8>>, payload: Vec<u8> },
    Ping,
    Pong,
    Okay,
    ServerErr(Vec<u8>),
}

/// What the front of a receive buffer holds.
#[derive(Debug)]
pub enum Parsed {
    /// More bytes are needed to tell.
    Incomplete,
    /// The buffer does not start with a well-formed frame.
    Invalid,
    /// A frame, and how many bytes of the buffer it takes.
    Frame(Inbound, usize),
}

impl View for Inbound {
    type V = InboundView;

    open spec fn view(&self) -> InboundView {
        match self {
            Inbound::Info(x) => InboundView::Info(x@),
            Inbound::Msg { subject, sid, reply, payload } => InboundView::Msg {
                subject: subject@,
                sid: *sid as nat,
                reply: opt_view(*reply),
                payload: payload@,
            },
            Inbound::Ping => InboundView::Ping,
            Inbound::Pong => InboundView::Pong,
            Inbound::Okay => InboundView::Okay,
            Inbound::ServerErr(x) => InboundView::ServerErr(x@),
        }
    }
}

impl View for Parsed {
    type V = ParsedView;

    open spec fn view(&self) -> ParsedView {
        match self {
            Parsed::Incomplete => ParsedView::Incomplete,
            Parsed::Invalid => ParsedView::Invalid,
            Parsed::Frame(f, n) => ParsedView::Frame(f@, *n as nat),
        }
    }
}

fn locate_crlf(b: &[u8]) -> (r: Option<usize>)
    ensures
        match r {
            Some(i) => find_crlf(b@, 0) == Some(i as int),
            None => find_crlf(b@, 0) is None,
        },
{
    let mut i: usize = 0;
    while b.len() - i > 1
        invariant
            i <= b@.len(),
            find_crlf(b@, 0) == find_crlf(b@, i as int),
        decreases b@.len() - i,
    {
        if b[i] == 13 && b[i + 1] == 10 {
            return Some(i);
        }
        i = i + 1;
    }
    None
}

fn copy_range(b: &[u8], lo: usize, hi: usize) -> (r: Vec<u8>)
    requires
        lo <= hi <= b@.len(),
    ensures
        r@ == b@.subrange(lo as int, hi as int),
{
    let mut r: Vec<u8> = Vec::new();
    let mut i: usize = lo;
    while i < hi
        invariant
            lo <= i <= hi,
            hi <= b@.len(),
            r@ == b@.subrange(lo as int, i as int),
        decreases hi - i,
    {
        r.push(b[i]);
        i = i + 1;
        assert(r@ =~= b@.subrange(lo as int, i as int));
    }
    r
}

/// Whether `b[lo..hi]` equals `w`.
fn range_is(b: &[u8], lo: usize, hi: usize, w: &[u8]) -> (r: bool)
    requires
        lo <= hi <= b@.len(),
    ensures
        r == (b@.subrange(lo as int, hi as int) == w@),
{
    if hi - lo != w.len() {
        assert(b@.subrange(lo as int, hi as int).len() != w@.len());
        return false;
    }
    let mut k: usize = 0;
    while k < w.len()
        invariant
            k <= w@.len(),
            hi - lo == w@.len(),
            lo <= hi <= b@.len(),
            forall|j: int| 0 <= j < k ==> b@[lo + j] == w@[j],
        decreases w@.len() - k,
    {
        if b[lo + k] != w[k] {
            assert(b@.subrange(lo as int, hi as int)[k as int] != w@[k as int]);
            return false;
        }
        k = k + 1;
    }
    assert(b@.subrange(lo as int, hi as int) =~= w@);
    true
}

proof fn lemma_split_nonempty(s: Seq<u8>)
    ensures
        split_spaces(s).len() >= 1,
    decreases s.len(),
{
    if s.len() > 0 {
        lemma_split_nonempty(s.drop_first());
    }
}

/// Splits `s` at single spaces.
pub fn split_at_spaces(s: &[u8]) -> (r: Vec<Vec<u8>>)
    ensures
        r@.map_values(|t: Vec<u8>| t@) == split_spaces(s@),
{
    let mut toks: Vec<Vec<u8>> = Vec::new();
    toks.push(Vec::new());
    let mut i: usize = s.len();
    assert(s@.subrange(i as int, s@.len() as int) =~= Seq::<u8>::empty());
    assert(toks@.map_values(|t: Vec<u8>| t@) =~= seq![Seq::<u8>::empty()]);
    while i > 0
        invariant
            i <= s@.len(),
            toks@.map_values(|t: Vec<u8>| t@) == split_spaces(s@.subrange(i as int, s@.len() as int)),
        decreases i,
    {
        let ghost tail = s@.subrange(i as int, s@.len() as int);
        let ghost whole = s@.subrange(i - 1, s@.len() as int);
        assert(whole.drop_first() =~= tail);
        assert(whole[0] == s@[i - 1]);
        proof { lemma_split_nonempty(tail); }
        let c = s[i - 1];
        let ghost before = toks@.map_values(|t: Vec<u8>| t@);
        if c == 32 {
            toks.insert(0, Vec::new());
            assert(toks@.map_values(|t: Vec<u8>| t@) =~= seq![Seq::<u8>::empty()] + before);
        } else {
            let ghost old_toks = toks@;
            let mut t = toks.remove(0);
            assert(t@ == before[0]);
            t.insert(0, c);
            assert(t@ =~= seq![c] + before[0]);
            toks.insert(0, t);
            assert(toks@ =~= old_toks.update(0, t));
            assert(toks@.map_values(|t: Vec<u8>| t@) =~= before.update(0, seq![c] + before[0]));
        }
        i = i - 1;
    }
    assert(s@.subrange(0, s@.len() as int) =~= s@);
    toks
}

/// Ten to the `k`.
pub open spec fn pow10(k: nat) -> nat
    decreases k,
{
    if k == 0 {
        1
    } else {
        10 * pow10((k - 1) as nat)
    }
}

/// Reads a number field.
pub fn parse_decimal(t: &[u8]) -> (r: Option<u64>)
    ensures
        match r {
            Some(v) => parse_number(t@) == Some(v as nat),
            None => parse_number(t@) is None,
        },
{
    if t.len() == 0 || t.len() > MAX_DIGITS {
        return None;
    }
    let mut v: u64 = 0;
    let mut k: usize = 0;
    proof {
        reveal_with_fuel(pow10, 19);
        assert(pow10(18) == 1000000000000000000);
    }
    while k < t.len()
        invariant
            0 < t@.len() <= 18,
            k <= t@.len(),
            forall|j: int| 0 <= j < k ==> 48 <= #[trigger] t@[j] <= 57,
            v as nat == digits_value(t@.subrange(0, k as int)),
            v < pow10(k as nat),
            pow10(18) == 1000000000000000000,
        decreases t@.len() - k,
    {
        let d = t[k];
        if d < 48 || d > 57 {
            assert(!(48 <= t@[k as int] <= 57));
            return None;
        }
        proof {
            lemma_pow10_mono(k as nat + 1, 18);
            assert(v * 10 + (d - 48) < pow10(k as nat + 1)) by (nonlinear_arith)
                requires
                    v < pow10(k as nat),
                    pow10(k as nat + 1) == 10 * pow10(k as nat),
                    d - 48 <= 9,
            ;
            let sub = t@.subrange(0, k as int + 1);
            assert(sub.drop_last() =~= t@.subrange(0, k as int));
        }
        v = v * 10 + (d - 48) as u64;
        k = k + 1;
    }
    assert(t@.subrange(0, t@.len() as int) =~= t@);
    Some(v)
}

proof fn lemma_pow10_mono(a: nat, b: nat)
    requires
        a <= b,
    ensures
        pow10(a) <= pow10(b),
    decreases b,
{
    if a < b {
        lemma_pow10_mono(a, (b - 1) as nat);
    }
}

proof fn lemma_find_crlf_bounds(b: Seq<u8>, j: int)
    ensures
        match find_crlf(b, j) {
            Some(i) => 0 <= j <= i && i + 1 < b.len() && b[i] == 13 && b[i + 1] == 10,
            None => true,
        },
    decreases b.len() - j,
{
    if !(j < 0 || j + 1 >= b.len()) && !(b[j] == 13 && b[j + 1] == 10) {
        lemma_find_crlf_bounds(b, j + 1);
    }
}

/// Whether the control line `b[0..i]` starts with `w`, as `has_prefix` says.
fn line_has_prefix(b: &[u8], i: usize, w: &[u8]) -> (r: bool)
    requires
        i <= b@.len(),
    ensures
        r == has_prefix(b@.subrange(0, i as int), w@),
{
    if i < w.len() {
        return false;
    }
    let r = range_is(b, 0, w.len(), w);
    assert(b@.subrange(0, i as int).subrange(0, w@.len() as int) =~= b@.subrange(0, w@.len() as int));
    r
}

fn decode_msg(b: &[u8], i: usize) -> (r: Parsed)
    requires
        4 <= i,
        i + 1 < b@.len(),
    ensures
        r@ == parse_msg(b@, i as int, b@.subrange(0, i as int).subrange(4, i as int)),
{
    let args = copy_range(b, 4, i);
    assert(args@ =~= b@.subrange(0, i as int).subrange(4, i as int));
    let toks = split_at_spaces(args.as_slice());
    let ghost tv = toks@.map_values(|t: Vec<u8>| t@);
    assert(tv == split_spaces(args@));
    let nt = toks.len();
    if nt != 3 && nt != 4 {
        return Parsed::Invalid;
    }
    assert(toks@[0]@ == tv[0]);
    assert(toks@[1]@ == tv[1]);
    assert(toks@[nt - 1]@ == tv[nt - 1]);
    let sid = parse_decimal(toks[1].as_slice());
    let count = parse_decimal(toks[nt - 1].as_slice());
    let reply_empty = if nt == 4 {
        assert(toks@[2]@ == tv[2]);
        toks[2].len() == 0
    } else {
        false
    };
    if toks[0].len() == 0 || sid.is_none() || count.is_none() || reply_empty {
        return Parsed::Invalid;
    }
    let n = count.unwrap();
    let blen = b.len();
    let start = i + 2;
    let avail = blen - start;
    if n > avail as u64 || avail - (n as usize) < 2 {
        return Parsed::Incomplete;
    }
    let nu = n as usize;
    if b[start + nu] == 13 && b[start + nu + 1] == 10 {
        let subject = copy_bytes(toks[0].as_slice());
        let reply = if nt == 4 {
            assert(toks@[2]@ == tv[2]);
            Some(copy_bytes(toks[2].as_slice()))
        } else {
            None
        };
        let payload = copy_range(b, start, start + nu);
        Parsed::Frame(Inbound::Msg { subject, sid: sid.unwrap(), reply, payload }, start + nu + 2)
    } else {
        Parsed::Invalid
    }
}

/// Reads the frame at the front of the receive buffer `b`: `Incomplete`
/// while more bytes are needed, `Invalid` on a malformed frame, otherwise
/// the frame and how many bytes to drop from the buffer. A payload is
/// framed by its byte count alone, so it may hold any bytes, CRLF included.
pub fn decode(b: &[u8]) -> (r: Parsed)
    ensures
        r@ == parse_frame(b@),
{
    let i = match locate_crlf(b) {
        None => return Parsed::Incomplete,
        Some(i) => i,
    };
    proof { lemma_find_crlf_bounds(b@, 0); }
    let blen = b.len();
    assert(i + 2 <= blen);
    let used = i + 2;
    let ping = vec![80u8, 73u8, 78u8, 71u8];
    let pong = vec![80u8, 79u8, 78u8, 71u8];
    let ok = vec![43u8, 79u8, 75u8];
    let err = vec![45u8, 69u8, 82u8, 82u8, 32u8];
    let info = vec![73u8, 78u8, 70u8, 79u8, 32u8];
    let msg = vec![77u8, 83u8, 71u8, 32u8];
    assert(ping@ =~= word_ping());
    assert(pong@ =~= word_pong());
    assert(ok@ =~= word_ok());
    assert(err@ =~= word_err());
    assert(info@ =~= word_info());
    assert(msg@ =~= word_msg());
    if range_is(b, 0, i, ping.as_slice()) {
        Parsed::Frame(Inbound::Ping, used)
    } else if range_is(b, 0, i, pong.as_slice()) {
        Parsed::Frame(Inbound::Pong, used)
    } else if range_is(b, 0, i, ok.as_slice()) {
        Parsed::Frame(Inbound::Okay, used)
    } else if line_has_prefix(b, i, err.as_slice()) {
        let x = copy_range(b, 5, i);
        assert(x@ =~= b@.subrange(0, i as int).subrange(5, i as int));
        Parsed::Frame(Inbound::ServerErr(x), used)
    } else if line_has_prefix(b, i, info.as_slice()) {
        let x = copy_range(b, 5, i);
        assert(x@ =~= b@.subrange(0, i as int).subrange(5, i as int));
        Parsed::Frame(Inbound::Info(x), used)
    } else if line_has_prefix(b, i, msg.as_slice()) {
        decode_msg(b, i)
    } else {
        Parsed::Invalid
    }
}

/// `Authorization`
pub open spec fn reason_auth_violation() -> Seq<u8> {
    seq![65u8, 117u8, 116u8, 104u8, 111u8, 114u8, 105u8, 122u8, 97u8, 116u8, 105u8, 111u8, 110u8]
}

/// `Authentication`
pub open spec fn reason_auth_failure() -> Seq<u8> {
    seq![65u8, 117u8, 116u8, 104u8, 101u8, 110u8, 116u8, 105u8, 99u8, 97u8, 116u8, 105u8, 111u8, 110u8]
}

/// `Maximum Payload`
pub open spec fn reason_max_payload() -> Seq<u8> {
    seq![77u8, 97u8, 120u8, 105u8, 109u8, 117u8, 109u8, 32u8, 80u8, 97u8, 121u8, 108u8, 111u8, 97u8, 100u8]
}

/// `Secure Connection`
pub open spec fn reason_tls_required() -> Seq<u8> {
    seq![83u8, 101u8, 99u8, 117u8, 114u8, 101u8, 32u8, 67u8, 111u8, 110u8, 110u8, 101u8, 99u8, 116u8, 105u8, 111u8, 110u8]
}

/// The `-ERR` reason `r` without one pair of enclosing single quotes.
pub open spec fn unquoted(r: Seq<u8>) -> Seq<u8> {
    if r.len() >= 2 && r[0] == 39 && r[r.len() - 1] == 39 {
        r.subrange(1, r.len() - 1)
    } else {
        r
    }
}

/// Whether a `-ERR` reason means the connection must close: authorization
/// and authentication failures, a payload over the server's maximum, and a
/// required secure connection. Anything else (a slow consumer, a permission
/// denied on one subject) is reported and the connection goes on.
pub open spec fn is_fatal_reason(r: Seq<u8>) -> bool {
    let u = unquoted(r);
    has_prefix(u, reason_auth_violation()) || has_prefix(u, reason_auth_failure())
        || has_prefix(u, reason_max_payload()) || has_prefix(u, reason_tls_required())
}

/// Whether `b[lo..hi]` starts with `w`.
fn range_has_prefix(b: &[u8], lo: usize, hi: usize, w: &[u8]) -> (r: bool)
    requires
        lo <= hi <= b@.len(),
    ensures
        r == has_prefix(b@.subrange(lo as int, hi as int), w@),
{
    if hi - lo < w.len() {
        return false;
    }
    let r = range_is(b, lo, lo + w.len(), w);
    assert(b@.subrange(lo as int, hi as int).subrange(0, w@.len() as int) =~= b@.subrange(
        lo as int,
        lo + w@.len(),
    ));
    r
}

/// Classifies a `-ERR` reason as fatal or recoverable.
pub fn classify_error(reason: &[u8]) -> (fatal: bool)
    ensures
        fatal == is_fatal_reason(reason@),
{
    let n = reason.len();
    let (lo, hi) = if n >= 2 && reason[0] == 39 && reason[n - 1] == 39 {
        (1, n - 1)
    } else {
        (0, n)
    };
    assert(reason@.subrange(lo as int, hi as int) =~= unquoted(reason@));
    let w0 = vec![65u8, 117u8, 116u8, 104u8, 111u8, 114u8, 105u8, 122u8, 97u8, 116u8, 105u8, 111u8, 110u8];
    assert(w0@ =~= reason_auth_violation());
    let w1 = vec![65u8, 117u8, 116u8, 104u8, 101u8, 110u8, 116u8, 105u8, 99u8, 97u8, 116u8, 105u8, 111u8, 110u8];
    assert(w1@ =~= reason_auth_failure());
    let w2 = vec![77u8, 97u8, 120u8, 105u8, 109u8, 117u8, 109u8, 32u8, 80u8, 97u8, 121u8, 108u8, 111u8, 97u8, 100u8];
    assert(w2@ =~= reason_max_payload());
    let w3 = vec![83u8, 101u8, 99u8, 117u8, 114u8, 101u8, 32u8, 67u8, 111u8, 110u8, 110u8, 101u8, 99u8, 116u8, 105u8, 111u8, 110u8];
    assert(w3@ =~= reason_tls_required());
    range_has_prefix(reason, lo, hi, w0.as_slice()) || range_has_prefix(reason, lo, hi, w1.as_slice())
        || range_has_prefix(reason, lo, hi, w2.as_slice()) || range_has_prefix(
        reason,
        lo,
        hi,
        w3.as_slice(),
    )
}

/// Accumulates bytes read from the transport and hands out whole frames,
/// however the reads split them.
pub struct Decoder {
    buf: Vec<u8>,
}

impl View for Decoder {
    type V = Seq<u8>;

    closed spec fn view(&self) -> Seq<u8> {
        self.buf@
    }
}

impl Decoder {
    /// A decoder with nothing buffered.
    pub fn new() -> (d: Decoder)
        ensures
            d@ == Seq::<u8>::empty(),
    {
        Decoder { buf: Vec::new() }
    }

    /// Number of bytes buffered.
    pub fn buffered(&self) -> (n: usize)
        ensures
            n == self@.len(),
    {
        self.buf.len()
    }

    /// Appends bytes just read.
    pub fn feed(&mut self, bytes: &[u8])
        ensures
            final(self)@ == old(self)@ + bytes@,
    {
        let mut i: usize = 0;
        let ghost start = self.buf@;
        while i < bytes.len()
            invariant
                i <= bytes@.len(),
                self.buf@ == start + bytes@.subrange(0, i as int),
            decreases bytes@.len() - i,
        {
            self.buf.push(bytes[i]);
            i = i + 1;
            assert(self.buf@ =~= start + bytes@.subrange(0, i as int));
        }
        assert(bytes@.subrange(0, bytes@.len() as int) =~= bytes@);
    }

    /// Takes the next whole frame off the front of the buffer. On
    /// `Incomplete` or `Invalid` the buffer is left as it was.
    pub fn next_frame(&mut self) -> (r: Parsed)
        ensures
            r@ == parse_frame(old(self)@),
            match r@ {
                ParsedView::Frame(_, n) => n <= old(self)@.len() && final(self)@ == old(self)@.subrange(
                    n as int,
                    old(self)@.len() as int,
                ),
                _ => final(self)@ == old(self)@,
            },
    {
        let r = decode(self.buf.as_slice());
        match &r {
            Parsed::Frame(_, n) => {
                proof { lemma_frame_len(self.buf@); }
                let rest = copy_range(self.buf.as_slice(), *n, self.buf.len());
                self.buf = rest;
            },
            _ => {},
        }
        r
    }
}

/// A frame never claims more bytes than the buffer holds.
pub proof fn lemma_frame_len(b: Seq<u8>)
    ensures
        match parse_frame(b) {
            ParsedView::Frame(_, n) => n <= b.len(),
            _ => true,
        },
{
    lemma_find_crlf_bounds(b, 0);
}

proof fn lemma_find_crlf_extend(b: Seq<u8>, more: Seq<u8>, j: int)
    requires
        find_crlf(b, j) is Some,
    ensures
        find_crlf(b + more, j) == find_crlf(b, j),
    decreases b.len() - j,
{
    let c = b + more;
    if !(j < 0 || j + 1 >= b.len()) {
        assert(c[j] == b[j] && c[j + 1] == b[j + 1]);
        if !(b[j] == 13 && b[j + 1] == 10) {
            lemma_find_crlf_extend(b, more, j + 1);
        }
    }
}

/// Decoding is not disturbed by later reads: once the buffer holds a whole
/// frame, appending more bytes yields the same frame and the same length.
pub proof fn lemma_frame_stable(b: Seq<u8>, more: Seq<u8>)
    requires
        parse_frame(b) is Frame,
    ensures
        parse_frame(b + more) == parse_frame(b),
{
    let c = b + more;
    lemma_find_crlf_bounds(b, 0);
    lemma_find_crlf_extend(b, more, 0);
    let i = find_crlf(b, 0)->0;
    assert(c.subrange(0, i) =~= b.subrange(0, i));
    let line = b.subrange(0, i);
    if !(line == word_ping() || line == word_pong() || line == word_ok() || has_prefix(line, word_err())
        || has_prefix(line, word_info())) {
        let args = line.subrange(4, line.len() as int);
        let toks = split_spaces(args);
        if toks.len() == 3 || toks.len() == 4 {
            let count = parse_number(toks[toks.len() - 1]);
            if count is Some {
                let n = count->0;
                let start = i + 2;
                if b.len() >= start + n + 2 {
                    assert(c[start + n] == b[start + n]);
                    assert(c[start + n + 1] == b[start + n + 1]);
                    assert(c.subrange(start, start + n) =~= b.subrange(start, start + n));
                }
            }
        }
    }
}

/// A MSG frame as the server writes it.
pub open spec fn msg_frame(subject: Seq<u8>, sid: nat, reply: Option<Seq<u8>>, payload: Seq<u8>) -> Seq<u8> {
    word_msg() + subject + seq![32u8] + decimal(sid) + opt_arg(reply) + seq![32u8] + decimal(
        payload.len(),
    ) + crlf() + payload + crlf()
}

/// `s` holds no space, CR or LF byte.
pub open spec fn is_token(s: Seq<u8>) -> bool {
    forall|k: int| 0 <= k < s.len() ==> #[trigger] s[k] != 32 && s[k] != 13 && s[k] != 10
}

proof fn lemma_decimal(n: nat, k: nat)
    requires
        n < pow10(k),
        k >= 1,
    ensures
        is_token(decimal(n)),
        forall|j: int| 0 <= j < decimal(n).len() ==> 48 <= #[trigger] decimal(n)[j] <= 57,
        1 <= decimal(n).len() <= k,
        digits_value(decimal(n)) == n,
    decreases n,
{
    if n >= 10 {
        assert(n / 10 < pow10((k - 1) as nat)) by {
            if k == 1 {
                assert(pow10(1) == 10 * pow10(0));
            }
            assert(pow10(k) == 10 * pow10((k - 1) as nat));
        }
        if k == 1 {
            assert(pow10(1) == 10 * pow10(0));
            assert(false);
        }
        lemma_decimal(n / 10, (k - 1) as nat);
        let d = decimal(n);
        assert(d.drop_last() =~= decimal(n / 10));
        assert(d.last() == (48 + n % 10) as u8);
        assert(n == (n / 10) * 10 + n % 10);
        assert(digits_value(d) == digits_value(d.drop_last()) * 10 + (d.last() - 48) as nat);
    } else {
        let d = decimal(n);
        assert(d.drop_last() =~= Seq::<u8>::empty());
        assert(d.last() == (48 + n) as u8);
        assert(digits_value(d) == digits_value(d.drop_last()) * 10 + (d.last() - 48) as nat);
        assert(digits_value(Seq::<u8>::empty()) == 0);
    }
}

proof fn lemma_split_token(a: Seq<u8>)
    requires
        is_token(a),
    ensures
        split_spaces(a) == seq![a],
    decreases a.len(),
{
    if a.len() > 0 {
        lemma_split_token(a.drop_first());
        assert(a[0] != 32);
        assert(seq![a[0]] + a.drop_first() =~= a);
        assert(seq![a.drop_first()].update(0, seq![a[0]] + a.drop_first()) =~= seq![a]);
    } else {
        assert(a =~= Seq::<u8>::empty());
    }
}

proof fn lemma_split_join(a: Seq<u8>, b: Seq<u8>)
    requires
        is_token(a),
    ensures
        split_spaces(a + seq![32u8] + b) == seq![a] + split_spaces(b),
    decreases a.len(),
{
    let c = a + seq![32u8] + b;
    if a.len() == 0 {
        assert(a =~= Seq::<u8>::empty());
        assert(c.drop_first() =~= b);
        assert(seq![Seq::<u8>::empty()] + split_spaces(b) =~= seq![a] + split_spaces(b));
    } else {
        let a1 = a.drop_first();
        lemma_split_join(a1, b);
        assert(c.drop_first() =~= a1 + seq![32u8] + b);
        assert(c[0] == a[0]);
        assert(a[0] != 32);
        let rest = seq![a1] + split_spaces(b);
        assert(rest.update(0, seq![a[0]] + rest[0]) =~= seq![a] + split_spaces(b)) by {
            assert(seq![a[0]] + a1 =~= a);
        }
    }
}

proof fn lemma_find_crlf_after(line: Seq<u8>, rest: Seq<u8>, j: int)
    requires
        0 <= j <= line.len(),
        forall|k: int| 0 <= k < line.len() ==> #[trigger] line[k] != 13,
    ensures
        find_crlf(line + crlf() + rest, j) == Some(line.len() as int),
    decreases line.len() - j,
{
    let c = line + crlf() + rest;
    if j < line.len() {
        assert(c[j] == line[j]);
        lemma_find_crlf_after(line, rest, j + 1);
    } else {
        assert(c[j] == 13 && c[j + 1] == 10);
    }
}

proof fn lemma_args_tokens(subject: Seq<u8>, ds: Seq<u8>, reply: Option<Seq<u8>>, dn: Seq<u8>)
    requires
        is_token(subject),
        is_token(ds),
        is_token(dn),
        reply is Some ==> is_token(reply->0),
    ensures
        ({
            let args = subject + seq![32u8] + ds + opt_arg(reply) + seq![32u8] + dn;
            &&& forall|k: int| 0 <= k < args.len() ==> #[trigger] args[k] != 13
            &&& split_spaces(args) == match reply {
                Some(r) => seq![subject, ds, r, dn],
                None => seq![subject, ds, dn],
            }
        }),
{
    let args = subject + seq![32u8] + ds + opt_arg(reply) + seq![32u8] + dn;
    lemma_split_token(dn);
    match reply {
        Some(r) => {
            lemma_split_join(r, dn);
            assert(args =~= subject + seq![32u8] + (ds + seq![32u8] + (r + seq![32u8] + dn)));
            lemma_split_join(ds, r + seq![32u8] + dn);
            lemma_split_join(subject, ds + seq![32u8] + (r + seq![32u8] + dn));
            assert(seq![subject] + (seq![ds] + (seq![r] + seq![dn])) =~= seq![subject, ds, r, dn]);
            let t = subject + seq![32u8] + (ds + seq![32u8] + (r + seq![32u8] + dn));
            assert forall|k: int| 0 <= k < t.len() implies #[trigger] t[k] != 13 by {
                let l1 = subject.len() as int;
                let l2 = l1 + 1 + ds.len();
                let l3 = l2 + 1 + r.len();
                if k < l1 {
                    assert(t[k] == subject[k]);
                } else if k == l1 {
                } else if k < l2 {
                    assert(t[k] == ds[k - l1 - 1]);
                } else if k == l2 {
                } else if k < l3 {
                    assert(t[k] == r[k - l2 - 1]);
                } else if k == l3 {
                } else {
                    assert(t[k] == dn[k - l3 - 1]);
                }
            }
        },
        None => {
            assert(args =~= subject + seq![32u8] + (ds + seq![32u8] + dn));
            lemma_split_join(ds, dn);
            lemma_split_join(subject, ds + seq![32u8] + dn);
            assert(seq![subject] + (seq![ds] + seq![dn]) =~= seq![subject, ds, dn]);
            let t = subject + seq![32u8] + (ds + seq![32u8] + dn);
            assert forall|k: int| 0 <= k < t.len() implies #[trigger] t[k] != 13 by {
                let l1 = subject.len() as int;
                let l2 = l1 + 1 + ds.len();
                if k < l1 {
                    assert(t[k] == subject[k]);
                } else if k == l1 {
                } else if k < l2 {
                    assert(t[k] == ds[k - l1 - 1]);
                } else if k == l2 {
                } else {
                    assert(t[k] == dn[k - l2 - 1]);
                }
            }
        },
    }
}

/// A MSG frame written by the server decodes to its own subject, sid,
/// reply subject and payload, and takes exactly its own length, whatever the
/// payload bytes are and whatever follows it in the buffer.
pub proof fn lemma_msg_round_trip(
    subject: Seq<u8>,
    sid: nat,
    reply: Option<Seq<u8>>,
    payload: Seq<u8>,
    rest: Seq<u8>,
)
    requires
        subject.len() > 0,
        is_token(subject),
        reply is Some ==> reply->0.len() > 0 && is_token(reply->0),
        sid < pow10(18),
        payload.len() < pow10(18),
    ensures
        parse_frame(msg_frame(subject, sid, reply, payload) + rest) == ParsedView::Frame(
            InboundView::Msg { subject, sid, reply, payload },
            msg_frame(subject, sid, reply, payload).len(),
        ),
{
    lemma_decimal(sid, 18);
    lemma_decimal(payload.len(), 18);
    let ds = decimal(sid);
    let dn = decimal(payload.len());
    let args = subject + seq![32u8] + ds + opt_arg(reply) + seq![32u8] + dn;
    let line = word_msg() + args;
    let b = msg_frame(subject, sid, reply, payload) + rest;
    assert(b =~= line + crlf() + (payload + crlf() + rest));
    lemma_args_tokens(subject, ds, reply, dn);
    assert forall|k: int| 0 <= k < line.len() implies #[trigger] line[k] != 13 by {
        if k >= 4 {
            assert(line[k] == args[k - 4]);
        }
    }
    lemma_find_crlf_after(line, payload + crlf() + rest, 0);
    let i = line.len() as int;
    assert(b.subrange(0, i) =~= line);
    assert(line[0] == 77);
    assert(line != word_ping() && line != word_pong() && line != word_ok()) by {
        assert(word_ping()[0] == 80 && word_pong()[0] == 80 && word_ok()[0] == 43);
    }
    assert(!has_prefix(line, word_err())) by {
        if has_prefix(line, word_err()) {
            assert(line.subrange(0, 5)[0] == line[0]);
        }
    }
    assert(!has_prefix(line, word_info())) by {
        if has_prefix(line, word_info()) {
            assert(line.subrange(0, 5)[0] == line[0]);
        }
    }
    assert(has_prefix(line, word_msg())) by {
        assert(line.subrange(0, 4) =~= word_msg());
    }
    assert(line.subrange(4, line.len() as int) =~= args);
    let toks = split_spaces(args);
    assert(toks[toks.len() - 1] == dn);
    assert(parse_number(dn) == Some(payload.len()));
    assert(parse_number(ds) == Some(sid));
    let start = i + 2;
    let n = payload.len() as int;
    assert(b[start + n] == 13 && b[start + n + 1] == 10);
    assert(b.subrange(start, start + n) =~= payload);
}

} // verus!
