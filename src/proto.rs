use vstd::prelude::*;
use crate::message::opt_view;

verus! {

/// Carriage return and line feed, ending every control line.
pub open spec fn crlf() -> Seq<u8> {
    seq![13u8, 10u8]
}

/// Decimal digits of `n`, most significant first, without leading zeros.
pub open spec fn decimal(n: nat) -> Seq<u8>
    decreases n,
{
    if n < 10 {
        seq![(48 + n) as u8]
    } else {
        decimal(n / 10).push((48 + n % 10) as u8)
    }
}

/// A space followed by `b`, or nothing.
pub open spec fn opt_arg(b: Option<Seq<u8>>) -> Seq<u8> {
    match b {
        Some(x) => seq![32u8] + x,
        None => Seq::empty(),
    }
}

/// `PUB <subject> [reply-to] <#bytes>\r\n<payload>\r\n`
pub open spec fn pub_frame(subject: Seq<u8>, reply: Option<Seq<u8>>, payload: Seq<u8>) -> Seq<u8> {
    seq![80u8, 85u8, 66u8, 32u8] + subject + opt_arg(reply) + seq![32u8] + decimal(payload.len())
        + crlf() + payload + crlf()
}

/// `SUB <subject> [queue-group] <sid>\r\n`
pub open spec fn sub_frame(subject: Seq<u8>, queue_group: Option<Seq<u8>>, sid: nat) -> Seq<u8> {
    seq![83u8, 85u8, 66u8, 32u8] + subject + opt_arg(queue_group) + seq![32u8] + decimal(sid)
        + crlf()
}

/// `UNSUB <sid> [max-messages]\r\n`
pub open spec fn unsub_frame(sid: nat, max: Option<nat>) -> Seq<u8> {
    seq![85u8, 78u8, 83u8, 85u8, 66u8, 32u8] + decimal(sid) + match max {
        Some(m) => seq![32u8] + decimal(m),
        None => Seq::empty(),
    } + crlf()
}

/// `PING\r\n`
pub open spec fn ping_frame() -> Seq<u8> {
    seq![80u8, 73u8, 78u8, 71u8] + crlf()
}

/// `PONG\r\n`
pub open spec fn pong_frame() -> Seq<u8> {
    seq![80u8, 79u8, 78u8, 71u8] + crlf()
}

/// `CONNECT <json-options>\r\n`
pub open spec fn connect_frame(options: Seq<u8>) -> Seq<u8> {
    seq![67u8, 79u8, 78u8, 78u8, 69u8, 67u8, 84u8, 32u8] + options + crlf()
}

/// Appends the decimal digits of `n`.
pub fn push_decimal(out: &mut Vec<u8>, n: u64)
    ensures
        final(out)@ == old(out)@ + decimal(n as nat),
    decreases n,
{
    if n >= 10 {
        push_decimal(out, n / 10);
    }
    out.push(48u8 + (n % 10) as u8);
    proof {
        if n < 10 {
            assert(final(out)@ =~= old(out)@ + decimal(n as nat)) by {
                assert(decimal(n as nat) == seq![(48 + n) as u8]);
            }
        }
    }
}

fn push_all(out: &mut Vec<u8>, b: &[u8])
    ensures
        final(out)@ == old(out)@ + b@,
{
    let mut i: usize = 0;
    let ghost start = out@;
    while i < b.len()
        invariant
            i <= b@.len(),
            out@ == start + b@.subrange(0, i as int),
        decreases b@.len() - i,
    {
        out.push(b[i]);
        i = i + 1;
        assert(out@ =~= start + b@.subrange(0, i as int));
    }
    assert(b@.subrange(0, b@.len() as int) =~= b@);
}

fn push_crlf(out: &mut Vec<u8>)
    ensures
        final(out)@ == old(out)@ + crlf(),
{
    out.push(13u8);
    out.push(10u8);
    assert(final(out)@ =~= old(out)@ + crlf());
}

fn push_opt_arg(out: &mut Vec<u8>, b: &Option<Vec<u8>>)
    ensures
        final(out)@ == old(out)@ + opt_arg(opt_view(*b)),
{
    match b {
        Some(x) => {
            out.push(32u8);
            push_all(out, x.as_slice());
            assert(final(out)@ =~= old(out)@ + (seq![32u8] + x@));
        },
        None => {
            assert(final(out)@ =~= old(out)@ + Seq::<u8>::empty());
        },
    }
}

/// Encodes a PUB frame.
pub fn encode_pub(subject: &[u8], reply: &Option<Vec<u8>>, payload: &[u8]) -> (r: Vec<u8>)
    ensures
        r@ == pub_frame(subject@, opt_view(*reply), payload@),
{
    let mut out: Vec<u8> = Vec::new();
    out.push(80u8);
    out.push(85u8);
    out.push(66u8);
    out.push(32u8);
    push_all(&mut out, subject);
    push_opt_arg(&mut out, reply);
    out.push(32u8);
    push_decimal(&mut out, payload.len() as u64);
    push_crlf(&mut out);
    push_all(&mut out, payload);
    push_crlf(&mut out);
    assert(out@ =~= pub_frame(subject@, opt_view(*reply), payload@));
    out
}

/// Encodes a SUB frame.
pub fn encode_sub(subject: &[u8], queue_group: &Option<Vec<u8>>, sid: u64) -> (r: Vec<u8>)
    ensures
        r@ == sub_frame(subject@, opt_view(*queue_group), sid as nat),
{
    let mut out: Vec<u8> = Vec::new();
    out.push(83u8);
    out.push(85u8);
    out.push(66u8);
    out.push(32u8);
    push_all(&mut out, subject);
    push_opt_arg(&mut out, queue_group);
    out.push(32u8);
    push_decimal(&mut out, sid);
    push_crlf(&mut out);
    assert(out@ =~= sub_frame(subject@, opt_view(*queue_group), sid as nat));
    out
}

/// Encodes an UNSUB frame, with the optional count of messages after which
/// the server drops the subscription by itself.
pub fn encode_unsub(sid: u64, max: Option<u64>) -> (r: Vec<u8>)
    ensures
        r@ == unsub_frame(
            sid as nat,
            match max {
                Some(m) => Some(m as nat),
                None => None,
            },
        ),
{
    let mut out: Vec<u8> = Vec::new();
    out.push(85u8);
    out.push(78u8);
    out.push(83u8);
    out.push(85u8);
    out.push(66u8);
    out.push(32u8);
    push_decimal(&mut out, sid);
    let ghost mid = out@;
    match max {
        Some(m) => {
            out.push(32u8);
            push_decimal(&mut out, m);
            assert(out@ =~= mid + (seq![32u8] + decimal(m as nat)));
        },
        None => {
            assert(out@ =~= mid + Seq::<u8>::empty());
        },
    }
    push_crlf(&mut out);
    assert(out@ =~= unsub_frame(
        sid as nat,
        match max {
            Some(m) => Some(m as nat),
            None => None,
        },
    ));
    out
}

/// Encodes a PING frame.
pub fn encode_ping() -> (r: Vec<u8>)
    ensures
        r@ == ping_frame(),
{
    let r = vec![80u8, 73u8, 78u8, 71u8, 13u8, 10u8];
    assert(r@ =~= ping_frame());
    r
}

/// Encodes a PONG frame.
pub fn encode_pong() -> (r: Vec<u8>)
    ensures
        r@ == pong_frame(),
{
    let r = vec![80u8, 79u8, 78u8, 71u8, 13u8, 10u8];
    assert(r@ =~= pong_frame());
    r
}

/// Encodes a CONNECT frame around already encoded options.
pub fn encode_connect(options: &[u8]) -> (r: Vec<u8>)
    ensures
        r@ == connect_frame(options@),
{
    let mut out = vec![67u8, 79u8, 78u8, 78u8, 69u8, 67u8, 84u8, 32u8];
    push_all(&mut out, options);
    push_crlf(&mut out);
    assert(out@ =~= connect_frame(options@));
    out
}

} // verus!
