use vstd::prelude::*;

verus! {

/// A message delivered on a subject: where it came from, where a reply should
/// go, and its payload bytes.
#[derive(Clone, Debug)]
pub struct Message {
    pub subject: Vec<u8>,
    pub reply: Option<Vec<u8>>,
    pub data: Vec<u8>,
}

impl Message {
    /// Builds a message from its parts.
    pub fn new(subject: Vec<u8>, reply: Option<Vec<u8>>, data: Vec<u8>) -> (m: Message)
        ensures
            m.subject == subject,
            m.reply == reply,
            m.data == data,
    {
        Message { subject, reply, data }
    }
}

/// The view of an optional byte string.
pub open spec fn opt_view(b: Option<Vec<u8>>) -> Option<Seq<u8>> {
    match b {
        Some(x) => Some(x@),
        None => None,
    }
}

/// A fresh copy of `b`.
pub fn copy_bytes(b: &[u8]) -> (r: Vec<u8>)
    ensures
        r@ == b@,
{
    let mut r: Vec<u8> = Vec::with_capacity(b.len());
    let mut i: usize = 0;
    while i < b.len()
        invariant
            i <= b@.len(),
            r@ == b@.subrange(0, i as int),
        decreases b@.len() - i,
    {
        r.push(b[i]);
        i = i + 1;
        assert(r@ =~= b@.subrange(0, i as int));
    }
    assert(r@ =~= b@);
    r
}

} // verus!
