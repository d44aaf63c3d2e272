//! Length-prefixed framing, shared by both sockets.

use vstd::prelude::*;

verus! {

/// How many bytes announce the length of a message.
pub const PREFIX: usize = 4;

/// Four bytes, least significant first.
pub open spec fn little_endian(n: nat) -> Seq<u8> {
    seq![
        (n % 256) as u8,
        (n / 0x100 % 256) as u8,
        (n / 0x1_0000 % 256) as u8,
        (n / 0x100_0000 % 256) as u8,
    ]
}

/// A message as it goes over the wire: its length in four bytes, then itself.
/// A length beyond four bytes loses its upper digits.
pub open spec fn framed(body: Seq<u8>) -> Seq<u8> {
    little_endian(body.len()) + body
}

/// The length that a prefix announces.
pub open spec fn announced(prefix: Seq<u8>) -> nat {
    (prefix[0] + prefix[1] * 0x100 + prefix[2] * 0x1_0000 + prefix[3] * 0x100_0000) as nat
}

/// The bytes that announce a message of this length.
pub fn length_prefix(len: usize) -> (r: Vec<u8>)
    ensures
        r@ == little_endian(len as nat),
{
    let mut out: Vec<u8> = Vec::new();
    out.push((len % 256) as u8);
    out.push((len / 0x100 % 256) as u8);
    out.push((len / 0x1_0000 % 256) as u8);
    out.push((len / 0x100_0000 % 256) as u8);
    out
}

/// The bytes of a message with its length in front.
pub fn frame(body: &Vec<u8>) -> (r: Vec<u8>)
    ensures
        r@ == framed(body@),
{
    let mut out: Vec<u8> = length_prefix(body.len());
    let mut i: usize = 0;
    while i < body.len()
        invariant
            i <= body.len(),
            out@ == little_endian(body.len() as nat) + body@.take(i as int),
        decreases body.len() - i,
    {
        out.push(body[i]);
        i = i + 1;
        assert(out@ =~= little_endian(body.len() as nat) + body@.take(i as int));
    }
    assert(body@.take(i as int) =~= body@);
    out
}

/// How many bytes follow this prefix.
pub fn announced_length(prefix: [u8; 4]) -> (r: u32)
    ensures
        r == announced(prefix@),
{
    prefix[0] as u32 + prefix[1] as u32 * 0x100 + prefix[2] as u32 * 0x1_0000 + prefix[3] as u32
        * 0x100_0000
}

/// The first message of `bytes`, and how many bytes it takes up. `None` while
/// its length or its end is still to come.
pub fn unframe(bytes: &Vec<u8>) -> (r: Option<(Vec<u8>, usize)>)
    ensures
        match r {
            Some((body, used)) => {
                &&& bytes.len() >= 4 + announced(bytes@)
                &&& used == 4 + announced(bytes@)
                &&& body@ == bytes@.subrange(4, used as int)
            },
            None => bytes.len() < 4 || bytes.len() < 4 + announced(bytes@),
        },
{
    if bytes.len() < 4 {
        return None;
    }
    let n: u32 = announced_length([bytes[0], bytes[1], bytes[2], bytes[3]]);
    let available: usize = bytes.len() - 4;
    if (available as u64) < n as u64 {
        return None;
    }
    let end: usize = 4 + n as usize;
    let mut body: Vec<u8> = Vec::new();
    let mut i: usize = 4;
    while i < end
        invariant
            4 <= i <= end <= bytes.len(),
            body@ == bytes@.subrange(4, i as int),
        decreases end - i,
    {
        body.push(bytes[i]);
        i = i + 1;
        assert(body@ =~= bytes@.subrange(4, i as int));
    }
    Some((body, end))
}

/// What is written is what is read: a frame announces its own body, whatever
/// comes after it, up to four bytes of length.
pub proof fn lemma_unframe_frame(body: Seq<u8>, rest: Seq<u8>)
    requires
        body.len() < 0x1_0000_0000,
    ensures
        announced(framed(body) + rest) == body.len(),
        (framed(body) + rest).subrange(4, 4 + body.len() as int) == body,
{
    let bytes = framed(body) + rest;
    let n = body.len();
    assert(bytes[0] == n % 256);
    assert(bytes[1] == n / 0x100 % 256);
    assert(bytes[2] == n / 0x1_0000 % 256);
    assert(bytes[3] == n / 0x100_0000 % 256);
    assert(bytes.subrange(4, 4 + n as int) =~= body);
}

} // verus!
