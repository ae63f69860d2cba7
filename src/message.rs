//! Framing of the messages between the scheduler, its workers and the local
//! resource managers: a 4-byte big-endian length, then the payload.

use vstd::prelude::*;

verus! {

/// The largest payload a frame may carry: 16 MiB.
pub const MAX_FRAME_LEN: usize = 16777216;

/// Why a frame could not be written or read. A caller treats each as fatal
/// for its connection.
#[derive(Clone, Copy, Debug, PartialEq, Eq, Structural)]
pub enum WireError {
    /// The bytes end before the length prefix or the payload does.
    ShortRead,
    /// The payload is longer than `MAX_FRAME_LEN`.
    TooLong,
    /// The payload does not decode to a message.
    Malformed,
}

/// The big-endian bytes of `n`, which must be below 2^32.
pub open spec fn be32(n: nat) -> Seq<u8> {
    seq![
        (n / 16777216 % 256) as u8,
        (n / 65536 % 256) as u8,
        (n / 256 % 256) as u8,
        (n % 256) as u8,
    ]
}

/// The number that four big-endian bytes spell.
pub open spec fn be32_value(b: Seq<u8>) -> nat {
    (b[0] as nat) * 16777216 + (b[1] as nat) * 65536 + (b[2] as nat) * 256 + (b[3] as nat)
}

/// The frame of payload `p`.
pub open spec fn frame(p: Seq<u8>) -> Seq<u8> {
    be32(p.len()) + p
}

/// Frames `payload`, unless it is too long.
pub fn encode_frame(payload: &Vec<u8>) -> (r: Result<Vec<u8>, WireError>)
    ensures
        payload@.len() <= MAX_FRAME_LEN ==> r is Ok && r->Ok_0@ == frame(payload@),
        payload@.len() > MAX_FRAME_LEN ==> r == Err::<Vec<u8>, WireError>(WireError::TooLong),
{
    let n = payload.len();
    if n > MAX_FRAME_LEN {
        return Err(WireError::TooLong);
    }
    let mut out: Vec<u8> = Vec::with_capacity(n + 4);
    out.push((n / 16777216 % 256) as u8);
    out.push((n / 65536 % 256) as u8);
    out.push((n / 256 % 256) as u8);
    out.push((n % 256) as u8);
    assert(out@ =~= be32(n as nat));
    let mut i: usize = 0;
    while i < n
        invariant
            n == payload@.len(),
            i <= n,
            out@ == be32(n as nat) + payload@.take(i as int),
        decreases n - i,
    {
        out.push(payload[i]);
        i = i + 1;
        assert(payload@.take(i as int) =~= payload@.take((i - 1) as int).push(payload@[i - 1]));
        assert(out@ =~= be32(n as nat) + payload@.take(i as int));
    }
    assert(payload@.take(n as int) =~= payload@);
    Ok(out)
}

/// Reads the frame at the start of `buf`: its payload, and how many bytes
/// the frame takes.
pub fn decode_frame(buf: &[u8]) -> (r: Result<(Vec<u8>, usize), WireError>)
    ensures
        buf@.len() < 4 ==> r == Err::<(Vec<u8>, usize), WireError>(WireError::ShortRead),
        buf@.len() >= 4 ==> {
            let n = be32_value(buf@);
            &&& n > MAX_FRAME_LEN ==> r == Err::<(Vec<u8>, usize), WireError>(WireError::TooLong)
            &&& n <= MAX_FRAME_LEN && buf@.len() < 4 + n ==> r == Err::<(Vec<u8>, usize), WireError>(
                WireError::ShortRead,
            )
            &&& n <= MAX_FRAME_LEN && buf@.len() >= 4 + n ==> r is Ok && r->Ok_0.0@ == buf@.subrange(4, 4 + n as int)
                && r->Ok_0.1 == 4 + n
        },
{
    if buf.len() < 4 {
        return Err(WireError::ShortRead);
    }
    let n: usize = (buf[0] as usize) * 16777216 + (buf[1] as usize) * 65536 + (buf[2] as usize) * 256
        + (buf[3] as usize);
    if n > MAX_FRAME_LEN {
        return Err(WireError::TooLong);
    }
    if buf.len() - 4 < n {
        return Err(WireError::ShortRead);
    }
    let mut out: Vec<u8> = Vec::with_capacity(n);
    let mut i: usize = 0;
    while i < n
        invariant
            n <= MAX_FRAME_LEN,
            4 + n <= buf@.len(),
            i <= n,
            out@ == buf@.subrange(4, 4 + i),
        decreases n - i,
    {
        out.push(buf[4 + i]);
        i = i + 1;
        assert(out@ =~= buf@.subrange(4, 4 + i));
    }
    Ok((out, 4 + n))
}

/// Decoding the length prefix of a frame gives back the payload's length.
pub proof fn lemma_be32_round_trip(n: nat)
    requires
        n < 4294967296,
    ensures
        be32_value(be32(n)) == n,
{
    let b = be32(n);
    assert(b[0] as nat == n / 16777216 % 256);
    assert(b[1] as nat == n / 65536 % 256);
    assert(b[2] as nat == n / 256 % 256);
    assert(b[3] as nat == n % 256);
    assert((n / 16777216 % 256) * 16777216 + (n / 65536 % 256) * 65536 + (n / 256 % 256) * 256 + n % 256
        == n) by (nonlinear_arith)
        requires
            n < 4294967296,
    ;
}

/// A frame read back from the start of any byte stream gives the payload it
/// was written from, and the frame's length.
pub proof fn lemma_frame_round_trip(p: Seq<u8>, rest: Seq<u8>)
    requires
        p.len() <= MAX_FRAME_LEN,
    ensures
        be32_value(frame(p) + rest) == p.len(),
        (frame(p) + rest).subrange(4, 4 + p.len() as int) == p,
        (frame(p) + rest).len() >= 4 + p.len(),
{
    lemma_be32_round_trip(p.len());
    let s = frame(p) + rest;
    assert(s[0] == be32(p.len())[0] && s[1] == be32(p.len())[1] && s[2] == be32(p.len())[2] && s[3] == be32(
        p.len(),
    )[3]);
    assert(s.subrange(4, 4 + p.len() as int) =~= p);
}

} // verus!
