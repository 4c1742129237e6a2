//! Length-prefixed message framing.
//!
//! A frame is the length of its payload as four bytes, the least significant first, and then the
//! payload.
use vstd::prelude::*;

use crate::protocol::MAX_MESSAGE_SIZE;

verus! {

/// Why a frame was refused.
#[derive(Debug, Clone, Copy, PartialEq, Eq, Structural)]
pub enum FrameError {
    /// The announced payload is longer than the maximum.
    TooLarge { len: u32 },
}

/// A number as four bytes, the least significant first.
pub open spec fn length_bytes(n: nat) -> Seq<u8> {
    seq![
        (n % 256) as u8,
        (n / 256 % 256) as u8,
        (n / 0x1_0000 % 256) as u8,
        (n / 0x100_0000 % 256) as u8,
    ]
}

/// The number that four bytes stand for.
pub open spec fn length_of(b: Seq<u8>) -> nat {
    (b[0] + b[1] * 256 + b[2] * 0x1_0000 + b[3] * 0x100_0000) as nat
}

/// The frame of a payload.  The prefix holds the low 32 bits of the length.
pub open spec fn framed(payload: Seq<u8>) -> Seq<u8> {
    length_bytes(payload.len() % 0x1_0000_0000) + payload
}

/// What a length prefix asks the reader to do: read that many bytes, or refuse.
pub open spec fn announced(prefix: Seq<u8>) -> Result<usize, FrameError> {
    if length_of(prefix) > MAX_MESSAGE_SIZE {
        Err(FrameError::TooLarge { len: length_of(prefix) as u32 })
    } else {
        Ok(length_of(prefix) as usize)
    }
}

/// The bytes that carry `payload`.
pub fn frame(payload: &Vec<u8>) -> (r: Vec<u8>)
    ensures
        r@ == framed(payload@),
{
    let len: u64 = payload.len() as u64 % 0x1_0000_0000;
    let mut r: Vec<u8> = Vec::new();
    r.push((len % 256) as u8);
    r.push((len / 256 % 256) as u8);
    r.push((len / 0x1_0000 % 256) as u8);
    r.push((len / 0x100_0000 % 256) as u8);
    let mut i: usize = 0;
    while i < payload.len()
        invariant
            i <= payload.len(),
            r@ == length_bytes(payload@.len() % 0x1_0000_0000) + payload@.take(i as int),
        decreases payload.len() - i,
    {
        r.push(payload[i]);
        assert(payload@.take(i + 1) == payload@.take(i as int).push(payload@[i as int]));
        i = i + 1;
    }
    assert(payload@.take(payload@.len() as int) == payload@);
    r
}

/// The length of the payload that follows a prefix, unless it is too long.
pub fn payload_length(prefix: [u8; 4]) -> (r: Result<usize, FrameError>)
    ensures
        r == announced(prefix@),
{
    let len: u32 = prefix[0] as u32 + prefix[1] as u32 * 256 + prefix[2] as u32 * 0x1_0000
        + prefix[3] as u32 * 0x100_0000;
    if len as usize > MAX_MESSAGE_SIZE {
        Err(FrameError::TooLarge { len })
    } else {
        Ok(len as usize)
    }
}

/// What was framed is read back: the prefix announces the payload's length, and the bytes that
/// follow it are the payload.
pub proof fn law_frames_are_read_back(payload: Seq<u8>)
    requires
        payload.len() <= MAX_MESSAGE_SIZE,
    ensures
        announced(framed(payload).take(4)) == Ok::<usize, FrameError>(payload.len() as usize),
        framed(payload).skip(4) == payload,
{
    let n = payload.len();
    let b = framed(payload).take(4);
    assert(b =~= length_bytes(n));
    assert(n == n % 256 + (n / 256 % 256) * 256 + (n / 0x1_0000 % 256) * 0x1_0000 + (n / 0x100_0000
        % 256) * 0x100_0000);
    assert(framed(payload).skip(4) =~= payload);
}

/// A longer payload is refused, as long as its length fits the prefix.
pub proof fn law_long_frames_are_refused(payload: Seq<u8>)
    requires
        MAX_MESSAGE_SIZE < payload.len() < 0x1_0000_0000,
    ensures
        announced(framed(payload).take(4)) == Err::<usize, FrameError>(
            FrameError::TooLarge { len: payload.len() as u32 },
        ),
{
    let n = payload.len();
    let b = framed(payload).take(4);
    assert(b =~= length_bytes(n));
    assert(n == n % 256 + (n / 256 % 256) * 256 + (n / 0x1_0000 % 256) * 0x1_0000 + (n / 0x100_0000
        % 256) * 0x100_0000);
}

/// Lengths start with their least byte: one below 256 is its first byte, and 256 times as much
/// moves every byte one place on and starts with a zero.
pub proof fn law_lengths_start_with_the_least_byte(n: nat)
    requires
        n < 0x100_0000,
    ensures
        n < 256 ==> length_bytes(n) == seq![n as u8, 0u8, 0u8, 0u8],
        length_bytes(n * 256) == seq![0u8] + length_bytes(n).take(3),
        length_of(length_bytes(n)) == n,
{
    let (a, b) = (length_bytes(n * 256), seq![0u8] + length_bytes(n).take(3));
    assert(n * 256 / 256 == n);
    assert(n * 256 / 0x1_0000 == n / 256);
    assert(n * 256 / 0x100_0000 == n / 0x1_0000);
    assert(a =~= b);
}

} // verus!
