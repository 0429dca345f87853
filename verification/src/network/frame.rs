//! The frames of the wire protocols: a payload behind its length, which
//! is written as four bytes, the most significant first.

use vstd::prelude::*;

verus! {

/// The most bytes a payload may have.
pub const MAX_FRAME_BYTES: usize = 4194304;

/// The number that four bytes stand for, the most significant first.
pub open spec fn length_of(header: Seq<u8>) -> nat {
    (((header[0] as nat * 256 + header[1] as nat) * 256 + header[2] as nat) * 256
        + header[3] as nat) as nat
}

/// The four bytes that stand for the length of a payload, or `None` for
/// a length over `MAX_FRAME_BYTES`.
pub fn frame_header(length: usize) -> (header: Option<[u8; 4]>)
    ensures
        match header {
            Some(bytes) => length <= MAX_FRAME_BYTES && length_of(bytes@) == length,
            None => length > MAX_FRAME_BYTES,
        },
{
    if length > MAX_FRAME_BYTES {
        return None;
    }
    let bytes: [u8; 4] = [
        (length / 16777216) as u8,
        ((length / 65536) % 256) as u8,
        ((length / 256) % 256) as u8,
        (length % 256) as u8,
    ];
    Some(bytes)
}

/// The length that the four bytes before a payload announce, or `None`
/// where it is over `MAX_FRAME_BYTES`.
pub fn frame_length(header: &[u8; 4]) -> (length: Option<usize>)
    ensures
        match length {
            Some(n) => n == length_of(header@) && n <= MAX_FRAME_BYTES,
            None => length_of(header@) > MAX_FRAME_BYTES,
        },
{
    let n: u64 = ((header[0] as u64 * 256 + header[1] as u64) * 256 + header[2] as u64) * 256
        + header[3] as u64;
    if n > MAX_FRAME_BYTES as u64 {
        None
    } else {
        Some(n as usize)
    }
}

/// The frame that carries `payload`, or `None` for a payload of more than
/// `MAX_FRAME_BYTES` bytes.
pub fn encode_frame(payload: &[u8]) -> (frame: Option<Vec<u8>>)
    ensures
        match frame {
            Some(bytes) => {
                &&& payload@.len() <= MAX_FRAME_BYTES
                &&& bytes@.len() == 4 + payload@.len()
                &&& length_of(bytes@.subrange(0, 4)) == payload@.len()
                &&& bytes@.subrange(4, bytes@.len() as int) == payload@
            },
            None => payload@.len() > MAX_FRAME_BYTES,
        },
{
    let header = match frame_header(payload.len()) {
        Some(header) => header,
        None => {
            return None;
        },
    };
    let mut bytes: Vec<u8> = Vec::new();
    bytes.push(header[0]);
    bytes.push(header[1]);
    bytes.push(header[2]);
    bytes.push(header[3]);
    assert(bytes@.subrange(0, 4) =~= header@);
    let mut i: usize = 0;
    while i < payload.len()
        invariant
            i <= payload.len(),
            bytes@.len() == 4 + i,
            bytes@.subrange(0, 4) == header@,
            bytes@.subrange(4, 4 + i) == payload@.subrange(0, i as int),
        decreases payload.len() - i,
    {
        let ghost before = bytes@;
        bytes.push(payload[i]);
        assert(bytes@.subrange(0, 4) =~= before.subrange(0, 4));
        assert(bytes@.subrange(4, 4 + i + 1) =~= before.subrange(4, 4 + i).push(payload@[i as int]));
        assert(payload@.subrange(0, i + 1) =~= payload@.subrange(0, i as int).push(
            payload@[i as int],
        ));
        i += 1;
    }
    assert(payload@.subrange(0, i as int) =~= payload@);
    Some(bytes)
}

} // verus!
