//! The wire format: a four-byte big-endian length followed by the payload.

use vstd::prelude::*;
use vstd::slice::slice_subrange;

verus! {

/// Number of bytes the length prefix occupies at the start of a frame.
pub const PREFIX_LEN: usize = 4;

/// The longest payload a length prefix can describe.
pub const MAX_PAYLOAD_LEN: usize = 0xFFFF_FFFF;

/// The number that the first four bytes of `bytes` denote, most significant
/// byte first.
pub open spec fn be_value(bytes: Seq<u8>) -> nat
    recommends
        bytes.len() >= 4,
{
    (bytes[0] as nat) * 0x100_0000 + (bytes[1] as nat) * 0x1_0000 + (bytes[2] as nat) * 0x100
        + (bytes[3] as nat)
}

/// The four bytes that denote `n`, most significant byte first.
pub open spec fn be_bytes(n: nat) -> Seq<u8>
    recommends
        n <= u32::MAX,
{
    seq![
        (n / 0x100_0000) as u8,
        (n / 0x1_0000 % 0x100) as u8,
        (n / 0x100 % 0x100) as u8,
        (n % 0x100) as u8,
    ]
}

/// Whether a payload of `len` bytes can be framed: its length fits the prefix,
/// and the frame's length fits an address-sized integer.
pub open spec fn frameable(len: nat) -> bool {
    len <= u32::MAX && len + 4 <= usize::MAX
}

/// The frame that carries `payload`.
pub open spec fn framed(payload: Seq<u8>) -> Seq<u8> {
    be_bytes(payload.len()) + payload
}

/// Whether `buffer` is a frame: it starts with a prefix, and the prefix is
/// the exact number of bytes that follow it.
pub open spec fn is_frame(buffer: Seq<u8>) -> bool {
    buffer.len() >= 4 && be_value(buffer) + 4 == buffer.len()
}

/// What a frame carries: everything after the prefix.
pub open spec fn payload_of(buffer: Seq<u8>) -> Seq<u8>
    recommends
        buffer.len() >= 4,
{
    buffer.subrange(4, buffer.len() as int)
}

proof fn lemma_digits_of_number(n: int)
    requires
        0 <= n <= u32::MAX,
    ensures
        0 <= n / 0x100_0000 < 0x100,
        0 <= n / 0x1_0000 % 0x100 < 0x100,
        0 <= n / 0x100 % 0x100 < 0x100,
        0 <= n % 0x100 < 0x100,
        (n / 0x100_0000) * 0x100_0000 + (n / 0x1_0000 % 0x100) * 0x1_0000 + (n / 0x100 % 0x100)
            * 0x100 + n % 0x100 == n,
{
    let hi: int = n / 0x1_0000;
    let lo: int = n % 0x1_0000;
    assert(n == hi * 0x1_0000 + lo);
    assert(hi == (hi / 0x100) * 0x100 + hi % 0x100);
    assert(lo == (lo / 0x100) * 0x100 + lo % 0x100);
    assert(hi / 0x100 == n / 0x100_0000);
    assert(lo / 0x100 == n / 0x100 % 0x100);
    assert(lo % 0x100 == n % 0x100);
}

proof fn lemma_number_of_digits(b0: int, b1: int, b2: int, b3: int)
    requires
        0 <= b0 < 0x100,
        0 <= b1 < 0x100,
        0 <= b2 < 0x100,
        0 <= b3 < 0x100,
    ensures
        ({
            let n: int = b0 * 0x100_0000 + b1 * 0x1_0000 + b2 * 0x100 + b3;
            &&& 0 <= n <= u32::MAX
            &&& n / 0x100_0000 == b0
            &&& n / 0x1_0000 % 0x100 == b1
            &&& n / 0x100 % 0x100 == b2
            &&& n % 0x100 == b3
        }),
{
    let n: int = b0 * 0x100_0000 + b1 * 0x1_0000 + b2 * 0x100 + b3;
    let hi: int = b0 * 0x100 + b1;
    let lo: int = b2 * 0x100 + b3;
    assert(n == hi * 0x1_0000 + lo);
    assert(n / 0x1_0000 == hi);
    assert(n % 0x1_0000 == lo);
    assert(hi / 0x100 == b0 && hi % 0x100 == b1);
    assert(lo / 0x100 == b2 && lo % 0x100 == b3);
    assert(n / 0x100 == hi * 0x100 + b2);
    assert(n / 0x100_0000 == b0);
}

/// Writing a length as a prefix and reading it back gives the length.
pub proof fn lemma_prefix_round_trip(n: nat)
    requires
        n <= u32::MAX,
    ensures
        be_bytes(n).len() == 4,
        be_value(be_bytes(n)) == n,
{
    lemma_digits_of_number(n as int);
}

/// Four bytes are the prefix of the number they denote, and of no other.
pub proof fn lemma_prefix_unique(bytes: Seq<u8>)
    requires
        bytes.len() >= 4,
    ensures
        be_value(bytes) <= u32::MAX,
        be_bytes(be_value(bytes)) == bytes.subrange(0, 4),
{
    lemma_number_of_digits(bytes[0] as int, bytes[1] as int, bytes[2] as int, bytes[3] as int);
    assert(be_bytes(be_value(bytes)) =~= bytes.subrange(0, 4));
}

/// A frame occupies four bytes more than its payload, its first four bytes
/// read as a big-endian number give the payload's length, and taking the
/// payload out of the frame gives back the payload that went in.
pub proof fn lemma_framing(payload: Seq<u8>)
    requires
        payload.len() <= u32::MAX,
    ensures
        framed(payload).len() == payload.len() + 4,
        be_value(framed(payload)) == payload.len(),
        framed(payload).subrange(0, 4) == be_bytes(payload.len()),
        is_frame(framed(payload)),
        payload_of(framed(payload)) == payload,
{
    lemma_prefix_round_trip(payload.len());
    assert(framed(payload).subrange(0, 4) =~= be_bytes(payload.len()));
    assert(payload_of(framed(payload)) =~= payload);
}

/// Every frame is the frame of its own payload: a buffer that passes for a
/// frame cannot have been built from anything else.
pub proof fn lemma_frame_of_payload(buffer: Seq<u8>)
    requires
        is_frame(buffer),
    ensures
        payload_of(buffer).len() + 4 == buffer.len(),
        payload_of(buffer).len() <= u32::MAX,
        framed(payload_of(buffer)) == buffer,
{
    lemma_prefix_unique(buffer);
    assert(framed(payload_of(buffer)) =~= buffer);
}

/// The prefix for a payload of `len` bytes.
pub fn prefix_bytes(len: u32) -> (res: [u8; 4])
    ensures
        res@ == be_bytes(len as nat),
{
    let b0: u8 = (len / 0x100_0000) as u8;
    let b1: u8 = (len / 0x1_0000 % 0x100) as u8;
    let b2: u8 = (len / 0x100 % 0x100) as u8;
    let b3: u8 = (len % 0x100) as u8;
    let res: [u8; 4] = [b0, b1, b2, b3];
    proof {
        lemma_digits_of_number(len as int);
    }
    assert(res@ =~= be_bytes(len as nat));
    res
}

/// Reads the length that `buffer` announces in its first four bytes.
///
/// Returns `None` exactly when `buffer` is too short to hold a prefix.
pub fn prefix_value(buffer: &[u8]) -> (res: Option<u32>)
    ensures
        match res {
            Some(n) => buffer@.len() >= 4 && n == be_value(buffer@),
            None => buffer@.len() < 4,
        },
{
    if buffer.len() < 4 {
        return None;
    }
    let b0: u32 = buffer[0] as u32;
    let b1: u32 = buffer[1] as u32;
    let b2: u32 = buffer[2] as u32;
    let b3: u32 = buffer[3] as u32;
    proof {
        lemma_number_of_digits(b0 as int, b1 as int, b2 as int, b3 as int);
    }
    Some(b0 * 0x100_0000 + b1 * 0x1_0000 + b2 * 0x100 + b3)
}

/// The number of bytes occupied by the frame whose prefix `buffer` starts
/// with: the announced length plus the prefix itself.
///
/// Returns `None` exactly when `buffer` holds no prefix, or when the extent
/// does not fit an address-sized integer.
pub fn extent(buffer: &[u8]) -> (res: Option<usize>)
    ensures
        match res {
            Some(n) => buffer@.len() >= 4 && n == be_value(buffer@) + 4,
            None => buffer@.len() < 4 || be_value(buffer@) + 4 > usize::MAX,
        },
{
    match prefix_value(buffer) {
        None => None,
        Some(n) => {
            if n as u64 + 4 > usize::MAX as u64 {
                None
            } else {
                Some(n as usize + PREFIX_LEN)
            }
        },
    }
}

/// Whether `buffer` is a frame.
pub fn check(buffer: &[u8]) -> (res: bool)
    ensures
        res == is_frame(buffer@),
{
    let len: usize = buffer.len();
    match extent(buffer) {
        None => false,
        Some(n) => n == len,
    }
}

/// Builds the frame that carries `payload`.
///
/// Returns `None` exactly when the payload is too long to be framed.
pub fn wrap(payload: &[u8]) -> (res: Option<Vec<u8>>)
    ensures
        match res {
            Some(buffer) => frameable(payload@.len()) && buffer@ == framed(payload@),
            None => !frameable(payload@.len()),
        },
{
    let len: usize = payload.len();
    if len > MAX_PAYLOAD_LEN || len > usize::MAX - PREFIX_LEN {
        return None;
    }
    let prefix: [u8; 4] = prefix_bytes(len as u32);
    let mut buffer: Vec<u8> = Vec::with_capacity(len + PREFIX_LEN);
    buffer.push(prefix[0]);
    buffer.push(prefix[1]);
    buffer.push(prefix[2]);
    buffer.push(prefix[3]);
    buffer.extend_from_slice(payload);
    assert(buffer@ =~= framed(payload@));
    Some(buffer)
}

/// The payload of the frame in `buffer`.
///
/// Returns `None` exactly when `buffer` is not a frame.
pub fn payload(buffer: &[u8]) -> (res: Option<&[u8]>)
    ensures
        match res {
            Some(p) => is_frame(buffer@) && p@ == payload_of(buffer@),
            None => !is_frame(buffer@),
        },
{
    if check(buffer) {
        Some(slice_subrange(buffer, PREFIX_LEN, buffer.len()))
    } else {
        None
    }
}

} // verus!
