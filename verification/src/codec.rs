//! The message codec: a message becomes a frame in shared memory, and a frame
//! in shared memory becomes a message.

use crate::error::GuestError;
use crate::frame::{frameable, framed, lemma_framing, payload_of, wrap, PREFIX_LEN};
use crate::memory::{GuestMemory, Handle};
use crate::message::{valid, WireMessage};
use vstd::prelude::*;
use vstd::slice::slice_subrange;

verus! {

/// The address in the outcome of an operation that gives a handle.
pub open spec fn address(res: Result<Handle, GuestError>) -> Result<usize, GuestError> {
    match res {
        Ok(handle) => Ok(handle@),
        Err(e) => Err(e),
    }
}

/// The content in the outcome of an operation that gives a message.
pub open spec fn content<M: WireMessage>(res: Result<M, GuestError>) -> Result<M::V, GuestError> {
    match res {
        Ok(message) => Ok(message@),
        Err(e) => Err(e),
    }
}

/// What framing `payload` into the shared memory `pre` leads to.
///
/// A payload too long for the prefix is refused; one for which shared memory
/// has no room fails the allocation; in both cases nothing changes. Otherwise
/// the frame of the payload becomes live at the frontier.
pub open spec fn placed(
    pre: GuestMemory,
    payload: Seq<u8>,
    post: GuestMemory,
    res: Result<usize, GuestError>,
) -> bool {
    if !frameable(payload.len()) {
        res == Err::<usize, GuestError>(GuestError::EncodeError) && post.same_as(pre)
    } else if !pre.has_room(payload.len() + 4) {
        res == Err::<usize, GuestError>(GuestError::AllocationFailure) && post.same_as(pre)
    } else {
        &&& res == Ok::<usize, GuestError>(pre.frontier() as usize)
        &&& !pre.live().contains_key(pre.frontier() as usize)
        &&& post.live() == pre.live().insert(pre.frontier() as usize, framed(payload))
        &&& post.frontier() == pre.frontier() + payload.len() + 4
        &&& post.limit() == pre.limit()
    }
}

/// Whether a message with the given content can be encoded into the shared
/// memory `pre`: the serializer accepts it, its payload can be framed, and
/// shared memory has room for the frame.
pub open spec fn encodable<M: WireMessage>(pre: GuestMemory, content: M::V) -> bool {
    M::wire(content) matches Some(payload) && frameable(payload.len()) && pre.has_room(
        payload.len() + 4,
    )
}

/// What encoding a message with the given content into the shared memory
/// `pre` leads to.
pub open spec fn encoded<M: WireMessage>(
    pre: GuestMemory,
    content: M::V,
    post: GuestMemory,
    res: Result<usize, GuestError>,
) -> bool {
    match M::wire(content) {
        Some(payload) => placed(pre, payload, post, res),
        None => res == Err::<usize, GuestError>(GuestError::EncodeError) && post.same_as(pre),
    }
}

/// What decoding the frame at `addr` in the shared memory `pre` leads to: the
/// frame is gone whether or not its payload was a message.
pub open spec fn decoded<M: WireMessage>(
    pre: GuestMemory,
    addr: usize,
    post: GuestMemory,
    res: Result<M::V, GuestError>,
) -> bool {
    &&& post.live() == pre.live().remove(addr)
    &&& post.frontier() == pre.frontier()
    &&& post.limit() == pre.limit()
    &&& match M::parse(payload_of(pre.live()[addr])) {
        Some(content) => res == Ok::<M::V, GuestError>(content),
        None => res == Err::<M::V, GuestError>(GuestError::DecodeError),
    }
}

/// Frames `payload`, moves the frame into shared memory, and returns
/// ownership of it.
///
/// Fails with [`GuestError::EncodeError`] exactly when the payload is too
/// long to be framed, and otherwise with [`GuestError::AllocationFailure`]
/// exactly when shared memory has no room for the frame. Nothing changes
/// when it fails.
pub fn place_frame(mem: &mut GuestMemory, payload: &[u8]) -> (res: Result<Handle, GuestError>)
    requires
        old(mem).wf(),
    ensures
        final(mem).wf(),
        final(mem).extends(*old(mem)),
        placed(*old(mem), payload@, *final(mem), address(res)),
        res is Ok ==> final(mem).frame_at(address(res)->Ok_0),
{
    match wrap(payload) {
        None => Err(GuestError::EncodeError),
        Some(buffer) => {
            proof {
                lemma_framing(payload@);
            }
            match mem.place(buffer) {
                None => Err(GuestError::AllocationFailure),
                Some(handle) => Ok(handle),
            }
        },
    }
}

/// Takes the frame that `handle` owns out of shared memory, frees it, and
/// returns its payload.
pub fn take_payload(mem: &mut GuestMemory, handle: Handle) -> (res: Vec<u8>)
    requires
        old(mem).wf(),
        old(mem).frame_at(handle@),
    ensures
        final(mem).wf(),
        res@ == payload_of(old(mem).live()[handle@]),
        final(mem).live() == old(mem).live().remove(handle@),
        final(mem).frontier() == old(mem).frontier(),
        final(mem).retired(handle@),
        final(mem).extends(*old(mem)),
{
    let buffer: Vec<u8> = mem.reclaim(handle);
    let body: &[u8] = slice_subrange(buffer.as_slice(), PREFIX_LEN, buffer.len());
    let mut payload: Vec<u8> = Vec::with_capacity(body.len());
    payload.extend_from_slice(body);
    assert(payload@ =~= body@);
    payload
}

/// Serializes `message`, frames it in shared memory, and returns ownership
/// of the frame.
///
/// Succeeds exactly when the message is encodable. The frame that is left in
/// shared memory then decodes to the message that went in. On failure
/// nothing changes.
pub fn encode<M: WireMessage>(mem: &mut GuestMemory, message: &M) -> (res: Result<
    Handle,
    GuestError,
>)
    requires
        old(mem).wf(),
    ensures
        final(mem).wf(),
        final(mem).extends(*old(mem)),
        encoded::<M>(*old(mem), message@, *final(mem), address(res)),
        res is Ok <==> encodable::<M>(*old(mem), message@),
        res matches Ok(handle) ==> {
            &&& valid::<M>(message@)
            &&& final(mem).frame_at(handle@)
            &&& M::parse(payload_of(final(mem).live()[handle@])) == Some(message@)
        },
{
    match message.serialize() {
        Err(e) => Err(e),
        Ok(payload) => {
            let res = place_frame(mem, payload.as_slice());
            proof {
                if res is Ok {
                    lemma_framing(payload@);
                }
            }
            res
        },
    }
}

/// Takes ownership of the frame at `handle`, frees it, and parses the
/// message it carried.
///
/// The handle must own a live frame. The frame is freed whether or not its
/// payload parses. Fails with [`GuestError::DecodeError`] exactly when the
/// payload is not a well-formed message of the expected kind.
pub fn decode<M: WireMessage>(mem: &mut GuestMemory, handle: Handle) -> (res: Result<M, GuestError>)
    requires
        old(mem).wf(),
        old(mem).frame_at(handle@),
    ensures
        final(mem).wf(),
        decoded::<M>(*old(mem), handle@, *final(mem), content(res)),
        final(mem).retired(handle@),
        final(mem).extends(*old(mem)),
{
    let payload: Vec<u8> = take_payload(mem, handle);
    M::deserialize(payload.as_slice())
}

/// Decoding what was encoded gives the message back: for every valid
/// message, the frame that encoding leaves is a live frame, decoding it
/// yields the content that went in, and the live buffers are then those from
/// before the encoding. The frame in between was allocated once and freed
/// once, and its address is dead for good.
pub proof fn lemma_round_trip<M: WireMessage>(
    pre: GuestMemory,
    content: M::V,
    mid: GuestMemory,
    addr: usize,
    post: GuestMemory,
    res: Result<M::V, GuestError>,
)
    requires
        valid::<M>(content),
        encoded::<M>(pre, content, mid, Ok(addr)),
        decoded::<M>(mid, addr, post, res),
    ensures
        mid.frame_at(addr),
        res == Ok::<M::V, GuestError>(content),
        post.live() == pre.live(),
        post.retired(addr),
{
    let payload = M::wire(content)->Some_0;
    lemma_framing(payload);
    assert(post.live() =~= pre.live());
}

} // verus!
