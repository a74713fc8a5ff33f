//! The boundary call dispatcher: one synchronous call across the boundary.
//!
//! The function on the other side is a capability that the dispatcher cannot
//! see into. It receives the shared memory together with the address of the
//! request frame, and gives back the shared memory together with the address
//! of the response frame.

use crate::codec::{content, decode, decoded, encodable, encode, encoded};
use crate::error::GuestError;
use crate::frame::{frameable, framed, lemma_framing};
use crate::memory::{GuestMemory, Handle};
use crate::message::{valid, WireMessage};
use vstd::prelude::*;

verus! {

/// What both sides agree on for a boundary function. It accepts any live
/// frame. It frees the frame it was handed: the address is dead when it
/// returns. What it gives back is the address of a live frame that was not
/// there before. And it brings no dead address back to life.
///
/// The dispatcher does not check this at run time: a function that breaks
/// the agreement breaks the ownership of buffers, and the dispatcher cannot
/// help it. It is what a caller of [`call`] answers for.
pub open spec fn honours_boundary<F: Fn(GuestMemory, usize) -> (GuestMemory, usize)>(f: &F) -> bool {
    &&& forall|mem: GuestMemory, addr: usize|
        mem.wf() && mem.frame_at(addr) ==> call_requires(f, (mem, addr))
    &&& forall|mem: GuestMemory, addr: usize, back: GuestMemory, reply: usize|
        mem.wf() && mem.frame_at(addr) && #[trigger] call_ensures(f, (mem, addr), (back, reply))
            ==> {
            &&& back.wf()
            &&& back.extends(mem)
            &&& back.retired(addr)
            &&& !mem.live().contains_key(reply)
            &&& back.frame_at(reply)
        }
}

/// What calling `f` with a request of the given content leads to, from the
/// shared memory `pre`.
///
/// Either the request cannot be encoded, and nothing happens; or its frame
/// is handed to `f`, and whatever frame `f` hands back is decoded and freed.
#[verifier::opaque]
pub open spec fn called<M: WireMessage, R: WireMessage, F: Fn(GuestMemory, usize) -> (GuestMemory, usize)>(
    pre: GuestMemory,
    f: &F,
    request: M::V,
    post: GuestMemory,
    res: Result<R::V, GuestError>,
) -> bool {
    ||| exists|e: GuestError|
        #[trigger] encoded::<M>(pre, request, post, Err(e)) && res == Err::<R::V, GuestError>(e)
    ||| exists|sent: GuestMemory, addr: usize, back: GuestMemory, reply: usize|
        {
            &&& sent.wf()
            &&& encoded::<M>(pre, request, sent, Ok(addr))
            &&& #[trigger] call_ensures(f, (sent, addr), (back, reply))
            &&& decoded::<R>(back, reply, post, res)
        }
}

/// Performs one call across the boundary: encodes `request`, hands its frame
/// to `f`, and decodes the frame that `f` hands back.
///
/// Ownership of the request frame passes to `f`, and ownership of the
/// response frame passes back; the call does not return before `f` does.
pub fn call<M: WireMessage, R: WireMessage, F: Fn(GuestMemory, usize) -> (GuestMemory, usize)>(
    mem: GuestMemory,
    f: &F,
    request: &M,
) -> (res: (GuestMemory, Result<R, GuestError>))
    requires
        mem.wf(),
        honours_boundary(f),
    ensures
        res.0.wf(),
        res.0.extends(mem),
        called::<M, R, F>(mem, f, request@, res.0, content(res.1)),
{
    let mut mem = mem;
    let ghost pre = mem;
    reveal(called);
    match encode(&mut mem, request) {
        Err(e) => {
            assert(encoded::<M>(pre, request@, mem, Err(e)));
            (mem, Err(e))
        },
        Ok(handle) => {
            let addr: usize = handle.into_raw();
            let ghost sent = mem;
            let (mut back, reply) = f(mem, addr);
            let ghost returned = back;
            let res = decode::<R>(&mut back, Handle::from_raw(reply));
            assert(call_ensures(f, (sent, addr), (returned, reply)));
            proof {
                GuestMemory::lemma_extends_transitive(pre, sent, returned);
                GuestMemory::lemma_extends_transitive(pre, returned, back);
            }
            (back, res)
        },
    }
}

/// Given a boundary function that frees the frame it receives and hands back
/// a fresh frame that encodes `reply`, a call whose request can be encoded
/// returns `reply` and leaves no allocation outstanding: the live buffers
/// after the call are those before it.
pub proof fn lemma_call_contract<M: WireMessage, R: WireMessage, F: Fn(GuestMemory, usize) -> (GuestMemory, usize)>(
    pre: GuestMemory,
    f: &F,
    request: M::V,
    post: GuestMemory,
    res: Result<R::V, GuestError>,
    reply: R::V,
)
    requires
        called::<M, R, F>(pre, f, request, post, res),
        encodable::<M>(pre, request),
        valid::<R>(reply),
        frameable(R::wire(reply)->Some_0.len()),
        forall|mem: GuestMemory, addr: usize, back: GuestMemory, at: usize|
            mem.frame_at(addr) && #[trigger] call_ensures(f, (mem, addr), (back, at)) ==> {
                &&& !mem.live().contains_key(at)
                &&& back.live() == mem.live().remove(addr).insert(
                    at,
                    framed(R::wire(reply)->Some_0),
                )
            },
    ensures
        res == Ok::<R::V, GuestError>(reply),
        post.live() == pre.live(),
{
    reveal(called);
    lemma_framing(R::wire(reply)->Some_0);
    if exists|e: GuestError|
        #[trigger] encoded::<M>(pre, request, post, Err(e)) && res == Err::<R::V, GuestError>(e) {
        assert(false);
    }
    let (sent, addr, back, at) = choose|
        sent: GuestMemory,
        addr: usize,
        back: GuestMemory,
        at: usize,
    |
        {
            &&& sent.wf()
            &&& encoded::<M>(pre, request, sent, Ok(addr))
            &&& #[trigger] call_ensures(f, (sent, addr), (back, at))
            &&& decoded::<R>(back, at, post, res)
        };
    lemma_framing(M::wire(request)->Some_0);
    assert(sent.frame_at(addr));
    assert(post.live() =~= pre.live());
}

} // verus!
