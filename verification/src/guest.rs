//! The entry point that the host invokes.

use crate::codec::{decode, decoded, encode, encoded};
use crate::dispatch::{call, called, honours_boundary};
use crate::error::GuestError;
use crate::memory::{GuestMemory, Handle};
use crate::message::{Request, Response};
use vstd::prelude::*;

verus! {

/// What passing `message` on to the host and encoding its reply leads to,
/// from the shared memory `pre`.
pub open spec fn relayed<F: Fn(GuestMemory, usize) -> (GuestMemory, usize)>(
    pre: GuestMemory,
    host: &F,
    message: Seq<char>,
    post: GuestMemory,
    res: Result<usize, GuestError>,
) -> bool {
    ||| exists|e: GuestError|
        #[trigger] called::<Request, Response, F>(pre, host, message, post, Err(e)) && res
            == Err::<usize, GuestError>(e)
    ||| exists|answered: GuestMemory, reply: Seq<char>|
        {
            &&& answered.wf()
            &&& #[trigger] called::<Request, Response, F>(pre, host, message, answered, Ok(reply))
            &&& encoded::<Response>(answered, reply, post, res)
        }
}

/// What serving the request frame at `addr` leads to, from the shared memory
/// `pre`, with `host` as the capability that answers.
///
/// The request is decoded and its frame freed. Its message is passed on to
/// the host in a call of its own, and the host's reply is encoded as the
/// response. The first step that fails ends the exchange with its error.
pub open spec fn served<F: Fn(GuestMemory, usize) -> (GuestMemory, usize)>(
    pre: GuestMemory,
    host: &F,
    addr: usize,
    post: GuestMemory,
    res: Result<usize, GuestError>,
) -> bool {
    ||| exists|e: GuestError|
        #[trigger] decoded::<Request>(pre, addr, post, Err(e)) && res == Err::<usize, GuestError>(e)
    ||| exists|opened: GuestMemory, message: Seq<char>|
        {
            &&& opened.wf()
            &&& #[trigger] decoded::<Request>(pre, addr, opened, Ok(message))
            &&& relayed(opened, host, message, post, res)
        }
}

/// Serves one request.
///
/// Takes ownership of the request frame at `addr` and frees it, asks the
/// host with the message it carried, and returns the address of a fresh
/// frame that carries the host's reply; ownership of that frame passes to the
/// caller. A failure is returned, never papered over with an empty response:
/// the caller is to hand it to the escape channel.
///
/// Whatever the outcome, the request frame is gone for good when the
/// function returns: its address is dead, and no later allocation brings it
/// back.
pub fn guest_func<F: Fn(GuestMemory, usize) -> (GuestMemory, usize)>(
    mem: GuestMemory,
    addr: usize,
    host: &F,
) -> (res: (GuestMemory, Result<usize, GuestError>))
    requires
        mem.wf(),
        mem.frame_at(addr),
        honours_boundary(host),
    ensures
        res.0.wf(),
        res.0.extends(mem),
        res.0.retired(addr),
        served(mem, host, addr, res.0, res.1),
        res.1 matches Ok(out) ==> res.0.frame_at(out) && out != addr,
{
    let mut mem = mem;
    let ghost pre = mem;
    let request: Request = match decode::<Request>(&mut mem, Handle::from_raw(addr)) {
        Ok(request) => request,
        Err(e) => {
            assert(decoded::<Request>(pre, addr, mem, Err(e)));
            return (mem, Err(e));
        },
    };
    let ghost opened = mem;
    let ghost message = request@;
    assert(decoded::<Request>(pre, addr, opened, Ok(message)));
    let abi_request = Request { message: request.message };
    let (mut mem, answer) = call::<Request, Response, F>(mem, host, &abi_request);
    proof {
        GuestMemory::lemma_extends_transitive(pre, opened, mem);
        GuestMemory::lemma_retired_stays_retired(opened, mem, addr);
    }
    let abi_response: Response = match answer {
        Ok(response) => response,
        Err(e) => {
            assert(called::<Request, Response, F>(opened, host, message, mem, Err(e)));
            assert(relayed(opened, host, message, mem, Err::<usize, GuestError>(e)));
            return (mem, Err(e));
        },
    };
    let ghost answered = mem;
    let ghost reply = abi_response@;
    assert(called::<Request, Response, F>(opened, host, message, answered, Ok(reply)));
    let response = Response { reply: abi_response.reply };
    let res = encode(&mut mem, &response);
    proof {
        GuestMemory::lemma_extends_transitive(pre, answered, mem);
        GuestMemory::lemma_retired_stays_retired(answered, mem, addr);
    }
    match res {
        Ok(handle) => {
            let out: usize = handle.into_raw();
            assert(encoded::<Response>(answered, reply, mem, Ok(out)));
            assert(relayed(opened, host, message, mem, Ok::<usize, GuestError>(out)));
            (mem, Ok(out))
        },
        Err(e) => {
            assert(encoded::<Response>(answered, reply, mem, Err(e)));
            assert(relayed(opened, host, message, mem, Err::<usize, GuestError>(e)));
            (mem, Err(e))
        },
    }
}

} // verus!
