use guest_abi::codec::{decode, encode, place_frame};
use guest_abi::dispatch::call;
use guest_abi::error::GuestError;
use guest_abi::guest::guest_func;
use guest_abi::memory::{GuestMemory, Handle};
use guest_abi::message::{Request, Response};

fn echo_host(mem: GuestMemory, addr: usize) -> (GuestMemory, usize) {
    let mut mem = mem;
    assert!(mem.holds_frame(addr));
    let request: Request = decode(&mut mem, Handle::from_raw(addr)).unwrap();
    let response = Response { reply: format!("Echoing: {}", request.message) };
    let handle = encode(&mut mem, &response).unwrap();
    (mem, handle.into_raw())
}

fn garbling_host(mem: GuestMemory, addr: usize) -> (GuestMemory, usize) {
    let mut mem = mem;
    assert!(mem.try_reclaim(addr).is_ok());
    let handle = place_frame(&mut mem, &[0x0A, 40, b'x']).unwrap();
    (mem, handle.into_raw())
}

#[test]
fn call_returns_the_decoded_response() {
    let mem = GuestMemory::new();
    let request = Request { message: "ping".to_string() };
    let (mem, res) = call::<Request, Response, _>(mem, &echo_host, &request);
    assert_eq!(res, Ok(Response { reply: "Echoing: ping".to_string() }));
    assert_eq!(mem.outstanding(), 0);
}

#[test]
fn call_leaves_no_outstanding_allocation() {
    let mut mem = GuestMemory::new();
    let kept = mem.place(vec![0, 0, 0, 1, 3]).unwrap().into_raw();
    let fixed = |mem: GuestMemory, addr: usize| -> (GuestMemory, usize) {
        let mut mem = mem;
        mem.try_reclaim(addr).unwrap();
        let response = Response { reply: "fixed".to_string() };
        let handle = encode(&mut mem, &response).unwrap();
        (mem, handle.into_raw())
    };
    let request = Request { message: "anything".to_string() };
    let (mut mem, res) = call::<Request, Response, _>(mem, &fixed, &request);
    assert_eq!(res, Ok(Response { reply: "fixed".to_string() }));
    assert_eq!(mem.outstanding(), 1);
    assert_eq!(mem.try_reclaim(kept), Ok(vec![0, 0, 0, 1, 3]));
    assert_eq!(mem.outstanding(), 0);
}

#[test]
fn call_hands_the_encoded_request_over() {
    let mem = GuestMemory::new();
    let checking = |mem: GuestMemory, addr: usize| -> (GuestMemory, usize) {
        let mut mem = mem;
        assert_eq!(
            mem.read(&Handle::from_raw(addr)),
            &[0u8, 0, 0, 4, 0x0A, 2, b'h', b'i'][..]
        );
        assert_eq!(mem.outstanding(), 1);
        echo_host(mem, addr)
    };
    let request = Request { message: "hi".to_string() };
    let (_, res) = call::<Request, Response, _>(mem, &checking, &request);
    assert_eq!(res, Ok(Response { reply: "Echoing: hi".to_string() }));
}

#[test]
fn call_fails_before_the_boundary_without_room() {
    let mem = GuestMemory::with_limit(3);
    let never = |_mem: GuestMemory, _addr: usize| -> (GuestMemory, usize) {
        panic!("the boundary must not be crossed");
    };
    let request = Request { message: "ping".to_string() };
    let (mem, res) = call::<Request, Response, _>(mem, &never, &request);
    assert_eq!(res, Err(GuestError::AllocationFailure));
    assert_eq!(mem.outstanding(), 0);
}

#[test]
fn call_reports_a_malformed_response() {
    let mem = GuestMemory::new();
    let request = Request { message: "ping".to_string() };
    let (mem, res) = call::<Request, Response, _>(mem, &garbling_host, &request);
    assert_eq!(res, Err(GuestError::DecodeError));
    assert_eq!(mem.outstanding(), 0);
}

#[test]
fn guest_func_echoes_through_the_host() {
    let mut mem = GuestMemory::new();
    let request = Request { message: "Hello from guest!".to_string() };
    let input = encode(&mut mem, &request).unwrap().into_raw();
    assert!(mem.holds_frame(input));
    let (mut mem, res) = guest_func(mem, input, &echo_host);
    let output = res.unwrap();
    assert_ne!(output, input);
    assert!(mem.holds_frame(output));
    // the request frame is gone: freeing it again is flagged
    assert!(!mem.is_live(input));
    assert_eq!(mem.try_reclaim(input), Err(GuestError::ProtocolViolation));
    assert_eq!(mem.outstanding(), 1);
    let response: Response = decode(&mut mem, Handle::from_raw(output)).unwrap();
    assert_eq!(response.reply, "Echoing: Hello from guest!");
    assert_eq!(mem.outstanding(), 0);
}

#[test]
fn guest_func_reports_a_malformed_request() {
    let mut mem = GuestMemory::new();
    let whole = vec![0x0A, 17, b'H', b'e', b'l', b'l', b'o'];
    let input = place_frame(&mut mem, &whole).unwrap().into_raw();
    assert!(mem.holds_frame(input));
    let never = |_mem: GuestMemory, _addr: usize| -> (GuestMemory, usize) {
        panic!("the host must not be asked");
    };
    let (mem, res) = guest_func(mem, input, &never);
    assert_eq!(res, Err(GuestError::DecodeError));
    assert!(!mem.is_live(input));
    assert_eq!(mem.outstanding(), 0);
}

#[test]
fn guest_func_reports_a_malformed_reply() {
    let mut mem = GuestMemory::new();
    let request = Request { message: "x".to_string() };
    let input = encode(&mut mem, &request).unwrap().into_raw();
    assert!(mem.holds_frame(input));
    let (mem, res) = guest_func(mem, input, &garbling_host);
    assert_eq!(res, Err(GuestError::DecodeError));
    assert_eq!(mem.outstanding(), 0);
}

#[test]
fn guest_func_fails_when_the_response_has_no_room() {
    // room for the request and for what the host allocates, not for the response
    let mut mem = GuestMemory::with_limit(40);
    let request = Request { message: "abc".to_string() };
    let input = encode(&mut mem, &request).unwrap().into_raw();
    assert!(mem.holds_frame(input));
    let (mem, res) = guest_func(mem, input, &echo_host);
    assert_eq!(res, Err(GuestError::AllocationFailure));
    assert_eq!(mem.outstanding(), 0);
}
