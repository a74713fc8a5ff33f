use guest_abi::codec::{decode, place_frame};
use guest_abi::error::GuestError;
use guest_abi::escape::{ErrorBuffer, ERROR_BUFFER_LEN, MAX_ERR_MSG_LEN};
use guest_abi::frame::{check, payload};
use guest_abi::memory::GuestMemory;
use guest_abi::message::Request;

#[test]
fn new_buffer_is_an_empty_frame() {
    let buffer = ErrorBuffer::new();
    assert_eq!(buffer.as_bytes(), &[0u8; 1024]);
    assert_eq!(buffer.message_frame(), &[0u8, 0, 0, 0][..]);
    assert_eq!(ERROR_BUFFER_LEN, MAX_ERR_MSG_LEN + 4);
    assert_eq!(MAX_ERR_MSG_LEN, 1020);
}

#[test]
fn short_message_is_framed() {
    let mut buffer = ErrorBuffer::new();
    assert_eq!(buffer.record(b"boom"), 4);
    assert_eq!(buffer.message_frame(), &[0u8, 0, 0, 4, b'b', b'o', b'o', b'm'][..]);
    assert_eq!(&buffer.as_bytes()[..8], &[0u8, 0, 0, 4, b'b', b'o', b'o', b'm'][..]);
    assert!(buffer.as_bytes()[8..].iter().all(|b| *b == 0));
}

#[test]
fn message_of_maximum_length_passes_unmodified() {
    let message: Vec<u8> = (0..MAX_ERR_MSG_LEN).map(|i| (i % 251) as u8 + 1).collect();
    let mut buffer = ErrorBuffer::new();
    assert_eq!(buffer.record(&message), 1020);
    let frame = buffer.message_frame();
    assert_eq!(frame.len(), 1024);
    assert_eq!(&frame[..4], &1020u32.to_be_bytes()[..]);
    assert_eq!(&frame[4..], &message[..]);
    assert!(check(frame));
}

#[test]
fn message_one_byte_longer_is_cut_without_marker() {
    let message: Vec<u8> = (0..MAX_ERR_MSG_LEN + 1).map(|i| (i % 251) as u8 + 1).collect();
    let mut buffer = ErrorBuffer::new();
    assert_eq!(buffer.record(&message), 1020);
    let frame = buffer.message_frame();
    assert_eq!(frame.len(), 1024);
    assert_eq!(&frame[..4], &[0u8, 0, 3, 252][..]);
    assert_eq!(payload(frame), Some(&message[..1020]));
    assert_eq!(buffer.as_bytes().len(), 1024);
}

#[test]
fn much_longer_message_is_cut_to_the_maximum() {
    let message = vec![b'e'; 5000];
    let mut buffer = ErrorBuffer::new();
    assert_eq!(buffer.record(&message), MAX_ERR_MSG_LEN);
    assert_eq!(payload(buffer.message_frame()), Some(&message[..1020]));
}

#[test]
fn bytes_behind_the_frame_are_left_alone() {
    let mut buffer = ErrorBuffer::new();
    buffer.record(b"a long first message");
    buffer.record(b"short");
    assert_eq!(buffer.message_frame(), &[0u8, 0, 0, 5, b's', b'h', b'o', b'r', b't'][..]);
    assert_eq!(&buffer.as_bytes()[9..24], &b"a long first message"[5..]);
    buffer.record(b"");
    assert_eq!(buffer.message_frame(), &[0u8, 0, 0, 0][..]);
    assert_eq!(&buffer.as_bytes()[4..9], b"short");
}

#[test]
fn errors_describe_themselves() {
    assert_eq!(GuestError::AllocationFailure.describe(), "shared memory exhausted");
    assert_eq!(GuestError::EncodeError.describe(), "message cannot be encoded");
    assert_eq!(GuestError::DecodeError.describe(), "payload is not a well-formed message");
    assert_eq!(GuestError::ProtocolViolation.describe(), "address does not denote a live frame");
}

#[test]
fn decode_failure_reaches_the_escape_channel() {
    let mut mem = GuestMemory::new();
    // a text field that announces seventeen bytes and is cut after five
    let handle = place_frame(&mut mem, &[0x0A, 17, b'H', b'e', b'l', b'l', b'o']).unwrap();
    let res: Result<Request, GuestError> = decode(&mut mem, handle);
    let error = res.unwrap_err();
    assert_eq!(error, GuestError::DecodeError);
    let mut buffer = ErrorBuffer::new();
    let text = error.describe();
    assert_eq!(buffer.record(text.as_bytes()), text.len());
    assert_eq!(payload(buffer.message_frame()), Some(text.as_bytes()));
}
