//! The message kinds that cross the boundary, and their serialized form.
//!
//! A message is serialized in the protobuf wire format by the `protobuf`
//! crate. Both kinds declared here hold one text field, numbered 1, and so
//! share their wire form with that crate's `StringValue`.

use crate::error::GuestError;
use protobuf::well_known_types::wrappers::StringValue;
use protobuf::Message;
use vstd::prelude::*;

verus! {

/// The error type of the `protobuf` crate. Nothing is known of what it holds.
#[verifier::external_type_specification]
#[verifier::external_body]
pub struct ExProtobufError(protobuf::Error);

/// The bytes that `protobuf` writes for a message whose one text field holds
/// `text`, or `None` where it refuses to write the message.
pub uninterp spec fn text_payload(text: Seq<char>) -> Option<Seq<u8>>;

/// The text field of the message that `protobuf` parses from `payload`, or
/// `None` where it rejects the payload.
pub uninterp spec fn payload_text(payload: Seq<u8>) -> Option<Seq<char>>;

/// Serializes a one-field text message with `Message::write_to_vec` of
/// `protobuf`, on a `StringValue` that holds `text`.
///
/// Trusted: the bytes written are a function of the text alone, named
/// [`text_payload`]; and what was written parses back, with
/// `Message::parse_from_bytes`, to a message that holds the same text. The
/// crate documents parsing as the reverse of writing.
#[verifier::external_body]
fn write_text(text: &str) -> (res: Result<Vec<u8>, protobuf::Error>)
    ensures
        match res {
            Ok(payload) => text_payload(text@) == Some(payload@) && payload_text(payload@) == Some(
                text@,
            ),
            Err(_) => text_payload(text@) is None,
        },
{
    let mut message = StringValue::new();
    message.value = text.to_owned();
    let mut payload: Vec<u8> = Vec::new();
    match message.write_to_vec(&mut payload) {
        Ok(()) => Ok(payload),
        Err(e) => Err(e),
    }
}

/// Parses a one-field text message with `Message::parse_from_bytes` of
/// `protobuf`, as a `StringValue`, and hands out its text.
///
/// Trusted: whether the payload is accepted, and the text found, are a
/// function of the payload alone, named [`payload_text`].
#[verifier::external_body]
fn parse_text(payload: &[u8]) -> (res: Result<String, protobuf::Error>)
    ensures
        match res {
            Ok(text) => payload_text(payload@) == Some(text@),
            Err(_) => payload_text(payload@) is None,
        },
{
    match StringValue::parse_from_bytes(payload) {
        Ok(message) => Ok(message.value),
        Err(e) => Err(e),
    }
}

/// A kind of message that can cross the boundary.
pub trait WireMessage: Sized + View {
    /// The payload that a message with this content serializes to, or `None`
    /// where the serializer refuses it.
    spec fn wire(content: Self::V) -> Option<Seq<u8>>;

    /// The content of the message that `payload` is the serialized form of, or
    /// `None` where the payload is not a well-formed message of this kind.
    spec fn parse(payload: Seq<u8>) -> Option<Self::V>;

    /// Serializes the message. A message that was serialized is valid: what
    /// came out parses back to the same content.
    ///
    /// Fails with [`GuestError::EncodeError`] exactly when the serializer
    /// refuses the message.
    fn serialize(&self) -> (res: Result<Vec<u8>, GuestError>)
        ensures
            match res {
                Ok(payload) => Self::wire(self@) == Some(payload@) && Self::parse(payload@)
                    == Some(self@),
                Err(e) => e == GuestError::EncodeError && Self::wire(self@) is None,
            },
    ;

    /// Parses a message out of `payload`.
    ///
    /// Fails with [`GuestError::DecodeError`] exactly when the payload is not
    /// a well-formed message of this kind.
    fn deserialize(payload: &[u8]) -> (res: Result<Self, GuestError>)
        ensures
            match res {
                Ok(message) => Self::parse(payload@) == Some(message@),
                Err(e) => e == GuestError::DecodeError && Self::parse(payload@) is None,
            },
    ;
}

/// Whether a message with this content is valid: the serializer accepts it,
/// and what it serializes to parses back to the same content.
pub open spec fn valid<M: WireMessage>(content: M::V) -> bool {
    M::wire(content) matches Some(payload) && M::parse(payload) == Some(content)
}

/// What is returned for a message once the serializer has answered.
pub fn serialized(written: Result<Vec<u8>, protobuf::Error>) -> (res: Result<Vec<u8>, GuestError>)
    ensures
        match written {
            Ok(payload) => res == Ok::<Vec<u8>, GuestError>(payload),
            Err(_) => res == Err::<Vec<u8>, GuestError>(GuestError::EncodeError),
        },
{
    match written {
        Ok(payload) => Ok(payload),
        Err(_) => Err(GuestError::EncodeError),
    }
}

/// What is returned for a payload once the parser has answered.
pub fn parsed(read: Result<String, protobuf::Error>) -> (res: Result<String, GuestError>)
    ensures
        match read {
            Ok(text) => res == Ok::<String, GuestError>(text),
            Err(_) => res == Err::<String, GuestError>(GuestError::DecodeError),
        },
{
    match read {
        Ok(text) => Ok(text),
        Err(_) => Err(GuestError::DecodeError),
    }
}

/// A request: one text field.
#[derive(Debug, Clone, PartialEq, Eq)]
pub struct Request {
    pub message: String,
}

/// A response: one text field.
#[derive(Debug, Clone, PartialEq, Eq)]
pub struct Response {
    pub reply: String,
}

impl View for Request {
    type V = Seq<char>;

    open spec fn view(&self) -> Seq<char> {
        self.message@
    }
}

impl View for Response {
    type V = Seq<char>;

    open spec fn view(&self) -> Seq<char> {
        self.reply@
    }
}

impl WireMessage for Request {
    open spec fn wire(content: Seq<char>) -> Option<Seq<u8>> {
        text_payload(content)
    }

    open spec fn parse(payload: Seq<u8>) -> Option<Seq<char>> {
        payload_text(payload)
    }

    fn serialize(&self) -> (res: Result<Vec<u8>, GuestError>) {
        serialized(write_text(self.message.as_str()))
    }

    fn deserialize(payload: &[u8]) -> (res: Result<Request, GuestError>) {
        match parsed(parse_text(payload)) {
            Ok(message) => Ok(Request { message }),
            Err(e) => Err(e),
        }
    }
}

impl WireMessage for Response {
    open spec fn wire(content: Seq<char>) -> Option<Seq<u8>> {
        text_payload(content)
    }

    open spec fn parse(payload: Seq<u8>) -> Option<Seq<char>> {
        payload_text(payload)
    }

    fn serialize(&self) -> (res: Result<Vec<u8>, GuestError>) {
        serialized(write_text(self.reply.as_str()))
    }

    fn deserialize(payload: &[u8]) -> (res: Result<Response, GuestError>) {
        match parsed(parse_text(payload)) {
            Ok(reply) => Ok(Response { reply }),
            Err(e) => Err(e),
        }
    }
}

} // verus!
