//! The error escape channel: how a failure that cannot be answered with a
//! response reaches the host.
//!
//! The message of the failure is framed into a buffer of fixed size that is
//! set aside for this one purpose, so that reporting a failure never asks
//! the allocator for anything. A message longer than the buffer has room for
//! is cut to fit, silently and without a marker: the loss is intended.

use crate::frame::{be_value, framed, is_frame, lemma_prefix_round_trip, prefix_bytes, prefix_value};
use vstd::prelude::*;
use vstd::slice::slice_subrange;

verus! {

/// The longest message text the escape channel passes on, in bytes.
pub const MAX_ERR_MSG_LEN: usize = 1020;

/// The size of the buffer of the escape channel: the longest message and its
/// length prefix.
pub const ERROR_BUFFER_LEN: usize = 1024;

/// What is left of a message after it was cut to fit the escape channel: its
/// first [`MAX_ERR_MSG_LEN`] bytes, or all of it where it is no longer.
pub open spec fn truncated(message: Seq<u8>) -> Seq<u8> {
    if message.len() > MAX_ERR_MSG_LEN {
        message.subrange(0, MAX_ERR_MSG_LEN as int)
    } else {
        message
    }
}

/// The fixed buffer of the escape channel. It starts with a frame at all
/// times: an empty one until a failure was recorded.
#[derive(Debug)]
pub struct ErrorBuffer {
    bytes: [u8; 1024],
}

impl View for ErrorBuffer {
    type V = Seq<u8>;

    closed spec fn view(&self) -> Seq<u8> {
        self.bytes@
    }
}

impl ErrorBuffer {
    #[verifier::type_invariant]
    spec fn starts_with_frame(&self) -> bool {
        be_value(self.bytes@) <= MAX_ERR_MSG_LEN
    }

    /// The frame at the start of the buffer: what the host is handed.
    pub open spec fn frame(&self) -> Seq<u8> {
        self@.subrange(0, 4 + be_value(self@) as int)
    }

    /// A buffer in which nothing was recorded: all zero, which is the frame of
    /// the empty message followed by unused room.
    pub fn new() -> (res: ErrorBuffer)
        ensures
            res@ == Seq::new(ERROR_BUFFER_LEN as nat, |i: int| 0u8),
            res.frame() == framed(Seq::<u8>::empty()),
    {
        let bytes: [u8; 1024] = [0u8; 1024];
        let res = ErrorBuffer { bytes };
        assert(res@ =~= Seq::new(ERROR_BUFFER_LEN as nat, |i: int| 0u8));
        assert(res.frame() =~= framed(Seq::<u8>::empty()));
        res
    }

    /// Records the message of a failure: cuts it to [`MAX_ERR_MSG_LEN`] bytes
    /// and frames what is left at the start of the buffer. Returns the number
    /// of message bytes recorded.
    ///
    /// A message of exactly the maximum length is recorded whole. The bytes
    /// of the buffer behind the frame are left as they were.
    pub fn record(&mut self, message: &[u8]) -> (length: usize)
        ensures
            length == truncated(message@).len(),
            length <= MAX_ERR_MSG_LEN,
            message@.len() <= MAX_ERR_MSG_LEN ==> truncated(message@) == message@,
            final(self)@.len() == ERROR_BUFFER_LEN,
            final(self).frame() == framed(truncated(message@)),
            final(self)@.subrange(4 + length, ERROR_BUFFER_LEN as int) == old(self)@.subrange(
                4 + length,
                ERROR_BUFFER_LEN as int,
            ),
    {
        let length: usize = if message.len() > MAX_ERR_MSG_LEN {
            MAX_ERR_MSG_LEN
        } else {
            message.len()
        };
        let prefix: [u8; 4] = prefix_bytes(length as u32);
        let mut bytes: [u8; 1024] = self.bytes;
        bytes[0] = prefix[0];
        bytes[1] = prefix[1];
        bytes[2] = prefix[2];
        bytes[3] = prefix[3];
        let mut i: usize = 0;
        while i < length
            invariant
                0 <= i <= length <= MAX_ERR_MSG_LEN,
                length <= message@.len(),
                bytes@.len() == ERROR_BUFFER_LEN,
                bytes@.subrange(0, 4) == prefix@,
                forall|k: int| 0 <= k < i ==> bytes@[4 + k] == message@[k],
                forall|k: int| 4 + length <= k < ERROR_BUFFER_LEN ==> bytes@[k] == self.bytes@[k],
            decreases length - i,
        {
            bytes[4 + i] = message[i];
            assert(bytes@.subrange(0, 4) =~= prefix@);
            i += 1;
        }
        proof {
            lemma_prefix_round_trip(length as nat);
            assert(bytes@.subrange(0, 4) == prefix@);
            assert(be_value(bytes@) == be_value(bytes@.subrange(0, 4)));
            assert(truncated(message@).len() == length);
            assert(bytes@.subrange(0, 4 + length) =~= framed(truncated(message@)));
            assert(bytes@.subrange(4 + length, ERROR_BUFFER_LEN as int) =~= self.bytes@.subrange(
                4 + length,
                ERROR_BUFFER_LEN as int,
            ));
        }
        self.bytes = bytes;
        length
    }

    /// The frame that the host is handed: the length prefix and the recorded
    /// message, without the unused room behind them.
    pub fn message_frame(&self) -> (res: &[u8])
        ensures
            res@ == self.frame(),
            is_frame(res@),
            res@.len() <= ERROR_BUFFER_LEN,
    {
        proof {
            use_type_invariant(self);
        }
        let whole: &[u8] = self.bytes.as_slice();
        let length: u32 = match prefix_value(whole) {
            Some(n) => n,
            None => 0,
        };
        let res: &[u8] = slice_subrange(whole, 0, 4 + length as usize);
        assert(be_value(res@) == be_value(self@));
        res
    }

    /// The whole buffer, unused room included.
    pub fn as_bytes(&self) -> (res: &[u8; 1024])
        ensures
            res@ == self@,
    {
        &self.bytes
    }
}

} // verus!
