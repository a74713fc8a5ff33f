//! A call convention for passing structured messages between a sandboxed guest
//! and its host, which share nothing but a flat byte-addressable memory.
//!
//! A message crosses the boundary as a *frame*: a four-byte big-endian length
//! followed by exactly that many payload bytes. Only the address of a frame
//! crosses; whoever holds the address owns the buffer and must reclaim it
//! exactly once.
//!
//! * [`frame`] defines the wire format.
//! * [`memory`] is the guest memory manager: every buffer in shared memory is
//!   allocated and reclaimed through it.
//! * [`message`] holds the message kinds and their serialized form.
//! * [`codec`] turns a message into a frame in shared memory and back.
//! * [`dispatch`] performs one synchronous call across the boundary.
//! * [`escape`] is the channel through which a failure that cannot be
//!   answered reaches the host.
//! * [`guest`] is the entry point the host invokes.
//!
//! The discipline that keeps the two sides from freeing a buffer twice, or
//! reading one that was freed, is not checked at run time by the memory the
//! two sides share. Here it is a precondition of every function that touches
//! a buffer, and a verified caller cannot break it.

pub mod codec;
pub mod dispatch;
pub mod error;
pub mod escape;
pub mod frame;
pub mod guest;
pub mod memory;
pub mod message;
