//! The wire codec of a Wayland-style protocol.
//!
//! A message is addressed to an object, names one of the object's operations
//! by its opcode, and carries a run of 32-bit argument words. On the wire it
//! is an eight-byte header followed by the words. [`Message::read`] and
//! [`Message::send`] convert between the two forms; the `push_` methods of
//! [`Message`] build the argument words from typed values, and the cursor
//! [`Args`] takes typed values off them again.
//!
//! Both ends of a connection speak in the byte order of the machine they run
//! on. The codec itself works in either order, handed to it as a
//! [`ByteOrder`]; [`ByteOrder::native`] is the machine's own.
//!
//! The module [`round_trip`] holds the theorems that tie the writing side to
//! the reading side.

pub mod byte_order;
pub mod frame;
pub mod layout;
pub mod message;
pub mod reader;
pub mod round_trip;
pub mod text;
pub mod types;

pub use byte_order::ByteOrder;
pub use frame::{FrameHeader, ReadError};
pub use message::{Args, Message};
pub use reader::Reader;
pub use types::{DispatchError, Fixed, NewId};
