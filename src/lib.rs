//! Driver for the AT command firmware of ESP Wi-Fi co-processors.
//!
//! The library encodes commands, frames replies read from a byte transport and
//! extracts named fields from multi-line replies.
mod command;
mod driver;
mod error;
mod fields;
mod framing;
mod reply;

pub use command::{join_command, mode_command, query_command, ConnectionConfig, ScanMode, WifiMode, PMF};
pub use driver::{EspAt, Transport};
pub use error::{GenericEspAtError, TransportError};
pub use fields::{get_element_after, local_addresses, Interface, LocalAddresses, IPV4_MAX_LEN, IPV6_MAX_LEN, MAC_MAX_LEN};
pub use framing::{frame_chunk, frame_read, read_room, reply_from_read, Framing};
pub use reply::{reply_as_slice, ReplyData, REPLY_CAPACITY};
