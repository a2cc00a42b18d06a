//! Classic capture files: reading, writing and the headers of the packets
//! they hold. Payload bytes are never inspected or kept.

pub mod laws;
pub mod linktype;
pub mod parse;
pub mod reader;
pub mod writer;

pub use parse::{parse_packet, parse_packet_with_wire_len};
pub use reader::{PcapError, PcapReader};
pub use writer::PcapWriter;
