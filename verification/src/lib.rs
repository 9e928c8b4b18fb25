//! Reading and writing DNS messages for a local DNS proxy that answers names
//! matching the rules of a hosts file, and the small pieces of text handling
//! that the proxy needs around them.

pub mod decode;
pub mod dns;
pub mod encode;
pub mod exchange;
pub mod laws;
pub mod message;
pub mod ports;
pub mod reader;
pub mod resolv;
pub mod rules;
pub mod text;
pub mod writer;

pub use decode::{decode_url, to_dns, to_rr, try_to_dns};
pub use encode::{encoded_len, from_dns, from_rr};
pub use message::{DnsMsg, Header, IpAddr, Question, Rdata, RR};
pub use reader::Reader;
pub use writer::Writer;
