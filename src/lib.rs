//! A small DNS forwarding server core: a byte-exact codec for the header,
//! question and answer sections, response derivation, and a forwarder that
//! splits multi-question queries into single-question upstream queries.

pub mod dns_header;
pub mod dns_message;
pub mod dns_name;
pub mod dns_question;
pub mod dns_record;
pub mod error;
pub mod forward;
pub mod wire;

pub use dns_header::DnsHeader;
pub use dns_message::DnsMessage;
pub use dns_question::DnsQuestion;
pub use dns_record::DnsRecord;
pub use error::DnsError;
pub use forward::{ForwardError, SplitForwarder};
