//! A small DNS stack: wire-format codecs for the header, domain names
//! (including label compression), questions and resource records; whole
//! messages with query/response constructors; a static name database; and
//! the server's per-datagram decision function.

pub mod database;
pub mod header;
pub mod message;
pub mod name;
pub mod question;
pub mod record;
pub mod server;
pub mod types;
pub mod wire;

pub use database::SimpleDnsDatabase;
pub use header::DnsHeader;
pub use message::DnsMessage;
pub use question::DnsQuestion;
pub use record::DnsRecord;
pub use server::handle_packet;
pub use types::DnsClass;
pub use types::DnsError;
pub use types::DnsRecordType;
pub use types::Ipv4Address;
