//! Encoding and decoding of DNS messages: the fixed header, domain names with
//! compression pointers, questions, address records, and whole messages.
pub mod answer;
pub mod buffer;
pub mod codes;
pub mod domain;
pub mod error;
pub mod header;
pub mod message;
pub mod name;
pub mod question;

pub use answer::{Answer, Data};
pub use codes::{Class, Ty};
pub use error::DnsError;
pub use header::Header;
pub use message::{Answers, Message, MessageBuilder, Questions};
pub use name::{Label, Labels};
pub use question::Question;
