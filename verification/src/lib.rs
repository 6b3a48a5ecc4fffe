//! Verified core of an MTProto sender: what goes over the wire, and when.

pub mod aes_ctr;
pub mod auth;
pub mod buffers;
pub mod client_hello;
pub mod config;
pub mod digest;
pub mod errors;
pub mod fake_tls;
pub mod flow;
pub mod obfuscated;
pub mod octets;
pub mod progress;
pub mod protocol;
pub mod proxy_url;
pub mod random;
pub mod requests;
pub mod retry;
pub mod sender;
pub mod stream;
pub mod text;
pub mod tls_record;
pub mod updates;
