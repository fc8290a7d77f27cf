//! The decision core of a tunnel-to-proxy bridge: DNS messages and the DNS cache,
//! bypass patterns, the HTTP CONNECT handshake, DNS over a shared TCP connection,
//! SOCKS5 UDP framing, and the routing of accepted sessions.

pub mod bypass;
pub mod cache_laws;
pub mod directions;
pub mod dns;
pub mod dns_laws;
pub mod dns_mapping;
pub mod dns_over_tcp;
pub mod error;
pub mod http;
pub mod http_auth;
pub mod http_response;
pub mod net;
pub mod proxy_handler;
pub mod reverse_laws;
pub mod session;
pub mod session_info;
pub mod table;
pub mod text;

pub use crate::directions::{IncomingDataEvent, IncomingDirection, OutgoingDataEvent, OutgoingDirection};
pub use crate::error::Error;
pub use crate::http::{HttpConnection, HttpManager};
pub use crate::http_auth::{AuthResult, PasswordAuthenticator, UserKey};
pub use crate::proxy_handler::ProxyType;
pub use crate::session::ArgDns;
pub use crate::session_info::{IpProtocol, SessionInfo};
