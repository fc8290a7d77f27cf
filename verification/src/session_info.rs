//! What identifies a session: its two ends and its protocol.

use vstd::prelude::*;

use crate::net::SocketAddr;

verus! {

/// The protocol of a session.
#[derive(Clone, Copy, PartialEq, Eq, Structural, Hash, Debug)]
pub enum IpProtocol {
    Tcp,
    Udp,
    Icmp,
    Other(u8),
}

/// The two ends of a session and its protocol.
#[derive(Clone, Copy, PartialEq, Eq, Structural, Hash, Debug)]
pub struct SessionInfo {
    pub src: SocketAddr,
    pub dst: SocketAddr,
    pub protocol: IpProtocol,
}

impl SessionInfo {
    /// The session from `src` to `dst`.
    pub fn new(src: SocketAddr, dst: SocketAddr, protocol: IpProtocol) -> (r: SessionInfo)
        ensures
            r == (SessionInfo { src, dst, protocol }),
    {
        SessionInfo { src, dst, protocol }
    }
}

} // verus!
