use vstd::prelude::*;

verus! {

/// A socket address held as plain values: the address family, the address
/// itself and the port (for IPv6 also the flow label and the scope id).
#[derive(Clone, Copy, Debug, PartialEq, Eq)]
pub enum SockAddr {
    V4 { ip: [u8; 4], port: u16 },
    V6 { ip: [u16; 8], port: u16, flowinfo: u32, scope_id: u32 },
}

impl SockAddr {
    /// The port of the address.
    pub open spec fn port_of(self) -> u16 {
        match self {
            SockAddr::V4 { port, .. } => port,
            SockAddr::V6 { port, .. } => port,
        }
    }

    pub fn port(&self) -> (r: u16)
        ensures
            r == self.port_of(),
    {
        match self {
            SockAddr::V4 { port, .. } => *port,
            SockAddr::V6 { port, .. } => *port,
        }
    }
}

/// An upstream DNS server: its address, and the SOCKS5 proxy through which
/// queries to it must be tunneled, if any.
#[derive(Clone, Copy, Debug, PartialEq, Eq)]
pub struct DnsUpstream {
    pub addr: SockAddr,
    pub socks5: Option<SockAddr>,
}

} // verus!
