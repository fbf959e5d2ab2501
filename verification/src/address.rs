//! Peer addresses as plain integers.
use vstd::prelude::*;

verus! {

/// An IP address, held as the integer its bits spell in network order.
#[derive(Debug, Clone, Copy, PartialEq, Eq, Structural)]
pub enum PeerIp {
    V4(u32),
    V6(u128),
}

/// The address of a peer: all that tells two socket addresses apart.
#[derive(Debug, Clone, Copy, PartialEq, Eq, Structural)]
pub enum PeerAddr {
    V4 { ip: u32, port: u16 },
    V6 { ip: u128, port: u16, flowinfo: u32, scope_id: u32 },
}

/// What identifies an address in a hashed set: family, address bits, port, flow
/// label and scope.
pub type PeerKey = (bool, u128, u16, u32, u32);

impl PeerAddr {
    /// The socket address made of an address and a port, without flow label and
    /// scope.
    pub open spec fn of(ip: PeerIp, port: u16) -> PeerAddr {
        match ip {
            PeerIp::V4(bits) => PeerAddr::V4 { ip: bits, port },
            PeerIp::V6(bits) => PeerAddr::V6 { ip: bits, port, flowinfo: 0, scope_id: 0 },
        }
    }

    pub open spec fn spec_ip(self) -> PeerIp {
        match self {
            PeerAddr::V4 { ip, .. } => PeerIp::V4(ip),
            PeerAddr::V6 { ip, .. } => PeerIp::V6(ip),
        }
    }

    pub open spec fn spec_key(self) -> PeerKey {
        match self {
            PeerAddr::V4 { ip, port } => (false, ip as u128, port, 0u32, 0u32),
            PeerAddr::V6 { ip, port, flowinfo, scope_id } => (true, ip, port, flowinfo, scope_id),
        }
    }

    /// The address that the text of this one spells: the text has no place for the flow label.
    pub open spec fn spelled(self) -> PeerAddr {
        match self {
            PeerAddr::V4 { .. } => self,
            PeerAddr::V6 { ip, port, scope_id, .. } => PeerAddr::V6 {
                ip,
                port,
                flowinfo: 0,
                scope_id,
            },
        }
    }

    /// The socket address made of `ip` and `port`.
    pub fn new(ip: PeerIp, port: u16) -> (addr: PeerAddr)
        ensures
            addr == PeerAddr::of(ip, port),
    {
        match ip {
            PeerIp::V4(bits) => PeerAddr::V4 { ip: bits, port },
            PeerIp::V6(bits) => PeerAddr::V6 { ip: bits, port, flowinfo: 0, scope_id: 0 },
        }
    }

    /// The IP address alone.
    pub fn ip(&self) -> (ip: PeerIp)
        ensures
            ip == self.spec_ip(),
    {
        match *self {
            PeerAddr::V4 { ip, .. } => PeerIp::V4(ip),
            PeerAddr::V6 { ip, .. } => PeerIp::V6(ip),
        }
    }

    /// The address that the text of this one spells, without the flow label.
    pub fn without_flow_label(&self) -> (addr: PeerAddr)
        ensures
            addr == self.spelled(),
    {
        match *self {
            PeerAddr::V4 { ip, port } => PeerAddr::V4 { ip, port },
            PeerAddr::V6 { ip, port, scope_id, .. } => PeerAddr::V6 {
                ip,
                port,
                flowinfo: 0,
                scope_id,
            },
        }
    }

    /// The key under which the address stands in a hashed set.
    pub fn key(&self) -> (key: PeerKey)
        ensures
            key == self.spec_key(),
    {
        match *self {
            PeerAddr::V4 { ip, port } => (false, ip as u128, port, 0u32, 0u32),
            PeerAddr::V6 { ip, port, flowinfo, scope_id } => (true, ip, port, flowinfo, scope_id),
        }
    }
}

/// Two addresses with one key are one address.
pub proof fn lemma_key_identifies(a: PeerAddr, b: PeerAddr)
    ensures
        a.spec_key() == b.spec_key() <==> a == b,
{
}

/// The IP address of a socket address has its version and exactly its bits, whatever the port.
pub proof fn law_ip_has_the_bits(addr: PeerAddr)
    ensures
        match addr {
            PeerAddr::V4 { ip, .. } => addr.spec_ip() == PeerIp::V4(ip),
            PeerAddr::V6 { ip, .. } => addr.spec_ip() == PeerIp::V6(ip),
        },
{
}

/// A socket address made of an IP address and a port has the bits of the one and is at the other.
/// Taking it apart gives both back, and making it again of its parts gives it back, but for a
/// flow label and a scope.
pub proof fn law_addresses_of_parts(ip: PeerIp, port: u16, addr: PeerAddr)
    ensures
        match ip {
            PeerIp::V4(bits) => PeerAddr::of(ip, port) == (PeerAddr::V4 { ip: bits, port }),
            PeerIp::V6(bits) => PeerAddr::of(ip, port) == (PeerAddr::V6 {
                ip: bits,
                port,
                flowinfo: 0,
                scope_id: 0,
            }),
        },
        PeerAddr::of(ip, port).spec_ip() == ip,
        addr is V4 ==> PeerAddr::of(addr.spec_ip(), addr->V4_port) == addr,
        addr is V6 && addr->flowinfo == 0 && addr->scope_id == 0 ==> PeerAddr::of(
            addr.spec_ip(),
            addr->V6_port,
        ) == addr,
{
}

/// What a text spells of a socket address is all of it but the flow label.
pub proof fn law_spelled_by_field(addr: PeerAddr, other: PeerAddr)
    ensures
        addr is V4 ==> addr.spelled() == addr,
        addr is V6 ==> {
            &&& addr.spelled() is V6
            &&& addr.spelled()->V6_ip == addr->V6_ip
            &&& addr.spelled()->V6_port == addr->V6_port
            &&& addr.spelled()->scope_id == addr->scope_id
            &&& addr.spelled()->flowinfo == 0
        },
        addr.spelled().spelled() == addr.spelled(),
        addr.spelled() == other.spelled() && addr != other ==> addr is V6 && other is V6
            && addr->flowinfo != other->flowinfo,
{
}

} // verus!
