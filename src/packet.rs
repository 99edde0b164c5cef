//! The header fields of an IP packet that the policy and NAT logic reads and rewrites.
use crate::filter::{Protocol, UnsupportedProtocol};
use crate::net::IpAddr;
use vstd::prelude::*;

verus! {

pub const IP_PROTO_ICMP: u8 = 1;
pub const IP_PROTO_ICMPV6: u8 = 58;

/// The transport protocols that the NAT keeps sessions for.
#[derive(Clone, Copy, Debug, PartialEq, Eq, Structural, Hash)]
pub enum ProtocolKind {
    Tcp,
    Udp,
    Icmp,
}

/// Which ICMP error a packet carries.
#[derive(Clone, Copy, Debug, PartialEq, Eq, Structural, Hash)]
pub enum IcmpError {
    /// Destination unreachable: the network or address cannot be reached.
    NetworkUnreachable,
    /// Destination unreachable: administratively prohibited by a filter.
    Prohibited,
    /// Any other destination-unreachable or time-exceeded error, by its code.
    Other(u8),
}

/// The header of the packet that an ICMP error quotes.
#[derive(Clone, Copy, Debug, PartialEq, Eq, Structural, Hash)]
pub struct QuotedHeader {
    pub src: IpAddr,
    pub dst: IpAddr,
    pub kind: ProtocolKind,
    /// Source port, or the ICMP identifier.
    pub sport: u16,
    /// Destination port, or the ICMP identifier.
    pub dport: u16,
}

/// The layer-4 part of a packet.
#[derive(Clone, Copy, Debug, PartialEq, Eq, Structural, Hash)]
pub enum Transport {
    Tcp { sport: u16, dport: u16 },
    Udp { sport: u16, dport: u16 },
    /// An ICMP echo request or reply with its identifier.
    Icmp { id: u16 },
    /// An ICMP error that quotes the header of the packet it refers to.
    IcmpError { error: IcmpError, quoted: QuotedHeader },
    /// Any other IP protocol, by number.
    Other(u8),
}

/// An IP packet, reduced to the header fields that routing decisions read.
#[derive(Clone, Copy, Debug, PartialEq, Eq, Structural, Hash)]
pub struct IpPacket {
    pub src: IpAddr,
    pub dst: IpAddr,
    pub transport: Transport,
}

pub open spec fn icmp_proto_number(ip: IpAddr) -> u8 {
    match ip {
        IpAddr::V4(_) => IP_PROTO_ICMP,
        IpAddr::V6(_) => IP_PROTO_ICMPV6,
    }
}

impl IpPacket {
    /// The protocol and port that a filter sees for traffic to `dst`.
    pub open spec fn destination_protocol_spec(self) -> Result<Protocol, UnsupportedProtocol> {
        match self.transport {
            Transport::Tcp { dport, .. } => Ok(Protocol::Tcp(dport)),
            Transport::Udp { dport, .. } => Ok(Protocol::Udp(dport)),
            Transport::Icmp { id } => Ok(Protocol::Icmp(id)),
            Transport::IcmpError { .. } => Err(UnsupportedProtocol(icmp_proto_number(self.src))),
            Transport::Other(n) => Err(UnsupportedProtocol(n)),
        }
    }

    /// The protocol and port that a filter sees for traffic from `src`.
    pub open spec fn source_protocol_spec(self) -> Result<Protocol, UnsupportedProtocol> {
        match self.transport {
            Transport::Tcp { sport, .. } => Ok(Protocol::Tcp(sport)),
            Transport::Udp { sport, .. } => Ok(Protocol::Udp(sport)),
            Transport::Icmp { id } => Ok(Protocol::Icmp(id)),
            Transport::IcmpError { .. } => Err(UnsupportedProtocol(icmp_proto_number(self.src))),
            Transport::Other(n) => Err(UnsupportedProtocol(n)),
        }
    }

    pub fn destination_protocol(&self) -> (r: Result<Protocol, UnsupportedProtocol>)
        ensures
            r == self.destination_protocol_spec(),
    {
        match self.transport {
            Transport::Tcp { dport, .. } => Ok(Protocol::Tcp(dport)),
            Transport::Udp { dport, .. } => Ok(Protocol::Udp(dport)),
            Transport::Icmp { id } => Ok(Protocol::Icmp(id)),
            Transport::IcmpError { .. } => Err(UnsupportedProtocol(icmp_number(self.src))),
            Transport::Other(n) => Err(UnsupportedProtocol(n)),
        }
    }

    pub fn source_protocol(&self) -> (r: Result<Protocol, UnsupportedProtocol>)
        ensures
            r == self.source_protocol_spec(),
    {
        match self.transport {
            Transport::Tcp { sport, .. } => Ok(Protocol::Tcp(sport)),
            Transport::Udp { sport, .. } => Ok(Protocol::Udp(sport)),
            Transport::Icmp { id } => Ok(Protocol::Icmp(id)),
            Transport::IcmpError { .. } => Err(UnsupportedProtocol(icmp_number(self.src))),
            Transport::Other(n) => Err(UnsupportedProtocol(n)),
        }
    }

    /// Whether this packet is an ICMP error.
    pub fn is_icmp_error(&self) -> (r: bool)
        ensures
            r == (self.transport is IcmpError),
    {
        match self.transport {
            Transport::IcmpError { .. } => true,
            _ => false,
        }
    }

    /// The header that an ICMP error about this packet quotes; `None` for packets that
    /// carry no ports or identifier.
    pub open spec fn quote_spec(self) -> Option<QuotedHeader> {
        match self.transport {
            Transport::Tcp { sport, dport } => Some(
                QuotedHeader { src: self.src, dst: self.dst, kind: ProtocolKind::Tcp, sport, dport },
            ),
            Transport::Udp { sport, dport } => Some(
                QuotedHeader { src: self.src, dst: self.dst, kind: ProtocolKind::Udp, sport, dport },
            ),
            Transport::Icmp { id } => Some(
                QuotedHeader { src: self.src, dst: self.dst, kind: ProtocolKind::Icmp, sport: id, dport: id },
            ),
            _ => None,
        }
    }

    /// The ICMP error sent back to the sender of this packet: from its destination to its
    /// source, quoting its header. `None` where the packet cannot be quoted.
    pub open spec fn icmp_reply_spec(self, error: IcmpError) -> Option<IpPacket> {
        match self.quote_spec() {
            Some(quoted) => Some(
                IpPacket { src: self.dst, dst: self.src, transport: Transport::IcmpError { error, quoted } },
            ),
            None => None,
        }
    }

    pub fn icmp_reply(&self, error: IcmpError) -> (r: Option<IpPacket>)
        ensures
            r == self.icmp_reply_spec(error),
    {
        let quoted = match self.transport {
            Transport::Tcp { sport, dport } =>
                QuotedHeader { src: self.src, dst: self.dst, kind: ProtocolKind::Tcp, sport, dport },
            Transport::Udp { sport, dport } =>
                QuotedHeader { src: self.src, dst: self.dst, kind: ProtocolKind::Udp, sport, dport },
            Transport::Icmp { id } =>
                QuotedHeader { src: self.src, dst: self.dst, kind: ProtocolKind::Icmp, sport: id, dport: id },
            _ => {
                return None;
            },
        };
        Some(IpPacket { src: self.dst, dst: self.src, transport: Transport::IcmpError { error, quoted } })
    }
}

fn icmp_number(ip: IpAddr) -> (r: u8)
    ensures
        r == icmp_proto_number(ip),
{
    match ip {
        IpAddr::V4(_) => IP_PROTO_ICMP,
        IpAddr::V6(_) => IP_PROTO_ICMPV6,
    }
}

} // verus!
