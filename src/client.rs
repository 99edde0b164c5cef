//! The state of one client on the gateway: its authorised resources, the filter index
//! built from them, the proxy-address translations of its DNS resources, and its NAT table.
use crate::domain::{is_subdomain, is_subdomain_spec};
use crate::filter::{filters_allow, Filter, FilterEngine, Filtered, Protocol, UnsupportedProtocol};
use crate::filter_table::{is_longest_match, table_entries, table_insert, table_longest_match, table_new, FilterTable};
use crate::nat_table::{is_stale, outside_key, NatError, NatSession, NatTable, OutsideKey, TranslateIncomingResult};
use crate::net::{
    lemma_covers_trans, lemma_host_contains, lemma_host_wf, lemma_same_prefix_same_net, lemma_shorter_covers, IpAddr,
    IpConfig, IpNetwork,
};
use crate::packet::{IcmpError, IpPacket, ProtocolKind, Transport};
use crate::resource::{
    copy_filters, description_wf, domain_listed, fresh_from, res_covers, res_expires_at, res_filters, res_is_allowed,
    updated_from, ClientId, ResourceDescription, ResourceId, ResourceOnGateway, Timestamp,
};
use vstd::prelude::*;

verus! {

/// Where a proxy address of a DNS resource leads.
#[derive(Clone, Copy, Debug, PartialEq, Eq, Structural, Hash)]
pub struct TranslationState {
    /// The DNS resource that the proxy address belongs to.
    pub resource_id: ResourceId,
    /// The address that the domain resolved to.
    pub resolved_ip: IpAddr,
}

pub type ResourceEntry = (ResourceId, ResourceOnGateway);

pub type TranslationEntry = (IpAddr, TranslationState);

/// The first address of the reserved IPv4 proxy range, 100.96.0.0/11.
pub const IPV4_RESOURCES_ADDR: u32 = 0x6460_0000;

pub const IPV4_RESOURCES_PREFIX: u8 = 11;

/// The first address of the reserved IPv6 proxy range, fd00:2021:1111:8000::/107.
pub const IPV6_RESOURCES_ADDR: u128 = 0xfd00_2021_1111_8000_0000_0000_0000_0000;

pub const IPV6_RESOURCES_PREFIX: u8 = 107;

pub open spec fn ipv4_resources() -> IpNetwork {
    IpNetwork { addr: IpAddr::V4(IPV4_RESOURCES_ADDR), prefix: IPV4_RESOURCES_PREFIX }
}

pub open spec fn ipv6_resources() -> IpNetwork {
    IpNetwork { addr: IpAddr::V6(IPV6_RESOURCES_ADDR), prefix: IPV6_RESOURCES_PREFIX }
}

/// The address lies in one of the proxy ranges that clients draw DNS-resource addresses from.
pub open spec fn is_proxy_addr(ip: IpAddr) -> bool {
    ipv4_resources().contains_spec(ip) || ipv6_resources().contains_spec(ip)
}

pub fn is_dns_addr(ip: IpAddr) -> (r: bool)
    ensures
        r == is_proxy_addr(ip),
{
    let v4 = IpNetwork { addr: IpAddr::V4(IPV4_RESOURCES_ADDR), prefix: IPV4_RESOURCES_PREFIX };
    let v6 = IpNetwork { addr: IpAddr::V6(IPV6_RESOURCES_ADDR), prefix: IPV6_RESOURCES_PREFIX };
    v4.contains(ip) || v6.contains(ip)
}

/// One of the two tunnel addresses of `tun`.
pub open spec fn is_tun_ip(tun: IpConfig, ip: IpAddr) -> bool {
    ip == IpAddr::V4(tun.v4) || ip == IpAddr::V6(tun.v6)
}

pub fn tun_has_ip(tun: &IpConfig, ip: IpAddr) -> (r: bool)
    ensures
        r == is_tun_ip(*tun, ip),
{
    match ip {
        IpAddr::V4(a) => a == tun.v4,
        IpAddr::V6(a) => a == tun.v6,
    }
}

// ---- views over the resource list -------------------------------------------------------

pub open spec fn ids_unique(rs: Seq<ResourceEntry>) -> bool {
    forall|i: int, j: int| 0 <= i < rs.len() && 0 <= j < rs.len() && i != j ==> #[trigger] rs[i].0 != #[trigger] rs[j].0
}

pub open spec fn keys_unique(ts: Seq<TranslationEntry>) -> bool {
    forall|i: int, j: int| 0 <= i < ts.len() && 0 <= j < ts.len() && i != j ==> #[trigger] ts[i].0 != #[trigger] ts[j].0
}

pub open spec fn has_res(rs: Seq<ResourceEntry>, id: ResourceId) -> bool {
    exists|i: int| 0 <= i < rs.len() && (#[trigger] rs[i]).0 == id
}

pub open spec fn res_index(rs: Seq<ResourceEntry>, id: ResourceId) -> int {
    choose|i: int| 0 <= i < rs.len() && (#[trigger] rs[i]).0 == id
}

pub open spec fn res_of(rs: Seq<ResourceEntry>, id: ResourceId) -> ResourceOnGateway {
    rs[res_index(rs, id)].1
}

/// `n` is the network of some CIDR resource.
pub open spec fn cidr_key(rs: Seq<ResourceEntry>, n: IpNetwork) -> bool {
    exists|i: int| 0 <= i < rs.len() && (#[trigger] rs[i]).1 == (ResourceOnGateway::Cidr {
        network: n,
        filters: rs[i].1->Cidr_filters,
        expires_at: rs[i].1->Cidr_expires_at,
    })
}

/// The union of the filters of every resource that covers `n` lets `p` through.
pub open spec fn covering_allows(rs: Seq<ResourceEntry>, n: IpNetwork, p: Protocol) -> bool {
    exists|i: int| 0 <= i < rs.len() && res_covers((#[trigger] rs[i]).1, n) && filters_allow(res_filters(rs[i].1), p)
}

/// `n` is the single-address network of a proxy address whose resource is present.
pub open spec fn dns_key(rs: Seq<ResourceEntry>, ts: Seq<TranslationEntry>, n: IpNetwork) -> bool {
    exists|j: int| 0 <= j < ts.len() && n == IpNetwork::host_spec((#[trigger] ts[j]).0) && has_res(rs, ts[j].1.resource_id)
}

/// The filters of the resource of the proxy address of `n` let `p` through.
pub open spec fn dns_allows(rs: Seq<ResourceEntry>, ts: Seq<TranslationEntry>, n: IpNetwork, p: Protocol) -> bool {
    exists|j: int| 0 <= j < ts.len() && n == IpNetwork::host_spec((#[trigger] ts[j]).0) && has_res(rs, ts[j].1.resource_id)
        && filters_allow(res_filters(res_of(rs, ts[j].1.resource_id)), p)
}

/// The filter index is the one that the resources and translations call for: each CIDR
/// network takes the union of the filters of every resource that covers it, and each proxy
/// address takes the filters of its DNS resource.
pub open spec fn index_matches(
    entries: Map<IpNetwork, FilterEngine>,
    rs: Seq<ResourceEntry>,
    ts: Seq<TranslationEntry>,
) -> bool {
    &&& forall|n: IpNetwork| #[trigger] entries.contains_key(n) <==> (cidr_key(rs, n) || dns_key(rs, ts, n))
    &&& forall|n: IpNetwork, p: Protocol| #[trigger] entries.contains_key(n) ==> (#[trigger] entries[n].allows(p)
        == if dns_key(rs, ts, n) { dns_allows(rs, ts, n, p) } else { covering_allows(rs, n, p) })
}

pub open spec fn any_internet(rs: Seq<ResourceEntry>) -> bool {
    exists|i: int| 0 <= i < rs.len() && (#[trigger] rs[i]).1 is Internet
}

pub open spec fn networks_wf(rs: Seq<ResourceEntry>) -> bool {
    forall|i: int| 0 <= i < rs.len() ==> (#[trigger] rs[i]).1.networks_wf()
}

/// The state of one client on the gateway.
pub struct ClientOnGateway {
    id: ClientId,
    client_tun: IpConfig,
    gateway_tun: IpConfig,
    resources: Vec<ResourceEntry>,
    /// Whether an Internet resource is among the resources.
    internet_resource_enabled: bool,
    filters: FilterTable,
    permanent_translations: Vec<TranslationEntry>,
    nat_table: NatTable,
    num_dropped_packets: u64,
}

/// Traffic to or from an address that no authorised resource lets through.
#[derive(Clone, Copy, Debug, PartialEq, Eq, Structural, Hash)]
pub struct NotAllowedResource {
    pub ip: IpAddr,
    /// What the filter engine said, where a filter applied at all.
    pub filtered: Option<Filtered>,
}

/// Why an outbound packet may not pass.
#[derive(Clone, Copy, Debug, PartialEq, Eq, Structural, Hash)]
pub enum AccessError {
    /// The source is not one of the client's tunnel addresses.
    NotClientIp(IpAddr),
    NotAllowedResource(NotAllowedResource),
}

/// A packet that cannot be translated.
#[derive(Clone, Copy, Debug, PartialEq, Eq, Structural, Hash)]
pub enum PacketError {
    /// An ICMP error cannot quote a packet of this protocol.
    Unquotable,
    /// The NAT carries TCP, UDP and ICMP echo only.
    UnsupportedProtocol,
    PortsExhausted,
    /// An inbound packet is not addressed to one of the client's tunnel addresses.
    NotClientIp(IpAddr),
}

/// What to do with a packet that the client sent.
#[derive(Clone, Copy, Debug, PartialEq, Eq, Structural, Hash)]
pub enum TranslateOutboundResult {
    /// Write this packet to the TUN device.
    Send(IpPacket),
    /// Send this ICMP error back to the client: the proxy address leads nowhere.
    DestinationUnreachable(IpPacket),
    /// Send this ICMP error back to the client: a filter prohibits the packet.
    Filtered(IpPacket),
}

/// The translation of proxy address `ip`, if any.
pub open spec fn trans_of(ts: Seq<TranslationEntry>, ip: IpAddr) -> Option<TranslationState> {
    if exists|j: int| 0 <= j < ts.len() && (#[trigger] ts[j]).0 == ip {
        Some(ts[choose|j: int| 0 <= j < ts.len() && (#[trigger] ts[j]).0 == ip].1)
    } else {
        None
    }
}

/// The protocol and the client's port (or ICMP identifier) that the NAT keys a flow by.
pub open spec fn nat_key(p: IpPacket) -> Option<(ProtocolKind, u16)> {
    match p.transport {
        Transport::Tcp { sport, .. } => Some((ProtocolKind::Tcp, sport)),
        Transport::Udp { sport, .. } => Some((ProtocolKind::Udp, sport)),
        Transport::Icmp { id } => Some((ProtocolKind::Icmp, id)),
        _ => None,
    }
}

/// The packet sent on to `dst` from source port (or ICMP identifier) `port`.
pub open spec fn with_destination(p: IpPacket, dst: IpAddr, port: u16) -> IpPacket {
    IpPacket {
        src: p.src,
        dst,
        transport: match p.transport {
            Transport::Tcp { dport, .. } => Transport::Tcp { sport: port, dport },
            Transport::Udp { dport, .. } => Transport::Udp { sport: port, dport },
            Transport::Icmp { .. } => Transport::Icmp { id: port },
            t => t,
        },
    }
}

/// The packet coming from `src` to destination port (or ICMP identifier) `port`.
pub open spec fn with_source(p: IpPacket, src: IpAddr, port: u16) -> IpPacket {
    IpPacket {
        src,
        dst: p.dst,
        transport: match p.transport {
            Transport::Tcp { sport, .. } => Transport::Tcp { sport, dport: port },
            Transport::Udp { sport, .. } => Transport::Udp { sport, dport: port },
            Transport::Icmp { .. } => Transport::Icmp { id: port },
            t => t,
        },
    }
}

fn nat_key_of(p: &IpPacket) -> (r: Option<(ProtocolKind, u16)>)
    ensures
        r == nat_key(*p),
{
    match p.transport {
        Transport::Tcp { sport, .. } => Some((ProtocolKind::Tcp, sport)),
        Transport::Udp { sport, .. } => Some((ProtocolKind::Udp, sport)),
        Transport::Icmp { id } => Some((ProtocolKind::Icmp, id)),
        _ => None,
    }
}

fn rewrite_destination(p: &IpPacket, dst: IpAddr, port: u16) -> (r: IpPacket)
    ensures
        r == with_destination(*p, dst, port),
{
    let transport = match p.transport {
        Transport::Tcp { dport, .. } => Transport::Tcp { sport: port, dport },
        Transport::Udp { dport, .. } => Transport::Udp { sport: port, dport },
        Transport::Icmp { .. } => Transport::Icmp { id: port },
        t => t,
    };
    IpPacket { src: p.src, dst, transport }
}

fn rewrite_source(p: &IpPacket, src: IpAddr, port: u16) -> (r: IpPacket)
    ensures
        r == with_source(*p, src, port),
{
    let transport = match p.transport {
        Transport::Tcp { sport, .. } => Transport::Tcp { sport, dport: port },
        Transport::Udp { sport, .. } => Transport::Udp { sport, dport: port },
        Transport::Icmp { .. } => Transport::Icmp { id: port },
        t => t,
    };
    IpPacket { src, dst: p.dst, transport }
}

/// The ICMP error for `p`, or the error that it cannot be quoted.
pub open spec fn reply_or_err(p: IpPacket, error: IcmpError, filtered: bool) -> Result<TranslateOutboundResult, PacketError> {
    match p.icmp_reply_spec(error) {
        Some(x) => Ok(if filtered { TranslateOutboundResult::Filtered(x) } else { TranslateOutboundResult::DestinationUnreachable(x) }),
        None => Err(PacketError::Unquotable),
    }
}

fn reply(p: &IpPacket, error: IcmpError, filtered: bool) -> (r: Result<TranslateOutboundResult, PacketError>)
    ensures
        r == reply_or_err(*p, error, filtered),
{
    match p.icmp_reply(error) {
        Some(x) => Ok(if filtered { TranslateOutboundResult::Filtered(x) } else { TranslateOutboundResult::DestinationUnreachable(x) }),
        None => Err(PacketError::Unquotable),
    }
}

pub open spec fn sat_inc(x: u64) -> u64 {
    if x < u64::MAX {
        (x + 1) as u64
    } else {
        x
    }
}

/// What becomes of an outbound packet that passed the source and filter checks: traffic to
/// the gateway and to CIDR or Internet resources goes on unchanged; traffic to a proxy address
/// goes through the NAT to the resolved address, or is answered with an ICMP error.
pub open spec fn transform_ok(
    c0: ClientOnGateway,
    c1: ClientOnGateway,
    packet: IpPacket,
    now: u64,
    r: Result<TranslateOutboundResult, PacketError>,
) -> bool {
    if is_tun_ip(c0.gateway_tun(), packet.dst) || !is_proxy_addr(packet.dst) {
        r == Ok::<TranslateOutboundResult, PacketError>(TranslateOutboundResult::Send(packet))
            && c1.nat_state() == c0.nat_state()
    } else {
        match trans_of(c0.translations(), packet.dst) {
            None => r == reply_or_err(packet, IcmpError::NetworkUnreachable, false) && c1.nat_state() == c0.nat_state(),
            Some(t) => if (t.resolved_ip is V4) != (packet.dst is V4) {
                r == reply_or_err(packet, IcmpError::NetworkUnreachable, false) && c1.nat_state() == c0.nat_state()
            } else {
                match nat_key(packet) {
                    None => r == Err::<TranslateOutboundResult, PacketError>(PacketError::UnsupportedProtocol)
                        && c1.nat_state() == c0.nat_state(),
                    Some((kind, port)) => match r {
                        Ok(TranslateOutboundResult::Send(p2)) => exists|op: u16| {
                            &&& #[trigger] with_destination(packet, t.resolved_ip, op) == p2
                            &&& c1.nat_state().sessions().contains(NatSession {
                                kind,
                                inside_port: port,
                                inside_dst: packet.dst,
                                outside_port: op,
                                outside_dst: t.resolved_ip,
                                last_used: now,
                            })
                        },
                        Err(e) => e == PacketError::PortsExhausted && c1.nat_state() == c0.nat_state(),
                        _ => false,
                    },
                }
            },
        }
    }
}

/// The parts of the state that packet translation leaves alone.
pub open spec fn same_policy(c0: ClientOnGateway, c1: ClientOnGateway) -> bool {
    &&& c1.id_spec() == c0.id_spec()
    &&& c1.client_tun() == c0.client_tun()
    &&& c1.gateway_tun() == c0.gateway_tun()
    &&& c1.resources() == c0.resources()
    &&& c1.translations() == c0.translations()
    &&& c1.filter_entries() == c0.filter_entries()
    &&& c1.internet_enabled() == c0.internet_enabled()
}

/// Why NAT for a domain of a DNS resource could not be set up.
#[derive(Clone, Copy, Debug, PartialEq, Eq, Structural, Hash)]
pub enum SetupNatError {
    UnknownResource,
    NotDnsResource,
    /// The domain does not fall under the resource's address pattern.
    NotSubdomain,
}

/// Some NAT session runs to the proxy address `ip`.
pub open spec fn nat_serves(table: NatTable, ip: IpAddr) -> bool {
    exists|i: int| 0 <= i < table.sessions().len() && (#[trigger] table.sessions()[i]).inside_dst == ip
}

pub open spec fn in_family(x: IpAddr, v4: bool) -> bool {
    (x is V4) == v4
}

/// `x` is one of the resolved addresses that proxy addresses of family `v4` map to: those
/// of the same family, or, where there are none, those of the other family.
pub open spec fn mapped_contains(resolved: Seq<IpAddr>, v4: bool, x: IpAddr) -> bool {
    &&& resolved.contains(x)
    &&& if exists|y: IpAddr| #[trigger] resolved.contains(y) && in_family(y, v4) {
        in_family(x, v4)
    } else {
        !in_family(x, v4)
    }
}

proof fn lemma_trans_of_at(ts: Seq<TranslationEntry>, c: int)
    requires
        keys_unique(ts),
        0 <= c < ts.len(),
    ensures
        trans_of(ts, ts[c].0) == Some(ts[c].1),
{
    let ip = ts[c].0;
    assert(ts[c].0 == ip);
    let k = choose|j: int| 0 <= j < ts.len() && (#[trigger] ts[j]).0 == ip;
    if k != c {
        assert(ts[k].0 != ts[c].0);
    }
}

/// The addresses of `s` of family `v4`, in their order.
pub open spec fn fam(s: Seq<IpAddr>, v4: bool) -> Seq<IpAddr>
    decreases s.len(),
{
    if s.len() == 0 {
        Seq::empty()
    } else if in_family(s.last(), v4) {
        fam(s.drop_last(), v4).push(s.last())
    } else {
        fam(s.drop_last(), v4)
    }
}

/// The resolved addresses that proxy addresses of family `v4` cycle through: those of the
/// same family, or where there are none, those of the other.
pub open spec fn mapped_seq(resolved: Seq<IpAddr>, v4: bool) -> Seq<IpAddr> {
    if fam(resolved, v4).len() > 0 {
        fam(resolved, v4)
    } else {
        fam(resolved, !v4)
    }
}

/// The order of addresses: IPv4 before IPv6, then by value.
pub open spec fn ip_lt(a: IpAddr, b: IpAddr) -> bool {
    match (a, b) {
        (IpAddr::V4(x), IpAddr::V4(y)) => x < y,
        (IpAddr::V4(_), IpAddr::V6(_)) => true,
        (IpAddr::V6(_), IpAddr::V4(_)) => false,
        (IpAddr::V6(x), IpAddr::V6(y)) => x < y,
    }
}

/// `out` holds the addresses of `s`, each once, in ascending order.
pub open spec fn sorted_set_of(out: Seq<IpAddr>, s: Seq<IpAddr>) -> bool {
    &&& forall|a: int, b: int| 0 <= a < b < out.len() ==> ip_lt(#[trigger] out[a], #[trigger] out[b])
    &&& forall|x: IpAddr| #[trigger] out.contains(x) <==> s.contains(x)
}

fn ip_less(a: IpAddr, b: IpAddr) -> (r: bool)
    ensures
        r == ip_lt(a, b),
{
    match (a, b) {
        (IpAddr::V4(x), IpAddr::V4(y)) => x < y,
        (IpAddr::V4(_), IpAddr::V6(_)) => true,
        (IpAddr::V6(_), IpAddr::V4(_)) => false,
        (IpAddr::V6(x), IpAddr::V6(y)) => x < y,
    }
}

proof fn lemma_ip_lt_order()
    ensures
        forall|a: IpAddr, b: IpAddr, c: IpAddr| #[trigger] ip_lt(a, b) && #[trigger] ip_lt(b, c) ==> ip_lt(a, c),
        forall|a: IpAddr, b: IpAddr| a != b ==> #[trigger] ip_lt(a, b) || ip_lt(b, a),
        forall|a: IpAddr| !#[trigger] ip_lt(a, a),
{
}

/// The addresses of `ips`, each once, in ascending order, as a set of them would hold them.
pub fn sorted_unique(ips: &Vec<IpAddr>) -> (r: Vec<IpAddr>)
    ensures
        sorted_set_of(r@, ips@),
{
    proof {
        lemma_ip_lt_order();
    }
    let mut out: Vec<IpAddr> = Vec::new();
    let mut i: usize = 0;
    while i < ips.len()
        invariant
            i <= ips@.len(),
            sorted_set_of(out@, ips@.take(i as int)),
            forall|a: IpAddr, b: IpAddr, c: IpAddr| #[trigger] ip_lt(a, b) && #[trigger] ip_lt(b, c) ==> ip_lt(a, c),
            forall|a: IpAddr, b: IpAddr| a != b ==> #[trigger] ip_lt(a, b) || ip_lt(b, a),
            forall|a: IpAddr| !#[trigger] ip_lt(a, a),
        decreases ips.len() - i,
    {
        let x = ips[i];
        let ghost o = out@;
        proof {
            assert(ips@.take(i + 1) == ips@.take(i as int).push(x));
            lemma_seq_push_contains(ips@.take(i as int), x);
        }
        let mut p: usize = 0;
        while p < out.len() && ip_less(out[p], x)
            invariant
                p <= out@.len(),
                out@ == o,
                forall|j: int| 0 <= j < p ==> ip_lt(#[trigger] o[j], x),
            decreases out.len() - p,
        {
            p = p + 1;
        }
        if p < out.len() && out[p] == x {
            proof {
                assert(o.contains(x));
            }
        } else {
            out.insert(p, x);
            proof {
                let n = out@;
                assert(n =~= o.insert(p as int, x));
                if p < o.len() {
                    assert(!ip_lt(o[p as int], x));
                    assert(ip_lt(x, o[p as int]));
                }
                assert forall|a: int, b: int| 0 <= a < b < n.len() implies ip_lt(#[trigger] n[a], #[trigger] n[b]) by {
                    if b < p {
                        assert(n[a] == o[a] && n[b] == o[b]);
                    } else if b == p {
                        assert(n[a] == o[a]);
                    } else if a < p {
                        assert(n[a] == o[a] && n[b] == o[b - 1]);
                        assert(ip_lt(o[a], x));
                        assert(ip_lt(x, o[p as int]));
                        if b - 1 > p {
                            assert(ip_lt(o[p as int], o[b - 1]));
                        }
                    } else if a == p {
                        assert(n[b] == o[b - 1]);
                        if b - 1 > p {
                            assert(ip_lt(o[p as int], o[b - 1]));
                        }
                    } else {
                        assert(n[a] == o[a - 1] && n[b] == o[b - 1]);
                    }
                }
                assert forall|y: IpAddr| #[trigger] n.contains(y) <==> (o.contains(y) || y == x) by {
                    if o.contains(y) {
                        let j = choose|j: int| 0 <= j < o.len() && o[j] == y;
                        if j < p {
                            assert(n[j] == y);
                        } else {
                            assert(n[j + 1] == y);
                        }
                    }
                    if y == x {
                        assert(n[p as int] == y);
                    }
                    if n.contains(y) {
                        let j = choose|j: int| 0 <= j < n.len() && n[j] == y;
                        if j < p {
                            assert(o[j] == y);
                        } else if j > p {
                            assert(o[j - 1] == y);
                        }
                    }
                }
            }
        }
        i = i + 1;
    }
    assert(ips@.take(ips@.len() as int) == ips@);
    out
}

/// An address of `fam(s, v4)` is an address of `s`.
proof fn lemma_fam_contains(s: Seq<IpAddr>, v4: bool)
    ensures
        forall|x: IpAddr| #[trigger] fam(s, v4).contains(x) ==> s.contains(x) && in_family(x, v4),
        fam(s, v4).len() <= s.len(),
    decreases s.len(),
{
    if s.len() > 0 {
        lemma_fam_contains(s.drop_last(), v4);
        let f0 = fam(s.drop_last(), v4);
        assert forall|x: IpAddr| #[trigger] fam(s, v4).contains(x) implies s.contains(x) && in_family(x, v4) by {
            let j = choose|j: int| 0 <= j < fam(s, v4).len() && fam(s, v4)[j] == x;
            if j < f0.len() {
                assert(f0[j] == x);
                assert(f0.contains(x));
                let m = choose|m: int| 0 <= m < s.drop_last().len() && s.drop_last()[m] == x;
                assert(s[m] == x);
            } else {
                assert(s[s.len() - 1] == x);
            }
        }
    }
}

fn family(ips: &Vec<IpAddr>, v4: bool) -> (r: Vec<IpAddr>)
    ensures
        forall|x: IpAddr| #[trigger] r@.contains(x) <==> (ips@.contains(x) && in_family(x, v4)),
        r@ == fam(ips@, v4),
{
    let mut out: Vec<IpAddr> = Vec::new();
    let mut i: usize = 0;
    while i < ips.len()
        invariant
            i <= ips@.len(),
            forall|x: IpAddr| #[trigger] out@.contains(x) <==> (ips@.take(i as int).contains(x) && in_family(x, v4)),
            out@ == fam(ips@.take(i as int), v4),
        decreases ips.len() - i,
    {
        let x = ips[i];
        let ghost out0 = out@;
        if x.is_ipv4() == v4 {
            out.push(x);
        }
        proof {
            assert(ips@.take(i + 1) == ips@.take(i as int).push(x));
            assert(ips@.take(i + 1).drop_last() =~= ips@.take(i as int));
            lemma_seq_push_contains(ips@.take(i as int), x);
            lemma_seq_push_contains(out0, x);
        }
        i = i + 1;
    }
    assert(ips@.take(ips@.len() as int) == ips@);
    out
}

/// The resolved addresses that proxy addresses of family `v4` cycle through.
fn mapped(ips: &Vec<IpAddr>, v4: bool) -> (r: Vec<IpAddr>)
    ensures
        forall|x: IpAddr| #[trigger] r@.contains(x) <==> mapped_contains(ips@, v4, x),
        ips@.len() > 0 ==> r@.len() > 0,
        r@ == mapped_seq(ips@, v4),
{
    let same = family(ips, v4);
    let r = if same.len() > 0 {
        proof {
            let y = same@[0];
            assert(same@.contains(y));
        }
        same
    } else {
        proof {
            assert forall|y: IpAddr| !(#[trigger] ips@.contains(y) && in_family(y, v4)) by {
                if ips@.contains(y) && in_family(y, v4) {
                    assert(same@.contains(y));
                }
            }
        }
        family(ips, !v4)
    };
    proof {
        if ips@.len() > 0 {
            let y = ips@[0];
            assert(ips@.contains(y));
            assert(mapped_contains(ips@, v4, y) || exists|z: IpAddr| #[trigger] ips@.contains(z) && in_family(z, v4));
            if !r@.contains(y) {
                let z = choose|z: IpAddr| #[trigger] ips@.contains(z) && in_family(z, v4);
                assert(r@.contains(z));
            }
        }
    }
    r
}

proof fn lemma_seq_push_contains<A>(s: Seq<A>, x: A)
    ensures
        forall|y: A| #[trigger] s.push(x).contains(y) <==> (s.contains(y) || y == x),
{
    assert forall|y: A| #[trigger] s.push(x).contains(y) <==> (s.contains(y) || y == x) by {
        let t = s.push(x);
        if s.contains(y) {
            let j = choose|j: int| 0 <= j < s.len() && s[j] == y;
            assert(t[j] == y);
        }
        if y == x {
            assert(t[s.len() as int] == y);
        }
        if t.contains(y) {
            let j = choose|j: int| 0 <= j < t.len() && t[j] == y;
            if j < s.len() {
                assert(s[j] == y);
            }
        }
    }
}

/// Every id other than `id` names the same resource in `rs1` as in `rs0`.
pub open spec fn same_except(rs0: Seq<ResourceEntry>, rs1: Seq<ResourceEntry>, id: ResourceId) -> bool {
    forall|id2: ResourceId| id2 != id ==> {
        &&& #[trigger] has_res(rs1, id2) == has_res(rs0, id2)
        &&& has_res(rs0, id2) ==> res_of(rs1, id2) == res_of(rs0, id2)
    }
}

proof fn lemma_res_of(rs: Seq<ResourceEntry>, i: int)
    requires
        ids_unique(rs),
        0 <= i < rs.len(),
    ensures
        has_res(rs, rs[i].0),
        res_index(rs, rs[i].0) == i,
        res_of(rs, rs[i].0) == rs[i].1,
{
    assert(has_res(rs, rs[i].0));
    let j = res_index(rs, rs[i].0);
    if j != i {
        assert(rs[i].0 != rs[j].0);
    }
}

proof fn lemma_push_resource(rs: Seq<ResourceEntry>, e: ResourceEntry)
    requires
        ids_unique(rs),
        !has_res(rs, e.0),
    ensures
        ids_unique(rs.push(e)),
        has_res(rs.push(e), e.0),
        res_of(rs.push(e), e.0) == e.1,
        same_except(rs, rs.push(e), e.0),
{
    let t = rs.push(e);
    assert forall|i: int, j: int| 0 <= i < t.len() && 0 <= j < t.len() && i != j implies #[trigger] t[i].0 != #[trigger] t[j].0 by {
        if i < rs.len() && j < rs.len() {
            assert(t[i] == rs[i] && t[j] == rs[j]);
        } else if i < rs.len() {
            assert(t[i] == rs[i]);
        } else {
            assert(t[j] == rs[j]);
        }
    }
    lemma_res_of(t, rs.len() as int);
    assert forall|id2: ResourceId| id2 != e.0 implies {
        &&& #[trigger] has_res(t, id2) == has_res(rs, id2)
        &&& has_res(rs, id2) ==> res_of(t, id2) == res_of(rs, id2)
    } by {
        if has_res(rs, id2) {
            let i = res_index(rs, id2);
            assert(t[i] == rs[i]);
            lemma_res_of(rs, i);
            lemma_res_of(t, i);
        }
        if has_res(t, id2) {
            let i = res_index(t, id2);
            assert(t[i] == rs[i]);
        }
    }
}

proof fn lemma_update_resource(rs: Seq<ResourceEntry>, i: int, r: ResourceOnGateway)
    requires
        ids_unique(rs),
        0 <= i < rs.len(),
    ensures
        ids_unique(rs.update(i, (rs[i].0, r))),
        has_res(rs.update(i, (rs[i].0, r)), rs[i].0),
        res_of(rs.update(i, (rs[i].0, r)), rs[i].0) == r,
        same_except(rs, rs.update(i, (rs[i].0, r)), rs[i].0),
{
    let t = rs.update(i, (rs[i].0, r));
    assert forall|a: int, b: int| 0 <= a < t.len() && 0 <= b < t.len() && a != b implies #[trigger] t[a].0 != #[trigger] t[b].0 by {
        assert(t[a].0 == rs[a].0 && t[b].0 == rs[b].0);
    }
    lemma_res_of(t, i);
    assert forall|id2: ResourceId| id2 != rs[i].0 implies {
        &&& #[trigger] has_res(t, id2) == has_res(rs, id2)
        &&& has_res(rs, id2) ==> res_of(t, id2) == res_of(rs, id2)
    } by {
        if has_res(rs, id2) {
            let k = res_index(rs, id2);
            assert(t[k].0 == rs[k].0);
            lemma_res_of(rs, k);
            lemma_res_of(t, k);
        }
        if has_res(t, id2) {
            let k = res_index(t, id2);
            assert(t[k].0 == rs[k].0);
        }
    }
}

impl ClientOnGateway {
    pub closed spec fn id_spec(self) -> ClientId {
        self.id
    }

    pub closed spec fn client_tun(self) -> IpConfig {
        self.client_tun
    }

    pub closed spec fn gateway_tun(self) -> IpConfig {
        self.gateway_tun
    }

    pub closed spec fn resources(self) -> Seq<ResourceEntry> {
        self.resources@
    }

    pub closed spec fn translations(self) -> Seq<TranslationEntry> {
        self.permanent_translations@
    }

    pub closed spec fn filter_entries(self) -> Map<IpNetwork, FilterEngine> {
        table_entries(self.filters)
    }

    pub closed spec fn internet_enabled(self) -> bool {
        self.internet_resource_enabled
    }

    pub closed spec fn nat_state(self) -> NatTable {
        self.nat_table
    }

    pub closed spec fn dropped(self) -> u64 {
        self.num_dropped_packets
    }

    pub open spec fn has_resource(self, id: ResourceId) -> bool {
        has_res(self.resources(), id)
    }

    pub open spec fn resource(self, id: ResourceId) -> ResourceOnGateway {
        res_of(self.resources(), id)
    }

    /// The internal invariant: unique resource ids and proxy addresses, well-formed networks
    /// and NAT table, and a filter index and Internet flag that match the resources.
    pub open spec fn inv(self) -> bool {
        &&& ids_unique(self.resources())
        &&& keys_unique(self.translations())
        &&& networks_wf(self.resources())
        &&& self.nat_state().wf()
        &&& self.internet_enabled() == any_internet(self.resources())
        &&& index_matches(self.filter_entries(), self.resources(), self.translations())
    }

    /// Traffic to or from `ip` with protocol `proto` passes the filter index.
    pub open spec fn allows_traffic(self, ip: IpAddr, proto: Result<Protocol, UnsupportedProtocol>) -> bool {
        (self.internet_enabled() && !is_proxy_addr(ip)) || exists|net: IpNetwork|
            #[trigger] is_longest_match(self.filter_entries(), ip, net) && proto is Ok
                && self.filter_entries()[net].allows(proto->Ok_0)
    }

    pub fn new(id: ClientId, client_tun: IpConfig, gateway_tun: IpConfig) -> (r: ClientOnGateway)
        ensures
            r.inv(),
            r.id_spec() == id,
            r.client_tun() == client_tun,
            r.gateway_tun() == gateway_tun,
            r.resources().len() == 0,
            r.translations().len() == 0,
            r.nat_state().sessions().len() == 0,
            r.nat_state().expired().len() == 0,
            r.dropped() == 0,
    {
        ClientOnGateway {
            id,
            client_tun,
            gateway_tun,
            resources: Vec::new(),
            internet_resource_enabled: false,
            filters: table_new(),
            permanent_translations: Vec::new(),
            nat_table: NatTable::new(),
            num_dropped_packets: 0,
        }
    }

    pub fn id(&self) -> (r: ClientId)
        ensures
            r == self.id_spec(),
    {
        self.id
    }

    /// Packets dropped on the way in because their NAT session had expired or no filter let them through.
    pub fn num_dropped_packets(&self) -> (r: u64)
        ensures
            r == self.dropped(),
    {
        self.num_dropped_packets
    }

    /// Every key of the filter index is a well-formed network.
    proof fn lemma_keys_wf(self)
        requires
            self.inv(),
        ensures
            forall|n: IpNetwork| #[trigger] self.filter_entries().contains_key(n) ==> n.wf(),
    {
        let rs = self.resources();
        let ts = self.translations();
        assert forall|n: IpNetwork| #[trigger] self.filter_entries().contains_key(n) implies n.wf() by {
            if dns_key(rs, ts, n) {
                let j = choose|j: int| 0 <= j < ts.len() && n == IpNetwork::host_spec((#[trigger] ts[j]).0) && has_res(rs, ts[j].1.resource_id);
                lemma_host_wf(ts[j].0);
            } else {
                let i = choose|i: int| 0 <= i < rs.len() && (#[trigger] rs[i]).1 == (ResourceOnGateway::Cidr {
                    network: n,
                    filters: rs[i].1->Cidr_filters,
                    expires_at: rs[i].1->Cidr_expires_at,
                });
                assert(rs[i].1.networks_wf());
            }
        }
    }

    /// Whether the tunnel address `ip` belongs to the client.
    pub fn ensure_client_ip(&self, ip: IpAddr) -> (r: Result<(), IpAddr>)
        ensures
            r is Ok <==> is_tun_ip(self.client_tun(), ip),
            r is Err ==> r == Err::<(), IpAddr>(ip),
    {
        if tun_has_ip(&self.client_tun, ip) {
            Ok(())
        } else {
            Err(ip)
        }
    }

    /// Whether traffic with `ip` on the far side passes the filter index: the Internet
    /// resource lets through all but proxy addresses; otherwise the longest network of the
    /// index that holds `ip` decides by its filters.
    pub fn ensure_allowed_resource(
        &self,
        ip: IpAddr,
        protocol: Result<Protocol, UnsupportedProtocol>,
    ) -> (r: Result<(), NotAllowedResource>)
        requires
            self.inv(),
        ensures
            r is Ok <==> self.allows_traffic(ip, protocol),
    {
        if self.internet_resource_enabled && !is_dns_addr(ip) {
            return Ok(());
        }
        match table_longest_match(&self.filters, ip) {
            None => Err(NotAllowedResource { ip, filtered: None }),
            Some((net, e)) => {
                let applied = e.apply(protocol);
                proof {
                    self.lemma_keys_wf();
                    let entries = self.filter_entries();
                    assert forall|m: IpNetwork| #[trigger] is_longest_match(entries, ip, m) implies m == net by {
                        assert(m.prefix <= net.prefix);
                        assert(net.prefix <= m.prefix);
                        lemma_same_prefix_same_net(m, net, ip);
                    }
                    if applied is Ok {
                        assert(is_longest_match(entries, ip, net));
                    }
                }
                match applied {
                    Ok(()) => Ok(()),
                    Err(f) => Err(NotAllowedResource { ip, filtered: Some(f) }),
                }
            },
        }
    }

    /// An outbound packet comes from one of the client's tunnel addresses and goes to the
    /// gateway's own tunnel address or passes the filter index.
    pub open spec fn outbound_allowed(self, p: IpPacket) -> bool {
        &&& is_tun_ip(self.client_tun(), p.src)
        &&& (is_tun_ip(self.gateway_tun(), p.dst) || self.allows_traffic(p.dst, p.destination_protocol_spec()))
    }

    pub fn ensure_allowed_src_and_dst(&self, packet: &IpPacket) -> (r: Result<(), AccessError>)
        requires
            self.inv(),
        ensures
            r is Ok <==> self.outbound_allowed(*packet),
    {
        if let Err(ip) = self.ensure_client_ip(packet.src) {
            return Err(AccessError::NotClientIp(ip));
        }
        if tun_has_ip(&self.gateway_tun, packet.dst) {
            return Ok(());
        }
        match self.ensure_allowed_resource(packet.dst, packet.destination_protocol()) {
            Ok(()) => Ok(()),
            Err(e) => Err(AccessError::NotAllowedResource(e)),
        }
    }

    fn find_translation(&self, ip: IpAddr) -> (r: Option<TranslationState>)
        requires
            keys_unique(self.translations()),
        ensures
            r == trans_of(self.translations(), ip),
    {
        let mut j: usize = 0;
        while j < self.permanent_translations.len()
            invariant
                j <= self.permanent_translations@.len(),
                keys_unique(self.translations()),
                forall|k: int| 0 <= k < j ==> (#[trigger] self.permanent_translations@[k]).0 != ip,
            decreases self.permanent_translations.len() - j,
        {
            if self.permanent_translations[j].0 == ip {
                proof {
                    let ts = self.translations();
                    assert(ts[j as int].0 == ip);
                    let c = choose|k: int| 0 <= k < ts.len() && (#[trigger] ts[k]).0 == ip;
                    if c != j {
                        assert(ts[c].0 != ts[j as int].0);
                    }
                }
                return Some(self.permanent_translations[j].1);
            }
            j = j + 1;
        }
        None
    }

    /// What an inbound packet becomes after the NAT: `None` where its session has expired.
    pub open spec fn inbound_candidate(self, p: IpPacket, now: u64) -> Option<IpPacket> {
        match self.nat_state().incoming_spec(p, now) {
            TranslateIncomingResult::Translated { kind, port, src } => Some(with_source(p, src, port)),
            TranslateIncomingResult::IcmpError(proto) => Some(proto.into_packet_spec(self.client_tun())),
            TranslateIncomingResult::ExpiredNatSession => None,
            TranslateIncomingResult::NoNatSession => Some(p),
        }
    }

    /// Decides a packet that the client sent.
    pub fn translate_outbound(&mut self, packet: IpPacket, now: u64) -> (r: Result<TranslateOutboundResult, PacketError>)
        requires
            old(self).inv(),
        ensures
            final(self).inv(),
            outbound_ok(*old(self), *final(self), packet, now, r),
    {
        if self.ensure_allowed_src_and_dst(&packet).is_err() {
            return reply(&packet, IcmpError::Prohibited, true);
        }
        self.transform_network_to_tun(&packet, now)
    }

    fn transform_network_to_tun(&mut self, packet: &IpPacket, now: u64) -> (r: Result<TranslateOutboundResult, PacketError>)
        requires
            old(self).inv(),
        ensures
            final(self).inv(),
            same_policy(*old(self), *final(self)),
            final(self).dropped() == old(self).dropped(),
            transform_ok(*old(self), *final(self), *packet, now, r),
            r matches Ok(TranslateOutboundResult::Send(p2)) ==> p2.src == packet.src,
    {
        let dst = packet.dst;
        if tun_has_ip(&self.gateway_tun, dst) || !is_dns_addr(dst) {
            return Ok(TranslateOutboundResult::Send(*packet));
        }
        let state = match self.find_translation(dst) {
            None => {
                return reply(packet, IcmpError::NetworkUnreachable, false);
            },
            Some(t) => t,
        };
        if state.resolved_ip.is_ipv4() != dst.is_ipv4() {
            return reply(packet, IcmpError::NetworkUnreachable, false);
        }
        let (kind, port) = match nat_key_of(packet) {
            None => {
                return Err(PacketError::UnsupportedProtocol);
            },
            Some(k) => k,
        };
        let ghost nat0 = self.nat_table;
        match self.nat_table.translate_outgoing(kind, port, dst, state.resolved_ip, now) {
            Ok(op) => {
                let p2 = rewrite_destination(packet, state.resolved_ip, op);
                proof {
                    let s = NatSession { kind, inside_port: port, inside_dst: dst, outside_port: op, outside_dst: state.resolved_ip, last_used: now };
                    let probe = NatSession { kind, inside_port: port, inside_dst: dst, outside_port: 0, outside_dst: state.resolved_ip, last_used: 0 };
                    if nat0.has_inside(probe) {
                        let i = nat0.inside_index(probe);
                        assert(self.nat_table.sessions()[i] == s);
                    } else {
                        assert(self.nat_table.sessions()[nat0.sessions().len() as int] == s);
                    }
                    assert(self.nat_table.sessions().contains(s));
                    assert(with_destination(*packet, state.resolved_ip, op) == p2);
                }
                Ok(TranslateOutboundResult::Send(p2))
            },
            Err(NatError::PortsExhausted) => Err(PacketError::PortsExhausted),
        }
    }

    /// Decides a packet that arrived on the TUN device for this client: `None` drops it.
    pub fn translate_inbound(&mut self, packet: IpPacket, now: u64) -> (r: Result<Option<IpPacket>, PacketError>)
        requires
            old(self).inv(),
        ensures
            final(self).inv(),
            inbound_ok(*old(self), *final(self), packet, now, r),
    {
        if tun_has_ip(&self.gateway_tun, packet.src) {
            return Ok(Some(packet));
        }
        let p2 = match self.transform_tun_to_network(&packet, now) {
            None => {
                self.count_dropped();
                return Ok(None);
            },
            Some(p2) => p2,
        };
        if let Err(ip) = self.ensure_client_ip(p2.dst) {
            return Err(PacketError::NotClientIp(ip));
        }
        if p2.is_icmp_error() {
            return Ok(Some(p2));
        }
        if self.ensure_allowed_resource(p2.src, p2.source_protocol()).is_err() {
            self.count_dropped();
            return Ok(None);
        }
        Ok(Some(p2))
    }

    fn count_dropped(&mut self)
        ensures
            final(self).dropped() == sat_inc(old(self).dropped()),
            same_policy(*old(self), *final(self)),
            final(self).nat_state() == old(self).nat_state(),
    {
        if self.num_dropped_packets < u64::MAX {
            self.num_dropped_packets = self.num_dropped_packets + 1;
        }
    }

    fn transform_tun_to_network(&self, packet: &IpPacket, now: u64) -> (r: Option<IpPacket>)
        requires
            self.inv(),
        ensures
            r == self.inbound_candidate(*packet, now),
    {
        match self.nat_table.translate_incoming(packet, now) {
            TranslateIncomingResult::Translated { kind, port, src } => Some(rewrite_source(packet, src, port)),
            TranslateIncomingResult::IcmpError(prototype) => Some(prototype.into_packet(self.client_tun)),
            TranslateIncomingResult::ExpiredNatSession => None,
            TranslateIncomingResult::NoNatSession => Some(*packet),
        }
    }

    /// Evicts idle NAT sessions.
    pub fn handle_timeout(&mut self, now: u64)
        requires
            old(self).inv(),
        ensures
            final(self).inv(),
            timeout_ok(*old(self), *final(self), now),
    {
        self.nat_table.handle_timeout(now);
    }

    fn translation_index(&self, ip: IpAddr) -> (r: Option<usize>)
        ensures
            match r {
                Some(j) => j < self.translations().len() && self.translations()[j as int].0 == ip,
                None => forall|k: int| 0 <= k < self.translations().len() ==> (#[trigger] self.translations()[k]).0 != ip,
            },
    {
        let mut j: usize = 0;
        while j < self.permanent_translations.len()
            invariant
                j <= self.permanent_translations@.len(),
                forall|k: int| 0 <= k < j ==> (#[trigger] self.permanent_translations@[k]).0 != ip,
            decreases self.permanent_translations.len() - j,
        {
            if self.permanent_translations[j].0 == ip {
                return Some(j);
            }
            j = j + 1;
        }
        None
    }

    /// Points the proxy address `ip` at `st`, replacing an earlier translation of it.
    fn insert_translation(&mut self, ip: IpAddr, st: TranslationState)
        requires
            keys_unique(old(self).translations()),
        ensures
            keys_unique(final(self).translations()),
            forall|x: IpAddr| #[trigger] trans_of(final(self).translations(), x)
                == if x == ip { Some(st) } else { trans_of(old(self).translations(), x) },
            final(self).id_spec() == old(self).id_spec(),
            final(self).client_tun() == old(self).client_tun(),
            final(self).gateway_tun() == old(self).gateway_tun(),
            final(self).resources() == old(self).resources(),
            final(self).nat_state() == old(self).nat_state(),
            final(self).dropped() == old(self).dropped(),
    {
        let ghost ts = self.translations();
        if let Some(j) = self.translation_index(ip) {
            self.permanent_translations.set(j, (ip, st));
            proof {
                let t = self.translations();
                assert forall|a: int, b: int| 0 <= a < t.len() && 0 <= b < t.len() && a != b implies #[trigger] t[a].0 != #[trigger] t[b].0 by {
                    assert(t[a].0 == ts[a].0 && t[b].0 == ts[b].0);
                }
                assert forall|x: IpAddr| #[trigger] trans_of(t, x)
                    == if x == ip { Some(st) } else { trans_of(ts, x) } by {
                    if x == ip {
                        lemma_trans_of_at(t, j as int);
                    } else if exists|c: int| 0 <= c < ts.len() && (#[trigger] ts[c]).0 == x {
                        let c = choose|c: int| 0 <= c < ts.len() && (#[trigger] ts[c]).0 == x;
                        lemma_trans_of_at(ts, c);
                        assert(t[c] == ts[c]);
                        lemma_trans_of_at(t, c);
                    } else {
                        assert forall|c: int| 0 <= c < t.len() implies (#[trigger] t[c]).0 != x by {
                            assert(t[c].0 == ts[c].0);
                        }
                    }
                }
            }
            return;
        }
        self.permanent_translations.push((ip, st));
        proof {
            let t = self.translations();
            assert forall|a: int, b: int| 0 <= a < t.len() && 0 <= b < t.len() && a != b implies #[trigger] t[a].0 != #[trigger] t[b].0 by {
                if a < ts.len() && b < ts.len() {
                    assert(t[a] == ts[a] && t[b] == ts[b]);
                } else if a < ts.len() {
                    assert(t[a] == ts[a]);
                } else {
                    assert(t[b] == ts[b]);
                }
            }
            assert forall|x: IpAddr| #[trigger] trans_of(t, x)
                == if x == ip { Some(st) } else { trans_of(ts, x) } by {
                if x == ip {
                    lemma_trans_of_at(t, ts.len() as int);
                } else if exists|c: int| 0 <= c < ts.len() && (#[trigger] ts[c]).0 == x {
                    let c = choose|c: int| 0 <= c < ts.len() && (#[trigger] ts[c]).0 == x;
                    lemma_trans_of_at(ts, c);
                    assert(t[c] == ts[c]);
                    lemma_trans_of_at(t, c);
                } else {
                    assert forall|c: int| 0 <= c < t.len() implies (#[trigger] t[c]).0 != x by {
                        if c < ts.len() {
                            assert(t[c] == ts[c]);
                        }
                    }
                }
            }
        }
    }

    /// Sets up NAT for a domain of a DNS resource: each proxy address is paired with a
    /// resolved address of its family (cycling through them; of the other family where its
    /// own has none), except proxy addresses that have live NAT sessions, which keep their
    /// translation. The domain's addresses are recorded on the resource.
    pub fn setup_nat(
        &mut self,
        name: String,
        resource_id: ResourceId,
        resolved_ips: Vec<IpAddr>,
        proxy_ips: Vec<IpAddr>,
    ) -> (r: Result<(), SetupNatError>)
        requires
            old(self).inv(),
        ensures
            final(self).inv(),
            setup_nat_ok(*old(self), *final(self), name@, resource_id, resolved_ips@, proxy_ips@, r),
    {
        let i = match self.find_resource(resource_id) {
            None => {
                return Err(SetupNatError::UnknownResource);
            },
            Some(i) => i,
        };
        let ok = match &self.resources[i].1 {
            ResourceOnGateway::Dns { address, .. } => is_subdomain(name.as_str(), address.as_str()),
            _ => {
                return Err(SetupNatError::NotDnsResource);
            },
        };
        if !ok {
            return Err(SetupNatError::NotSubdomain);
        }
        let ghost c0 = *self;
        let proxies = sorted_unique(&proxy_ips);
        let resolved = sorted_unique(&resolved_ips);
        proof {
            assert forall|v: bool, x: IpAddr| #[trigger] mapped_contains(resolved@, v, x) == mapped_contains(resolved_ips@, v, x) by {
                if exists|y: IpAddr| #[trigger] resolved@.contains(y) && in_family(y, v) {
                    let y = choose|y: IpAddr| #[trigger] resolved@.contains(y) && in_family(y, v);
                    assert(resolved_ips@.contains(y));
                }
                if exists|y: IpAddr| #[trigger] resolved_ips@.contains(y) && in_family(y, v) {
                    let y = choose|y: IpAddr| #[trigger] resolved_ips@.contains(y) && in_family(y, v);
                    assert(resolved@.contains(y));
                }
            }
            if resolved_ips@.len() > 0 {
                assert(resolved_ips@.contains(resolved_ips@[0]));
                assert(resolved@.contains(resolved_ips@[0]));
            }
            if resolved@.len() > 0 {
                assert(resolved@.contains(resolved@[0]));
            }
        }
        let mapped4 = mapped(&resolved, true);
        let mapped6 = mapped(&resolved, false);
        let mut c4: usize = 0;
        let mut c6: usize = 0;
        let mut k: usize = 0;
        while k < proxies.len()
            invariant
                k <= proxies@.len(),
                c4 <= k,
                c6 <= k,
                sorted_set_of(proxies@, proxy_ips@),
                sorted_set_of(resolved@, resolved_ips@),
                c4 == fam(proxies@.take(k as int), true).len(),
                c6 == fam(proxies@.take(k as int), false).len(),
                mapped4@ == mapped_seq(resolved@, true),
                mapped6@ == mapped_seq(resolved@, false),
                forall|v: bool, x: IpAddr| #[trigger] mapped_contains(resolved@, v, x) == mapped_contains(resolved_ips@, v, x),
                resolved_ips@.len() > 0 <==> resolved@.len() > 0,
                forall|v4: bool, j: int| 0 <= j < fam(proxies@.take(k as int), v4).len() && mapped_seq(resolved@, v4).len() > 0
                    && !nat_serves(c0.nat_state(), fam(proxies@.take(k as int), v4)[j])
                    ==> trans_of(self.translations(), #[trigger] fam(proxies@.take(k as int), v4)[j])
                        == Some(TranslationState { resource_id, resolved_ip: mapped_seq(resolved@, v4)[j % (mapped_seq(resolved@, v4).len() as int)] }),
                keys_unique(self.translations()),
                self.resources() == c0.resources(),
                self.nat_state() == c0.nat_state(),
                self.nat_state().wf(),
                self.id_spec() == c0.id_spec(),
                self.client_tun() == c0.client_tun(),
                self.gateway_tun() == c0.gateway_tun(),
                self.dropped() == c0.dropped(),
                forall|x: IpAddr| #[trigger] mapped4@.contains(x) <==> mapped_contains(resolved@, true, x),
                forall|x: IpAddr| #[trigger] mapped6@.contains(x) <==> mapped_contains(resolved@, false, x),
                resolved_ips@.len() > 0 ==> mapped4@.len() > 0 && mapped6@.len() > 0,
                resolved_ips@.len() == 0 ==> self.translations() == c0.translations(),
                forall|ip: IpAddr| #[trigger] nat_serves(c0.nat_state(), ip)
                    ==> trans_of(self.translations(), ip) == trans_of(c0.translations(), ip),
                forall|ip: IpAddr| !proxies@.take(k as int).contains(ip)
                    ==> #[trigger] trans_of(self.translations(), ip) == trans_of(c0.translations(), ip),
                forall|ip: IpAddr| #[trigger] proxies@.take(k as int).contains(ip) && !nat_serves(c0.nat_state(), ip)
                    && resolved_ips@.len() > 0 ==> (trans_of(self.translations(), ip) matches Some(t)
                        && t.resource_id == resource_id && mapped_contains(resolved_ips@, ip is V4, t.resolved_ip)),
            decreases proxies.len() - k,
        {
            let p = proxies[k];
            let ghost before = self.translations();
            let ghost t0 = proxies@.take(k as int);
            let ghost t1 = proxies@.take(k + 1);
            proof {
                assert(t1 == t0.push(p));
                assert(t1.drop_last() =~= t0);
                lemma_seq_push_contains(t0, p);
                lemma_fam_contains(t0, true);
                lemma_fam_contains(t0, false);
                assert(!t0.contains(p)) by {
                    if t0.contains(p) {
                        let m = choose|m: int| 0 <= m < t0.len() && t0[m] == p;
                        assert(proxies@[m] == p);
                        assert(ip_lt(proxies@[m], proxies@[k as int]));
                        lemma_ip_lt_order();
                    }
                }
            }
            let v4 = p.is_ipv4();
            let len = if v4 { mapped4.len() } else { mapped6.len() };
            if len > 0 {
                let target: IpAddr;
                if v4 {
                    target = mapped4[c4 % len];
                    assert(mapped4@.contains(target));
                } else {
                    target = mapped6[c6 % len];
                    assert(mapped6@.contains(target));
                }
                let serves = self.nat_table.has_entry_for_inside(p);
                if !serves {
                    self.insert_translation(p, TranslationState { resource_id, resolved_ip: target });
                } else {
                    proof {
                        assert(nat_serves(c0.nat_state(), p));
                    }
                }
            } else {
                proof {
                    if resolved_ips@.len() > 0 {
                        assert(false);
                    }
                }
            }
            if v4 {
                c4 = c4 + 1;
            } else {
                c6 = c6 + 1;
            }
            proof {
                assert forall|v4: bool, j: int| 0 <= j < fam(t1, v4).len() && mapped_seq(resolved@, v4).len() > 0
                    && !nat_serves(c0.nat_state(), fam(t1, v4)[j])
                    implies trans_of(self.translations(), #[trigger] fam(t1, v4)[j])
                        == Some(TranslationState { resource_id, resolved_ip: mapped_seq(resolved@, v4)[j % (mapped_seq(resolved@, v4).len() as int)] }) by {
                    if j < fam(t0, v4).len() {
                        assert(fam(t1, v4)[j] == fam(t0, v4)[j]);
                        assert(fam(t0, v4).contains(fam(t0, v4)[j]));
                        assert(fam(t0, v4)[j] != p);
                    } else {
                        assert(fam(t1, v4)[j] == p);
                        assert(in_family(p, v4));
                    }
                }
            }
            k = k + 1;
        }
        proof {
            assert(proxies@.take(proxies@.len() as int) == proxies@);
            assert forall|ip: IpAddr| #[trigger] proxies@.contains(ip) == proxy_ips@.contains(ip) by {}
            assert(pairs_translated(c0, *self, resource_id, proxies@, resolved@));
        }
        let ghost rs = self.resources@;
        let (rid, mut r) = self.resources.remove(i);
        r.set_domain(name, resolved_ips);
        self.resources.insert(i, (rid, r));
        proof {
            assert(self.resources@ =~= rs.update(i as int, (rs[i as int].0, r)));
            lemma_res_of(rs, i as int);
            lemma_update_resource(rs, i as int, r);
            assert forall|k2: int| 0 <= k2 < self.resources@.len() implies (#[trigger] self.resources@[k2]).1.networks_wf() by {
                if k2 != i {
                    assert(self.resources@[k2] == rs[k2]);
                }
            }
        }
        self.recalculate_filters();
        Ok(())
    }

    fn find_resource(&self, id: ResourceId) -> (r: Option<usize>)
        requires
            ids_unique(self.resources()),
        ensures
            match r {
                Some(i) => self.has_resource(id) && i == res_index(self.resources(), id),
                None => !self.has_resource(id),
            },
    {
        let mut i: usize = 0;
        while i < self.resources.len()
            invariant
                i <= self.resources@.len(),
                ids_unique(self.resources()),
                forall|j: int| 0 <= j < i ==> (#[trigger] self.resources@[j]).0 != id,
            decreases self.resources.len() - i,
        {
            if self.resources[i].0 == id {
                proof {
                    let rs = self.resources();
                    assert(rs[i as int].0 == id);
                    let j = res_index(rs, id);
                    assert(rs[j].0 == id);
                    if j != i {
                        assert(rs[i as int].0 != rs[j].0);
                    }
                }
                return Some(i);
            }
            i = i + 1;
        }
        None
    }

    /// Whether the client is authorised for the resource.
    pub fn is_allowed(&self, id: ResourceId) -> (r: bool)
        requires
            self.inv(),
        ensures
            r == self.has_resource(id),
    {
        self.find_resource(id).is_some()
    }

    /// Whether the client holds no resource any more.
    pub fn is_emptied(&self) -> (r: bool)
        ensures
            r == (self.resources().len() == 0),
    {
        self.resources.len() == 0
    }

    /// The filter list of a resource; an Internet resource has none.
    fn filters_of(r: &ResourceOnGateway) -> (out: Vec<Filter>)
        ensures
            out@ == res_filters(*r),
    {
        match r {
            ResourceOnGateway::Internet { .. } => Vec::new(),
            _ => copy_filters(r.filters()),
        }
    }

    /// The union of the filters of every resource that covers `n`.
    fn engine_for(&self, n: &IpNetwork) -> (e: FilterEngine)
        requires
            networks_wf(self.resources()),
        ensures
            forall|p: Protocol| #[trigger] e.allows(p) == covering_allows(self.resources(), *n, p),
    {
        let mut e = FilterEngine::deny_all();
        let mut k: usize = 0;
        while k < self.resources.len()
            invariant
                k <= self.resources@.len(),
                networks_wf(self.resources()),
                forall|p: Protocol| #[trigger] e.allows(p) == exists|i: int|
                    0 <= i < k && res_covers((#[trigger] self.resources()[i]).1, *n)
                        && filters_allow(res_filters(self.resources()[i].1), p),
            decreases self.resources.len() - k,
        {
            let r = &self.resources[k].1;
            assert(self.resources()[k as int].1.networks_wf());
            if r.covers(n) {
                let fs = Self::filters_of(r);
                e.add_filters(&fs);
            }
            proof {
                assert forall|p: Protocol| #[trigger] e.allows(p) == exists|i: int|
                    0 <= i < k + 1 && res_covers((#[trigger] self.resources()[i]).1, *n)
                        && filters_allow(res_filters(self.resources()[i].1), p) by {
                    if res_covers(self.resources()[k as int].1, *n)
                        && filters_allow(res_filters(self.resources()[k as int].1), p) {
                        assert(e.allows(p));
                    }
                }
            }
            k = k + 1;
        }
        e
    }

    /// Rebuilds the filter index and the Internet flag from the resources and translations.
    fn recalculate_filters(&mut self)
        requires
            ids_unique(old(self).resources()),
            keys_unique(old(self).translations()),
            networks_wf(old(self).resources()),
        ensures
            final(self).id_spec() == old(self).id_spec(),
            final(self).client_tun() == old(self).client_tun(),
            final(self).gateway_tun() == old(self).gateway_tun(),
            final(self).resources() == old(self).resources(),
            final(self).translations() == old(self).translations(),
            final(self).nat_state() == old(self).nat_state(),
            final(self).dropped() == old(self).dropped(),
            final(self).internet_enabled() == any_internet(final(self).resources()),
            index_matches(final(self).filter_entries(), final(self).resources(), final(self).translations()),
    {
        let ghost rs = self.resources();
        let ghost ts = self.translations();
        let mut table = table_new();
        let mut i: usize = 0;
        while i < self.resources.len()
            invariant
                i <= rs.len(),
                rs == self.resources(),
                networks_wf(rs),
                forall|n: IpNetwork| #[trigger] table_entries(table).contains_key(n) <==> exists|i2: int|
                    0 <= i2 < i && (#[trigger] rs[i2]).1 == (ResourceOnGateway::Cidr {
                        network: n,
                        filters: rs[i2].1->Cidr_filters,
                        expires_at: rs[i2].1->Cidr_expires_at,
                    }),
                forall|n: IpNetwork, p: Protocol| #[trigger] table_entries(table).contains_key(n)
                    ==> (#[trigger] table_entries(table)[n].allows(p) == covering_allows(rs, n, p)),
            decreases self.resources.len() - i,
        {
            let ghost before = table_entries(table);
            match &self.resources[i].1 {
                ResourceOnGateway::Cidr { network, .. } => {
                    let e = self.engine_for(network);
                    assert(rs[i as int].1.networks_wf());
                    table_insert(&mut table, *network, e);
                    proof {
                        assert forall|n: IpNetwork| #[trigger] table_entries(table).contains_key(n) <==> exists|i2: int|
                            0 <= i2 < i + 1 && (#[trigger] rs[i2]).1 == (ResourceOnGateway::Cidr {
                                network: n,
                                filters: rs[i2].1->Cidr_filters,
                                expires_at: rs[i2].1->Cidr_expires_at,
                            }) by {
                            if n == *network {
                                assert(rs[i as int].1 == (ResourceOnGateway::Cidr {
                                    network: n,
                                    filters: rs[i as int].1->Cidr_filters,
                                    expires_at: rs[i as int].1->Cidr_expires_at,
                                }));
                            }
                        }
                    }
                },
                _ => {
                    proof {
                        assert forall|n: IpNetwork| #[trigger] table_entries(table).contains_key(n) <==> exists|i2: int|
                            0 <= i2 < i + 1 && (#[trigger] rs[i2]).1 == (ResourceOnGateway::Cidr {
                                network: n,
                                filters: rs[i2].1->Cidr_filters,
                                expires_at: rs[i2].1->Cidr_expires_at,
                            }) by {
                            if exists|i2: int|
                                0 <= i2 < i + 1 && (#[trigger] rs[i2]).1 == (ResourceOnGateway::Cidr {
                                    network: n,
                                    filters: rs[i2].1->Cidr_filters,
                                    expires_at: rs[i2].1->Cidr_expires_at,
                                }) {
                                let i2 = choose|i2: int|
                                    0 <= i2 < i + 1 && (#[trigger] rs[i2]).1 == (ResourceOnGateway::Cidr {
                                        network: n,
                                        filters: rs[i2].1->Cidr_filters,
                                        expires_at: rs[i2].1->Cidr_expires_at,
                                    });
                                assert(i2 != i);
                            }
                        }
                    }
                },
            }
            i = i + 1;
        }
        assert forall|n: IpNetwork| #[trigger] table_entries(table).contains_key(n) <==> cidr_key(rs, n) by {}
        let mut j: usize = 0;
        while j < self.permanent_translations.len()
            invariant
                j <= ts.len(),
                rs == self.resources(),
                ts == self.translations(),
                ids_unique(rs),
                keys_unique(ts),
                forall|n: IpNetwork| #[trigger] table_entries(table).contains_key(n) <==> (cidr_key(rs, n)
                    || exists|j2: int| 0 <= j2 < j && n == IpNetwork::host_spec((#[trigger] ts[j2]).0)
                        && has_res(rs, ts[j2].1.resource_id)),
                forall|n: IpNetwork, p: Protocol| #[trigger] table_entries(table).contains_key(n)
                    ==> (#[trigger] table_entries(table)[n].allows(p) == if (exists|j2: int| 0 <= j2 < j
                        && n == IpNetwork::host_spec((#[trigger] ts[j2]).0) && has_res(rs, ts[j2].1.resource_id)) {
                        dns_allows(rs, ts, n, p)
                    } else {
                        covering_allows(rs, n, p)
                    }),
            decreases self.permanent_translations.len() - j,
        {
            let (proxy, state) = self.permanent_translations[j];
            match self.find_resource(state.resource_id) {
                Some(k) => {
                    let fs = Self::filters_of(&self.resources[k].1);
                    let mut e = FilterEngine::deny_all();
                    e.add_filters(&fs);
                    let h = IpNetwork::host(proxy);
                    table_insert(&mut table, h, e);
                    proof {
                        assert(ts[j as int].0 == proxy);
                        assert forall|j2: int| 0 <= j2 < ts.len() && h == IpNetwork::host_spec((#[trigger] ts[j2]).0)
                            implies j2 == j by {
                            if j2 != j {
                                assert(ts[j2].0 != ts[j as int].0);
                            }
                        }
                        assert forall|p: Protocol| #[trigger] e.allows(p) == dns_allows(rs, ts, h, p) by {
                            if dns_allows(rs, ts, h, p) {
                                let j2 = choose|j2: int| 0 <= j2 < ts.len() && h == IpNetwork::host_spec((#[trigger] ts[j2]).0)
                                    && has_res(rs, ts[j2].1.resource_id)
                                    && filters_allow(res_filters(res_of(rs, ts[j2].1.resource_id)), p);
                                assert(j2 == j);
                            }
                        }
                    }
                },
                None => {
                    proof {
                        assert forall|j2: int| 0 <= j2 < j + 1 && has_res(rs, (#[trigger] ts[j2]).1.resource_id)
                            implies j2 < j by {}
                    }
                },
            }
            j = j + 1;
        }
        self.filters = table;
        self.internet_resource_enabled = self.any_internet_resource();
    }

    /// Keeps the resources at the positions where `mask` holds and drops the others.
    fn keep_resources(&mut self, mask: &Vec<bool>)
        requires
            mask@.len() == old(self).resources().len(),
            ids_unique(old(self).resources()),
            networks_wf(old(self).resources()),
        ensures
            ids_unique(final(self).resources()),
            networks_wf(final(self).resources()),
            forall|id: ResourceId| #[trigger] has_res(final(self).resources(), id) <==> (has_res(old(self).resources(), id)
                && mask@[res_index(old(self).resources(), id)]),
            forall|id: ResourceId| #[trigger] has_res(final(self).resources(), id)
                ==> res_of(final(self).resources(), id) == res_of(old(self).resources(), id),
            final(self).id_spec() == old(self).id_spec(),
            final(self).client_tun() == old(self).client_tun(),
            final(self).gateway_tun() == old(self).gateway_tun(),
            final(self).translations() == old(self).translations(),
            final(self).nat_state() == old(self).nat_state(),
            final(self).dropped() == old(self).dropped(),
    {
        let ghost orig = self.resources@;
        let mut rest: Vec<ResourceEntry> = Vec::new();
        std::mem::swap(&mut rest, &mut self.resources);
        let n = rest.len();
        let mut out: Vec<ResourceEntry> = Vec::new();
        let ghost mut idx: Seq<int> = Seq::empty();
        let mut i: usize = 0;
        while rest.len() > 0
            invariant
                i <= orig.len(),
                orig.len() == n,
                mask@.len() == orig.len(),
                rest@ == orig.subrange(i as int, orig.len() as int),
                ids_unique(orig),
                networks_wf(orig),
                idx.len() == out@.len(),
                forall|j: int| 0 <= j < idx.len() ==> 0 <= #[trigger] idx[j] < i,
                forall|j: int| 0 <= j < idx.len() ==> out@[j] == orig[#[trigger] idx[j]] && mask@[idx[j]],
                forall|a: int, b: int| 0 <= a < b < idx.len() ==> #[trigger] idx[a] < #[trigger] idx[b],
                forall|k: int| 0 <= k < i && #[trigger] mask@[k] ==> exists|j: int| 0 <= j < idx.len() && idx[j] == k,
            decreases rest.len(),
        {
            let e = rest.remove(0);
            assert(e == orig[i as int]);
            let ghost idx0 = idx;
            if mask[i] {
                out.push(e);
                proof {
                    idx = idx.push(i as int);
                }
            }
            assert(rest@ =~= orig.subrange(i + 1, orig.len() as int));
            proof {
                assert forall|k: int| 0 <= k < i + 1 && #[trigger] mask@[k] implies exists|j: int| 0 <= j < idx.len() && idx[j] == k by {
                    if k == i {
                        assert(idx[idx.len() - 1] == k);
                    } else {
                        let j = choose|j: int| 0 <= j < idx0.len() && idx0[j] == k;
                        assert(idx[j] == k);
                    }
                }
            }
            i = i + 1;
        }
        self.resources = out;
        proof {
            let rs = self.resources@;
            assert(i == orig.len());
            assert forall|a: int, b: int| 0 <= a < rs.len() && 0 <= b < rs.len() && a != b implies #[trigger] rs[a].0 != #[trigger] rs[b].0 by {
                if a < b {
                    assert(idx[a] < idx[b]);
                } else {
                    assert(idx[b] < idx[a]);
                }
                assert(rs[a] == orig[idx[a]] && rs[b] == orig[idx[b]]);
            }
            assert forall|a: int| 0 <= a < rs.len() implies (#[trigger] rs[a]).1.networks_wf() by {
                assert(rs[a] == orig[idx[a]]);
            }
            assert forall|id: ResourceId| #[trigger] has_res(rs, id) <==> (has_res(orig, id) && mask@[res_index(orig, id)]) by {
                if has_res(rs, id) {
                    let a = res_index(rs, id);
                    assert(rs[a] == orig[idx[a]]);
                    lemma_res_of(orig, idx[a]);
                }
                if has_res(orig, id) && mask@[res_index(orig, id)] {
                    let k = res_index(orig, id);
                    let j = choose|j: int| 0 <= j < idx.len() && idx[j] == k;
                    assert(rs[j] == orig[k]);
                }
            }
            assert forall|id: ResourceId| #[trigger] has_res(rs, id) implies res_of(rs, id) == res_of(orig, id) by {
                let a = res_index(rs, id);
                assert(rs[a] == orig[idx[a]]);
                lemma_res_of(orig, idx[a]);
                lemma_res_of(rs, a);
            }
        }
    }

    /// Grants access to a resource, or refreshes the filters of one already granted.
    pub fn add_resource(&mut self, resource: ResourceDescription, expires_at: Option<Timestamp>)
        requires
            old(self).inv(),
            description_wf(resource),
        ensures
            final(self).inv(),
            final(self).has_resource(resource.id_spec()),
            if old(self).has_resource(resource.id_spec()) {
                updated_from(final(self).resource(resource.id_spec()), old(self).resource(resource.id_spec()), resource)
            } else {
                fresh_from(final(self).resource(resource.id_spec()), resource, expires_at)
            },
            same_except(old(self).resources(), final(self).resources(), resource.id_spec()),
            final(self).translations() == old(self).translations(),
            final(self).nat_state() == old(self).nat_state(),
            final(self).client_tun() == old(self).client_tun(),
            final(self).gateway_tun() == old(self).gateway_tun(),
            final(self).id_spec() == old(self).id_spec(),
    {
        let id = resource.id();
        match self.find_resource(id) {
            Some(i) => {
                let ghost rs = self.resources@;
                let (rid, mut r) = self.resources.remove(i);
                r.update(&resource);
                self.resources.insert(i, (rid, r));
                proof {
                    assert(self.resources@ =~= rs.update(i as int, (rs[i as int].0, r)));
                    lemma_res_of(rs, i as int);
                    lemma_update_resource(rs, i as int, r);
                    assert forall|k: int| 0 <= k < self.resources@.len() implies (#[trigger] self.resources@[k]).1.networks_wf() by {
                        if k == i {
                            assert(rs[k].1.networks_wf());
                        } else {
                            assert(self.resources@[k] == rs[k]);
                        }
                    }
                }
            },
            None => {
                let ghost rs = self.resources@;
                let r = ResourceOnGateway::new(resource, expires_at);
                self.resources.push((id, r));
                proof {
                    lemma_push_resource(rs, (id, r));
                    assert forall|k: int| 0 <= k < self.resources@.len() implies (#[trigger] self.resources@[k]).1.networks_wf() by {
                        if k < rs.len() {
                            assert(self.resources@[k] == rs[k]);
                        }
                    }
                }
            },
        }
        self.recalculate_filters();
    }

    /// Revokes access to a resource.
    pub fn remove_resource(&mut self, id: ResourceId)
        requires
            old(self).inv(),
        ensures
            final(self).inv(),
            remove_ok(*old(self), *final(self), id),
    {
        let mut mask: Vec<bool> = Vec::new();
        let mut i: usize = 0;
        while i < self.resources.len()
            invariant
                i <= self.resources@.len(),
                mask@.len() == i,
                forall|k: int| 0 <= k < i ==> #[trigger] mask@[k] == (self.resources@[k].0 != id),
            decreases self.resources.len() - i,
        {
            mask.push(self.resources[i].0 != id);
            i = i + 1;
        }
        let ghost rs = self.resources@;
        self.keep_resources(&mask);
        proof {
            assert forall|id2: ResourceId| id2 != id implies {
                &&& #[trigger] has_res(self.resources(), id2) == has_res(rs, id2)
                &&& has_res(rs, id2) ==> res_of(self.resources(), id2) == res_of(rs, id2)
            } by {
                if has_res(rs, id2) {
                    lemma_res_of(rs, res_index(rs, id2));
                }
            }
            if has_res(rs, id) {
                lemma_res_of(rs, res_index(rs, id));
            }
        }
        self.recalculate_filters();
    }

    /// Takes the new filters of a resource that the client holds; other clients' resources are ignored.
    pub fn update_resource(&mut self, resource: &ResourceDescription)
        requires
            old(self).inv(),
        ensures
            final(self).inv(),
            update_ok(*old(self), *final(self), *resource),
    {
        let id = resource.id();
        let i = match self.find_resource(id) {
            Some(i) => i,
            None => {
                return;
            },
        };
        let ghost rs = self.resources@;
        let (rid, mut r) = self.resources.remove(i);
        r.update(resource);
        self.resources.insert(i, (rid, r));
        proof {
            assert(self.resources@ =~= rs.update(i as int, (rs[i as int].0, r)));
            lemma_res_of(rs, i as int);
            lemma_update_resource(rs, i as int, r);
            assert forall|k: int| 0 <= k < self.resources@.len() implies (#[trigger] self.resources@[k]).1.networks_wf() by {
                if k == i {
                    assert(rs[k].1.networks_wf());
                } else {
                    assert(self.resources@[k] == rs[k]);
                }
            }
        }
        self.recalculate_filters();
    }

    /// Moves the expiry of a resource that the client holds.
    pub fn update_resource_expiry(&mut self, id: ResourceId, new_expiry: Timestamp)
        requires
            old(self).inv(),
        ensures
            final(self).inv(),
            expiry_ok(*old(self), *final(self), id, new_expiry),
    {
        let i = match self.find_resource(id) {
            Some(i) => i,
            None => {
                return;
            },
        };
        let ghost rs = self.resources@;
        let (rid, mut r) = self.resources.remove(i);
        r.set_expiry(new_expiry);
        self.resources.insert(i, (rid, r));
        proof {
            assert(self.resources@ =~= rs.update(i as int, (rs[i as int].0, r)));
            lemma_res_of(rs, i as int);
            lemma_update_resource(rs, i as int, r);
            assert forall|k: int| 0 <= k < self.resources@.len() implies (#[trigger] self.resources@[k]).1.networks_wf() by {
                if k == i {
                    assert(rs[k].1.networks_wf());
                } else {
                    assert(self.resources@[k] == rs[k]);
                }
            }
        }
        self.recalculate_filters();
    }

    /// Keeps only the resources whose ids are listed.
    pub fn retain_authorizations(&mut self, authorization: &Vec<ResourceId>)
        requires
            old(self).inv(),
        ensures
            final(self).inv(),
            retain_ok(*old(self), *final(self), authorization@),
    {
        let mut mask: Vec<bool> = Vec::new();
        let mut i: usize = 0;
        while i < self.resources.len()
            invariant
                i <= self.resources@.len(),
                mask@.len() == i,
                forall|k: int| 0 <= k < i ==> #[trigger] mask@[k] == authorization@.contains(self.resources@[k].0),
            decreases self.resources.len() - i,
        {
            mask.push(contains_id(authorization, self.resources[i].0));
            i = i + 1;
        }
        let ghost rs = self.resources@;
        self.keep_resources(&mask);
        proof {
            assert forall|id: ResourceId| #[trigger] has_res(self.resources(), id)
                <==> (has_res(rs, id) && authorization@.contains(id)) by {
                if has_res(rs, id) {
                    lemma_res_of(rs, res_index(rs, id));
                }
            }
        }
        self.recalculate_filters();
    }

    /// Drops every resource whose authorisation has expired at `now`.
    pub fn expire_resources(&mut self, now: Timestamp)
        requires
            old(self).inv(),
        ensures
            final(self).inv(),
            expire_ok(*old(self), *final(self), now),
    {
        let mut mask: Vec<bool> = Vec::new();
        let mut i: usize = 0;
        while i < self.resources.len()
            invariant
                i <= self.resources@.len(),
                mask@.len() == i,
                forall|k: int| 0 <= k < i ==> #[trigger] mask@[k] == res_is_allowed(self.resources@[k].1, now),
            decreases self.resources.len() - i,
        {
            mask.push(self.resources[i].1.is_allowed(now));
            i = i + 1;
        }
        let ghost rs = self.resources@;
        self.keep_resources(&mask);
        proof {
            assert forall|id: ResourceId| #[trigger] has_res(self.resources(), id)
                <==> (has_res(rs, id) && res_is_allowed(res_of(rs, id), now)) by {
                if has_res(rs, id) {
                    lemma_res_of(rs, res_index(rs, id));
                }
            }
            assert forall|i: int| 0 <= i < self.resources().len()
                implies res_is_allowed((#[trigger] self.resources()[i]).1, now) by {
                lemma_res_of(self.resources(), i);
            }
        }
        self.recalculate_filters();
    }

    fn any_internet_resource(&self) -> (r: bool)
        ensures
            r == any_internet(self.resources()),
    {
        let mut i: usize = 0;
        while i < self.resources.len()
            invariant
                i <= self.resources@.len(),
                forall|j: int| 0 <= j < i ==> !((#[trigger] self.resources@[j]).1 is Internet),
            decreases self.resources.len() - i,
        {
            if self.resources[i].1.is_internet_resource() {
                assert(self.resources()[i as int].1 is Internet);
                return true;
            }
            i = i + 1;
        }
        false
    }
}

/// Some key of at least length `q` holds `ip`, so a longest such key exists.
proof fn lemma_longest_exists(entries: Map<IpNetwork, FilterEngine>, ip: IpAddr, q: nat)
    requires
        exists|m: IpNetwork| #[trigger] entries.contains_key(m) && m.contains_spec(ip) && m.prefix >= q,
    ensures
        exists|net: IpNetwork| #[trigger] is_longest_match(entries, ip, net),
    decreases 256 - q,
{
    if exists|m: IpNetwork| #[trigger] entries.contains_key(m) && m.contains_spec(ip) && m.prefix >= q + 1 {
        lemma_longest_exists(entries, ip, q + 1);
    } else {
        let m = choose|m: IpNetwork| #[trigger] entries.contains_key(m) && m.contains_spec(ip) && m.prefix >= q;
        assert(is_longest_match(entries, ip, m));
    }
}

/// Overlapping CIDR resources add up: where the network of one CIDR resource covers that of
/// another, traffic to any address of the inner network passes if either resource's filters
/// let it through. Left out is an address that is itself a proxy address with a translation,
/// where the DNS resource's filters decide.
pub proof fn lemma_overlapping_cidr_filters_add_up(
    c: ClientOnGateway,
    outer: ResourceId,
    inner: ResourceId,
    ip: IpAddr,
    p: Protocol,
)
    requires
        c.inv(),
        c.has_resource(outer),
        c.has_resource(inner),
        c.resource(outer) is Cidr,
        c.resource(inner) is Cidr,
        c.resource(outer)->Cidr_network.covers_spec(c.resource(inner)->Cidr_network),
        c.resource(inner)->Cidr_network.contains_spec(ip),
        filters_allow(res_filters(c.resource(outer)), p) || filters_allow(res_filters(c.resource(inner)), p),
        trans_of(c.translations(), ip) is None,
    ensures
        c.allows_traffic(ip, Ok(p)),
{
    let rs = c.resources();
    let ts = c.translations();
    let entries = c.filter_entries();
    let i1 = res_index(rs, outer);
    let i2 = res_index(rs, inner);
    let n1 = c.resource(outer)->Cidr_network;
    let n2 = c.resource(inner)->Cidr_network;
    assert(rs[i2].1.networks_wf());
    assert(rs[i1].1.networks_wf());
    assert(cidr_key(rs, n2));
    assert(entries.contains_key(n2));
    lemma_longest_exists(entries, ip, n2.prefix as nat);
    let net = choose|net: IpNetwork| #[trigger] is_longest_match(entries, ip, net);
    c.lemma_keys_wf();
    assert(net.wf());
    assert(n2.prefix <= net.prefix);
    if dns_key(rs, ts, net) {
        let j = choose|j: int| 0 <= j < ts.len() && net == IpNetwork::host_spec((#[trigger] ts[j]).0) && has_res(rs, ts[j].1.resource_id);
        lemma_host_contains(ts[j].0, ip);
        assert(ts[j].0 == ip);
    }
    assert(!dns_key(rs, ts, net));
    lemma_shorter_covers(n2, net, ip);
    lemma_covers_trans(n1, n2, net);
    assert(crate::resource::exposes(rs[i1].1, n1));
    assert(crate::resource::exposes(rs[i2].1, n2));
    assert(res_covers(rs[i1].1, net));
    assert(res_covers(rs[i2].1, net));
    assert(covering_allows(rs, net, p));
    assert(entries[net].allows(p));
}

/// What `translate_outbound` does to a client and returns.
pub open spec fn outbound_ok(c0: ClientOnGateway, c1: ClientOnGateway, packet: IpPacket, now: u64, r: Result<TranslateOutboundResult, PacketError>) -> bool {
    &&& same_policy(c0, c1)
    &&& c1.dropped() == c0.dropped()
    &&& !c0.outbound_allowed(packet) ==> r == reply_or_err(packet, IcmpError::Prohibited, true)
            && c1.nat_state() == c0.nat_state()
    &&& c0.outbound_allowed(packet) ==> transform_ok(c0, c1, packet, now, r)
    &&& r matches Ok(TranslateOutboundResult::Send(p2)) ==> p2.src == packet.src && c0.outbound_allowed(packet)
}

/// What `translate_inbound` does to a client and returns.
pub open spec fn inbound_ok(c0: ClientOnGateway, c1: ClientOnGateway, packet: IpPacket, now: u64, r: Result<Option<IpPacket>, PacketError>) -> bool {
    &&& same_policy(c0, c1)
    &&& c1.nat_state() == c0.nat_state()
    &&& is_tun_ip(c0.gateway_tun(), packet.src) ==> r == Ok::<Option<IpPacket>, PacketError>(Some(packet))
            && c1.dropped() == c0.dropped()
    &&& !is_tun_ip(c0.gateway_tun(), packet.src) ==> match c0.inbound_candidate(packet, now) {
            None => r == Ok::<Option<IpPacket>, PacketError>(None) && c1.dropped() == sat_inc(c0.dropped()),
            Some(p2) => if !is_tun_ip(c0.client_tun(), p2.dst) {
                r == Err::<Option<IpPacket>, PacketError>(PacketError::NotClientIp(p2.dst))
                    && c1.dropped() == c0.dropped()
            } else if (p2.transport is IcmpError) || c0.allows_traffic(p2.src, p2.source_protocol_spec()) {
                r == Ok::<Option<IpPacket>, PacketError>(Some(p2)) && c1.dropped() == c0.dropped()
            } else {
                r == Ok::<Option<IpPacket>, PacketError>(None) && c1.dropped() == sat_inc(c0.dropped())
            }
        }
    &&& r matches Ok(Some(p2)) ==> (is_tun_ip(c0.gateway_tun(), packet.src) && p2 == packet) || {
            &&& is_tun_ip(c0.client_tun(), p2.dst)
            &&& (p2.transport is IcmpError) || c0.allows_traffic(p2.src, p2.source_protocol_spec())
        }
}

/// What `handle_timeout` does to a client: idle NAT sessions are evicted.
pub open spec fn timeout_ok(c0: ClientOnGateway, c1: ClientOnGateway, now: u64) -> bool {
    &&& same_policy(c0, c1)
    &&& c1.dropped() == c0.dropped()
    &&& forall|s: NatSession| #[trigger] c1.nat_state().sessions().contains(s)
            <==> (c0.nat_state().sessions().contains(s) && !is_stale(s, now))
    &&& forall|k: OutsideKey| #[trigger] c1.nat_state().expired().contains(k)
            <==> (c0.nat_state().expired().contains(k) || exists|s: NatSession|
                #[trigger] c0.nat_state().sessions().contains(s) && is_stale(s, now) && outside_key(s) == k)
}

/// What `setup_nat` does to a client and returns.
pub open spec fn setup_nat_ok(c0: ClientOnGateway, c1: ClientOnGateway, name: Seq<char>, resource_id: ResourceId, resolved_ips: Seq<IpAddr>, proxy_ips: Seq<IpAddr>, r: Result<(), SetupNatError>) -> bool {
    &&& c1.nat_state() == c0.nat_state()
    &&& c1.id_spec() == c0.id_spec()
    &&& c1.client_tun() == c0.client_tun()
    &&& c1.gateway_tun() == c0.gateway_tun()
    &&& c1.dropped() == c0.dropped()
    &&& (r == Err::<(), SetupNatError>(SetupNatError::UnknownResource)) <==> !c0.has_resource(resource_id)
    &&& (r == Err::<(), SetupNatError>(SetupNatError::NotDnsResource)) <==> (c0.has_resource(resource_id)
            && !(c0.resource(resource_id) is Dns))
    &&& (r == Err::<(), SetupNatError>(SetupNatError::NotSubdomain)) <==> (c0.has_resource(resource_id)
            && c0.resource(resource_id) is Dns
            && !is_subdomain_spec(name, c0.resource(resource_id)->Dns_address@))
    &&& r is Err ==> c1.resources() == c0.resources()
            && c1.translations() == c0.translations()
    &&& r is Ok ==> {
            &&& same_except(c0.resources(), c1.resources(), resource_id)
            &&& c1.has_resource(resource_id)
            &&& c1.resource(resource_id) is Dns
            &&& c1.resource(resource_id)->Dns_address@ == c0.resource(resource_id)->Dns_address@
            &&& res_filters(c1.resource(resource_id)) == res_filters(c0.resource(resource_id))
            &&& res_expires_at(c1.resource(resource_id)) == res_expires_at(c0.resource(resource_id))
            &&& domain_listed(c1.resource(resource_id)->Dns_domains@, name, resolved_ips)
        }
    &&& forall|ip: IpAddr| #[trigger] nat_serves(c0.nat_state(), ip)
            ==> trans_of(c1.translations(), ip) == trans_of(c0.translations(), ip)
    &&& forall|ip: IpAddr| !proxy_ips.contains(ip)
            ==> #[trigger] trans_of(c1.translations(), ip) == trans_of(c0.translations(), ip)
    &&& r is Ok ==> forall|ip: IpAddr| #[trigger] proxy_ips.contains(ip) && !nat_serves(c0.nat_state(), ip)
            && resolved_ips.len() > 0 ==> (trans_of(c1.translations(), ip) matches Some(t)
                && t.resource_id == resource_id && mapped_contains(resolved_ips, ip is V4, t.resolved_ip))
    &&& resolved_ips.len() == 0 ==> c1.translations() == c0.translations()
    &&& r is Ok ==> exists|ps: Seq<IpAddr>, rs: Seq<IpAddr>|
        #![trigger sorted_set_of(ps, proxy_ips), sorted_set_of(rs, resolved_ips)]
        sorted_set_of(ps, proxy_ips) && sorted_set_of(rs, resolved_ips) && pairs_translated(c0, c1, resource_id, ps, rs)
}

/// Taken in ascending order, the `j`-th proxy address of each family that has no NAT session
/// points at the `j`-th resolved address that its family maps to, cycling through them.
pub open spec fn pairs_translated(
    c0: ClientOnGateway,
    c1: ClientOnGateway,
    resource_id: ResourceId,
    ps: Seq<IpAddr>,
    rs: Seq<IpAddr>,
) -> bool {
    forall|v4: bool, j: int| 0 <= j < fam(ps, v4).len() && mapped_seq(rs, v4).len() > 0
        && !nat_serves(c0.nat_state(), fam(ps, v4)[j]) ==> trans_of(c1.translations(), #[trigger] fam(ps, v4)[j])
            == Some(TranslationState { resource_id, resolved_ip: mapped_seq(rs, v4)[j % (mapped_seq(rs, v4).len() as int)] })
}

/// What `remove_resource` does to a client.
pub open spec fn remove_ok(c0: ClientOnGateway, c1: ClientOnGateway, id: ResourceId) -> bool {
    &&& !c1.has_resource(id)
    &&& same_except(c0.resources(), c1.resources(), id)
    &&& c1.translations() == c0.translations()
    &&& c1.nat_state() == c0.nat_state()
    &&& c1.client_tun() == c0.client_tun()
    &&& c1.gateway_tun() == c0.gateway_tun()
    &&& c1.id_spec() == c0.id_spec()
}

/// What `update_resource` does to a client.
pub open spec fn update_ok(c0: ClientOnGateway, c1: ClientOnGateway, resource: ResourceDescription) -> bool {
    &&& c0.has_resource(resource.id_spec()) ==> updated_from(
            c1.resource(resource.id_spec()),
            c0.resource(resource.id_spec()),
            resource
        )
    &&& same_except(c0.resources(), c1.resources(), resource.id_spec())
    &&& c1.has_resource(resource.id_spec()) == c0.has_resource(resource.id_spec())
    &&& c1.translations() == c0.translations()
    &&& c1.nat_state() == c0.nat_state()
    &&& c1.client_tun() == c0.client_tun()
    &&& c1.gateway_tun() == c0.gateway_tun()
    &&& c1.id_spec() == c0.id_spec()
}

/// What `update_resource_expiry` does to a client.
pub open spec fn expiry_ok(c0: ClientOnGateway, c1: ClientOnGateway, id: ResourceId, new_expiry: Timestamp) -> bool {
    &&& c1.has_resource(id) == c0.has_resource(id)
    &&& c0.has_resource(id) ==> crate::resource::res_expires_at(c1.resource(id)) == Some(new_expiry)
    &&& c0.has_resource(id) ==> res_filters(c1.resource(id)) == res_filters(c0.resource(id))
    &&& same_except(c0.resources(), c1.resources(), id)
    &&& c1.translations() == c0.translations()
    &&& c1.nat_state() == c0.nat_state()
    &&& c1.client_tun() == c0.client_tun()
    &&& c1.gateway_tun() == c0.gateway_tun()
    &&& c1.id_spec() == c0.id_spec()
}

/// What `retain_authorizations` does to a client.
pub open spec fn retain_ok(c0: ClientOnGateway, c1: ClientOnGateway, authorization: Seq<ResourceId>) -> bool {
    &&& forall|id: ResourceId| #[trigger] c1.has_resource(id)
            <==> (c0.has_resource(id) && authorization.contains(id))
    &&& forall|id: ResourceId| #[trigger] c1.has_resource(id) ==> c1.resource(id) == c0.resource(id)
    &&& c1.translations() == c0.translations()
    &&& c1.nat_state() == c0.nat_state()
    &&& c1.client_tun() == c0.client_tun()
    &&& c1.gateway_tun() == c0.gateway_tun()
    &&& c1.id_spec() == c0.id_spec()
}

/// What `expire_resources` does to a client.
pub open spec fn expire_ok(c0: ClientOnGateway, c1: ClientOnGateway, now: Timestamp) -> bool {
    &&& forall|id: ResourceId| #[trigger] c1.has_resource(id)
            <==> (c0.has_resource(id) && res_is_allowed(c0.resource(id), now))
    &&& forall|id: ResourceId| #[trigger] c1.has_resource(id) ==> c1.resource(id) == c0.resource(id)
    &&& forall|i: int| 0 <= i < c1.resources().len()
            ==> res_is_allowed((#[trigger] c1.resources()[i]).1, now)
    &&& c1.translations() == c0.translations()
    &&& c1.nat_state() == c0.nat_state()
    &&& c1.client_tun() == c0.client_tun()
    &&& c1.gateway_tun() == c0.gateway_tun()
    &&& c1.id_spec() == c0.id_spec()
}

fn contains_id(ids: &Vec<ResourceId>, id: ResourceId) -> (r: bool)
    ensures
        r == ids@.contains(id),
{
    let mut i: usize = 0;
    while i < ids.len()
        invariant
            i <= ids@.len(),
            forall|j: int| 0 <= j < i ==> ids@[j] != id,
        decreases ids.len() - i,
    {
        if ids[i] == id {
            assert(ids@[i as int] == id);
            return true;
        }
        i = i + 1;
    }
    false
}

} // verus!
