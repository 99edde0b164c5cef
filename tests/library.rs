use gateway_core::client::{
    is_dns_addr, AccessError, ClientOnGateway, PacketError, SetupNatError, TranslateOutboundResult,
};
use gateway_core::domain::is_subdomain;
use gateway_core::driver::{is_max_wg_packet_size, merge_resolved, next_input, InputKind, Readiness, Timer};
use gateway_core::filter::{Filter, FilterEngine, Filtered, PortRange, Protocol, UnsupportedProtocol};
use gateway_core::gateway::{
    AllowAccessError, ControlAction, DnsResourceNatEntry, GatewayError, GatewayEvent, GatewayState, NatStatus,
    NetworkAction, ResolveDnsRequest, UnknownPeer,
};
use gateway_core::nat_table::{NatTable, TranslateIncomingResult, ICMP_TTL, TCP_TTL, UDP_TTL};
use gateway_core::net::{IpAddr, IpConfig, IpNetwork};
use gateway_core::packet::{IcmpError, IpPacket, ProtocolKind, QuotedHeader, Transport};
use gateway_core::resource::{
    ClientId, ResourceDescription, ResourceDescriptionCidr, ResourceDescriptionDns, ResourceDescriptionInternet,
    ResourceId,
};

fn v4(a: u8, b: u8, c: u8, d: u8) -> IpAddr {
    IpAddr::V4(u32::from_be_bytes([a, b, c, d]))
}

fn udp(src: IpAddr, dst: IpAddr, sport: u16, dport: u16) -> IpPacket {
    IpPacket { src, dst, transport: Transport::Udp { sport, dport } }
}

fn tcp(src: IpAddr, dst: IpAddr, sport: u16, dport: u16) -> IpPacket {
    IpPacket { src, dst, transport: Transport::Tcp { sport, dport } }
}

fn client_tun() -> IpConfig {
    IpConfig { v4: u32::from_be_bytes([100, 64, 0, 1]), v6: 0xfd00_2021_1111_0000_0000_0000_0000_0001 }
}

fn gateway_tun() -> IpConfig {
    IpConfig { v4: u32::from_be_bytes([100, 64, 0, 2]), v6: 0xfd00_2021_1111_0000_0000_0000_0000_0002 }
}

fn client() -> IpAddr {
    v4(100, 64, 0, 1)
}

fn net(a: IpAddr, p: u8) -> IpNetwork {
    IpNetwork::new(a, p).unwrap()
}

fn udp_range(a: u16, b: u16) -> Filter {
    Filter::Udp(PortRange { port_range_start: a, port_range_end: b })
}

fn tcp_range(a: u16, b: u16) -> Filter {
    Filter::Tcp(PortRange { port_range_start: a, port_range_end: b })
}

fn cidr(id: u128, n: IpNetwork, filters: Vec<Filter>) -> ResourceDescription {
    ResourceDescription::Cidr(ResourceDescriptionCidr { id: ResourceId(id), address: n, name: "r".to_string(), filters })
}

fn dns(id: u128, address: &str, filters: Vec<Filter>) -> ResourceDescription {
    ResourceDescription::Dns(ResourceDescriptionDns {
        id: ResourceId(id),
        address: address.to_string(),
        name: "d".to_string(),
        filters,
    })
}

fn internet(id: u128) -> ResourceDescription {
    ResourceDescription::Internet(ResourceDescriptionInternet { id: ResourceId(id) })
}

fn peer() -> ClientOnGateway {
    ClientOnGateway::new(ClientId(7), client_tun(), gateway_tun())
}

// ---- networks ---------------------------------------------------------------------------

#[test]
fn network_rejects_host_bits_and_long_prefixes() {
    assert!(IpNetwork::new(v4(10, 0, 0, 1), 24).is_none());
    assert!(IpNetwork::new(v4(10, 0, 0, 0), 33).is_none());
    assert!(IpNetwork::new(IpAddr::V6(1), 129).is_none());
    assert!(IpNetwork::new(IpAddr::V6(0), 0).is_some());
    assert!(IpNetwork::new(IpAddr::V6(1), 0).is_none());
}

#[test]
fn network_containment() {
    let n = net(v4(10, 0, 0, 0), 24);
    assert!(n.contains(v4(10, 0, 0, 255)));
    assert!(!n.contains(v4(10, 0, 1, 0)));
    assert!(!n.contains(IpAddr::V6(0x0a00_0001)));
    let all = net(v4(0, 0, 0, 0), 0);
    assert!(all.contains(v4(255, 255, 255, 255)));
    assert!(!all.contains(IpAddr::V6(0)));
    assert!(net(v4(10, 0, 0, 0), 8).covers(&n));
    assert!(!n.covers(&net(v4(10, 0, 0, 0), 8)));
}

#[test]
fn proxy_ranges() {
    assert!(is_dns_addr(v4(100, 96, 0, 1)));
    assert!(is_dns_addr(v4(100, 127, 255, 255)));
    assert!(!is_dns_addr(v4(100, 128, 0, 0)));
    assert!(!is_dns_addr(v4(100, 64, 0, 1)));
    assert!(is_dns_addr(IpAddr::V6(0xfd00_2021_1111_8000_0000_0000_0000_0001)));
    assert!(!is_dns_addr(IpAddr::V6(0xfd00_2021_1111_0000_0000_0000_0000_0001)));
}

// ---- filter engine ----------------------------------------------------------------------

#[test]
fn filter_engine_union_and_allow_all() {
    let e = FilterEngine::with_filters(&vec![vec![tcp_range(20, 100)], vec![udp_range(53, 53), Filter::Icmp]]);
    assert_eq!(e.apply(Ok(Protocol::Tcp(20))), Ok(()));
    assert_eq!(e.apply(Ok(Protocol::Tcp(101))), Err(Filtered::Tcp));
    assert_eq!(e.apply(Ok(Protocol::Udp(53))), Ok(()));
    assert_eq!(e.apply(Ok(Protocol::Udp(54))), Err(Filtered::Udp));
    assert_eq!(e.apply(Ok(Protocol::Icmp(9))), Ok(()));
    assert_eq!(e.apply(Err(UnsupportedProtocol(47))), Err(Filtered::UnsupportedProtocol(47)));

    let all = FilterEngine::with_filters(&vec![vec![tcp_range(1, 1)], vec![]]);
    assert_eq!(all.apply(Ok(Protocol::Udp(9999))), Ok(()));
    assert_eq!(all.apply(Ok(Protocol::Icmp(1))), Ok(()));

    let none = FilterEngine::with_filters(&vec![]);
    assert_eq!(none.apply(Ok(Protocol::Icmp(1))), Err(Filtered::Icmp));
}

// ---- domains ----------------------------------------------------------------------------

#[test]
fn subdomain_patterns() {
    assert!(is_subdomain("foo.com", "foo.com"));
    assert!(is_subdomain("FOO.com", "foo.COM"));
    assert!(!is_subdomain("a.foo.com", "foo.com"));
    assert!(is_subdomain("foo.com", "*.foo.com"));
    assert!(is_subdomain("a.b.foo.com", "*.foo.com"));
    assert!(!is_subdomain("afoo.com", "*.foo.com"));
    assert!(is_subdomain("a.foo.com", "?.foo.com"));
    assert!(is_subdomain("foo.com", "?.foo.com"));
    assert!(!is_subdomain("a.b.foo.com", "?.foo.com"));
}

// ---- NAT table --------------------------------------------------------------------------

#[test]
fn nat_keeps_port_and_allocates_on_collision() {
    let mut t = NatTable::new();
    let proxy1 = v4(100, 96, 0, 1);
    let proxy2 = v4(100, 96, 0, 2);
    let real = v4(10, 0, 0, 1);
    assert_eq!(t.translate_outgoing(ProtocolKind::Udp, 5000, proxy1, real, 0), Ok(5000));
    // Same flow again: same session.
    assert_eq!(t.translate_outgoing(ProtocolKind::Udp, 5000, proxy1, real, 10), Ok(5000));
    // Another proxy to the same resolved address from the same port: a fresh outside port.
    assert_eq!(t.translate_outgoing(ProtocolKind::Udp, 5000, proxy2, real, 10), Ok(0));
    assert!(t.has_entry_for_inside(proxy1));
    assert!(t.has_entry_for_inside(proxy2));
    assert!(!t.has_entry_for_inside(v4(100, 96, 0, 3)));

    let back = udp(real, client(), 53, 0);
    assert_eq!(
        t.translate_incoming(&back, 20),
        TranslateIncomingResult::Translated { kind: ProtocolKind::Udp, port: 5000, src: proxy2 }
    );
}

#[test]
fn nat_session_expiry() {
    let mut t = NatTable::new();
    let proxy = v4(100, 96, 0, 1);
    let real = v4(10, 0, 0, 1);
    let start = 1_000;
    t.translate_outgoing(ProtocolKind::Udp, 1, proxy, real, start).unwrap();
    let back = udp(real, client(), 80, 1);
    // Delivered at T + 30 s.
    t.handle_timeout(start + 30_000);
    assert!(matches!(t.translate_incoming(&back, start + 30_000), TranslateIncomingResult::Translated { .. }));
    // Exactly at the TTL still delivered, one past it expired, even before eviction.
    assert!(matches!(t.translate_incoming(&back, start + UDP_TTL), TranslateIncomingResult::Translated { .. }));
    assert_eq!(t.translate_incoming(&back, start + UDP_TTL + 1), TranslateIncomingResult::ExpiredNatSession);
    // Evicted at T + 90 s; remembered as expired.
    t.handle_timeout(start + 90_000);
    assert!(!t.has_entry_for_inside(proxy));
    assert_eq!(t.translate_incoming(&back, start + 90_000), TranslateIncomingResult::ExpiredNatSession);
    // Traffic that never had a session.
    let other = udp(v4(1, 1, 1, 1), client(), 80, 1);
    assert_eq!(t.translate_incoming(&other, start + 90_000), TranslateIncomingResult::NoNatSession);
}

#[test]
fn nat_ttls_per_protocol() {
    assert_eq!(UDP_TTL, 60_000);
    assert!(TCP_TTL >= 2 * 60 * 60 * 1000);
    assert!(ICMP_TTL <= 30_000);
    let mut t = NatTable::new();
    let proxy = v4(100, 96, 0, 1);
    let real = v4(10, 0, 0, 1);
    t.translate_outgoing(ProtocolKind::Tcp, 4000, proxy, real, 0).unwrap();
    t.handle_timeout(UDP_TTL + 1);
    assert!(t.has_entry_for_inside(proxy));
    t.handle_timeout(TCP_TTL + 1);
    assert!(!t.has_entry_for_inside(proxy));
}

#[test]
fn nat_icmp_error_prototype() {
    let mut t = NatTable::new();
    let proxy = v4(100, 96, 0, 1);
    let real = v4(10, 0, 0, 1);
    t.translate_outgoing(ProtocolKind::Udp, 1234, proxy, real, 0).unwrap();
    let quoted = QuotedHeader { src: client(), dst: real, kind: ProtocolKind::Udp, sport: 1234, dport: 53 };
    let err = IpPacket {
        src: v4(192, 0, 2, 1),
        dst: client(),
        transport: Transport::IcmpError { error: IcmpError::Other(3), quoted },
    };
    match t.translate_incoming(&err, 10) {
        TranslateIncomingResult::IcmpError(proto) => {
            let pkt = proto.into_packet(client_tun());
            assert_eq!(pkt.src, proxy);
            assert_eq!(pkt.dst, client());
            match pkt.transport {
                Transport::IcmpError { quoted, .. } => {
                    assert_eq!(quoted.dst, proxy);
                    assert_eq!(quoted.sport, 1234);
                }
                _ => panic!("not an ICMP error"),
            }
        }
        other => panic!("unexpected {other:?}"),
    }
}

// ---- client on gateway ------------------------------------------------------------------

#[test]
fn overlapping_cidr_resources_add_up() {
    let mut p = peer();
    p.add_resource(cidr(1, net(v4(10, 0, 0, 0), 16), vec![tcp_range(22, 22)]), None);
    p.add_resource(cidr(2, net(v4(10, 0, 1, 0), 24), vec![udp_range(53, 53)]), None);
    let inner = v4(10, 0, 1, 9);
    assert!(p.ensure_allowed_resource(inner, Ok(Protocol::Tcp(22))).is_ok());
    assert!(p.ensure_allowed_resource(inner, Ok(Protocol::Udp(53))).is_ok());
    assert!(p.ensure_allowed_resource(inner, Ok(Protocol::Udp(54))).is_err());
    let outer_only = v4(10, 0, 2, 9);
    assert!(p.ensure_allowed_resource(outer_only, Ok(Protocol::Tcp(22))).is_ok());
    assert!(p.ensure_allowed_resource(outer_only, Ok(Protocol::Udp(53))).is_err());
    assert!(p.ensure_allowed_resource(v4(11, 0, 0, 1), Ok(Protocol::Tcp(22))).is_err());
}

#[test]
fn outbound_from_foreign_source_is_filtered() {
    let mut p = peer();
    p.add_resource(cidr(1, net(v4(10, 0, 0, 0), 24), vec![]), None);
    let pkt = udp(v4(100, 64, 0, 99), v4(10, 0, 0, 1), 1, 2);
    assert!(matches!(p.ensure_allowed_src_and_dst(&pkt), Err(AccessError::NotClientIp(_))));
    match p.translate_outbound(pkt, 0).unwrap() {
        TranslateOutboundResult::Filtered(reply) => {
            assert_eq!(reply.dst, pkt.src);
            assert_eq!(reply.src, pkt.dst);
            assert!(matches!(reply.transport, Transport::IcmpError { error: IcmpError::Prohibited, .. }));
        }
        other => panic!("unexpected {other:?}"),
    }
    let ok = udp(client(), v4(10, 0, 0, 1), 1, 2);
    assert_eq!(p.translate_outbound(ok, 0), Ok(TranslateOutboundResult::Send(ok)));
}

#[test]
fn unsupported_protocol_is_denied_even_when_all_is_allowed() {
    let mut p = peer();
    p.add_resource(cidr(1, net(v4(10, 0, 0, 0), 24), vec![]), None);
    let gre = IpPacket { src: client(), dst: v4(10, 0, 0, 1), transport: Transport::Other(47) };
    assert!(p.ensure_allowed_src_and_dst(&gre).is_err());
    assert_eq!(p.translate_outbound(gre, 0), Err(PacketError::Unquotable));
}

#[test]
fn proxy_without_translation_is_unreachable() {
    let mut p = peer();
    p.add_resource(internet(1), None);
    p.add_resource(dns(2, "*.foo.com", vec![]), None);
    p.setup_nat("a.foo.com".to_string(), ResourceId(2), vec![v4(10, 0, 0, 1)], vec![v4(100, 96, 0, 1)]).unwrap();
    // A proxy address without translation passes no filter.
    let pkt = udp(client(), v4(100, 96, 0, 9), 1, 80);
    assert!(matches!(p.translate_outbound(pkt, 0).unwrap(), TranslateOutboundResult::Filtered(_)));
    // The translated one is carried to the resolved address from a session port.
    let pkt = udp(client(), v4(100, 96, 0, 1), 7, 80);
    assert_eq!(
        p.translate_outbound(pkt, 0),
        Ok(TranslateOutboundResult::Send(udp(client(), v4(10, 0, 0, 1), 7, 80)))
    );
}

#[test]
fn family_mismatch_is_unreachable() {
    let mut p = peer();
    p.add_resource(dns(2, "foo.com", vec![]), None);
    let proxy6 = IpAddr::V6(0xfd00_2021_1111_8000_0000_0000_0000_0001);
    // Only an IPv4 address resolved: the IPv6 proxy maps to it.
    p.setup_nat("foo.com".to_string(), ResourceId(2), vec![v4(10, 0, 0, 1)], vec![proxy6]).unwrap();
    let src6 = IpAddr::V6(client_tun().v6);
    let pkt = udp(src6, proxy6, 1, 80);
    assert!(matches!(p.translate_outbound(pkt, 0).unwrap(), TranslateOutboundResult::DestinationUnreachable(_)));
}

#[test]
fn setup_nat_errors() {
    let mut p = peer();
    p.add_resource(cidr(1, net(v4(10, 0, 0, 0), 24), vec![]), None);
    p.add_resource(dns(2, "*.foo.com", vec![]), None);
    let ips = vec![v4(10, 0, 0, 1)];
    let proxies = vec![v4(100, 96, 0, 1)];
    assert_eq!(
        p.setup_nat("a.foo.com".to_string(), ResourceId(9), ips.clone(), proxies.clone()),
        Err(SetupNatError::UnknownResource)
    );
    assert_eq!(
        p.setup_nat("a.foo.com".to_string(), ResourceId(1), ips.clone(), proxies.clone()),
        Err(SetupNatError::NotDnsResource)
    );
    assert_eq!(
        p.setup_nat("a.bar.com".to_string(), ResourceId(2), ips.clone(), proxies.clone()),
        Err(SetupNatError::NotSubdomain)
    );
    assert_eq!(p.setup_nat("a.foo.com".to_string(), ResourceId(2), ips, proxies), Ok(()));
}

#[test]
fn setup_nat_cycles_resolved_addresses() {
    let mut p = peer();
    p.add_resource(dns(2, "foo.com", vec![]), None);
    let proxies = vec![v4(100, 96, 0, 1), v4(100, 96, 0, 2), v4(100, 96, 0, 3)];
    p.setup_nat("foo.com".to_string(), ResourceId(2), vec![v4(10, 0, 0, 1), v4(10, 0, 0, 2)], proxies).unwrap();
    let send = |p: &mut ClientOnGateway, proxy: IpAddr| match p.translate_outbound(udp(client(), proxy, 1, 80), 0) {
        Ok(TranslateOutboundResult::Send(x)) => x.dst,
        other => panic!("unexpected {other:?}"),
    };
    assert_eq!(send(&mut p, v4(100, 96, 0, 1)), v4(10, 0, 0, 1));
    assert_eq!(send(&mut p, v4(100, 96, 0, 2)), v4(10, 0, 0, 2));
    assert_eq!(send(&mut p, v4(100, 96, 0, 3)), v4(10, 0, 0, 1));
}

#[test]
fn inbound_counts_expired_sessions() {
    let mut p = peer();
    p.add_resource(dns(2, "foo.com", vec![udp_range(80, 80)]), None);
    p.setup_nat("foo.com".to_string(), ResourceId(2), vec![v4(10, 0, 0, 1)], vec![v4(100, 96, 0, 1)]).unwrap();
    p.translate_outbound(udp(client(), v4(100, 96, 0, 1), 1, 80), 0).unwrap();
    let back = udp(v4(10, 0, 0, 1), client(), 80, 1);
    assert_eq!(p.translate_inbound(back, 30_000), Ok(Some(udp(v4(100, 96, 0, 1), client(), 80, 1))));
    assert_eq!(p.num_dropped_packets(), 0);
    p.handle_timeout(90_000);
    assert_eq!(p.translate_inbound(back, 90_000), Ok(None));
    assert_eq!(p.num_dropped_packets(), 1);
}

#[test]
fn inbound_to_foreign_destination_is_an_error() {
    let mut p = peer();
    p.add_resource(internet(1), None);
    let pkt = udp(v4(1, 1, 1, 1), v4(100, 64, 0, 50), 53, 1);
    assert_eq!(p.translate_inbound(pkt, 0), Err(PacketError::NotClientIp(v4(100, 64, 0, 50))));
    let ok = udp(v4(1, 1, 1, 1), client(), 53, 1);
    assert_eq!(p.translate_inbound(ok, 0), Ok(Some(ok)));
    let denied = {
        let mut q = peer();
        q.add_resource(cidr(1, net(v4(10, 0, 0, 0), 24), vec![udp_range(53, 53)]), None);
        q.translate_inbound(udp(v4(10, 0, 0, 1), client(), 54, 1), 0)
    };
    assert_eq!(denied, Ok(None));
}

#[test]
fn retain_and_remove_resources() {
    let mut p = peer();
    p.add_resource(cidr(1, net(v4(10, 0, 0, 0), 24), vec![]), None);
    p.add_resource(cidr(2, net(v4(10, 0, 1, 0), 24), vec![]), None);
    p.add_resource(cidr(3, net(v4(10, 0, 2, 0), 24), vec![]), None);
    p.retain_authorizations(&vec![ResourceId(1), ResourceId(3)]);
    assert!(p.is_allowed(ResourceId(1)));
    assert!(!p.is_allowed(ResourceId(2)));
    assert!(p.ensure_allowed_resource(v4(10, 0, 1, 1), Ok(Protocol::Udp(1))).is_err());
    p.remove_resource(ResourceId(1));
    assert!(!p.is_allowed(ResourceId(1)));
    assert!(!p.is_emptied());
    p.remove_resource(ResourceId(3));
    assert!(p.is_emptied());
}

#[test]
fn update_resource_replaces_filters_and_expiry_moves() {
    let mut p = peer();
    p.add_resource(cidr(1, net(v4(10, 0, 0, 0), 24), vec![tcp_range(80, 80)]), Some(100));
    assert!(p.ensure_allowed_resource(v4(10, 0, 0, 1), Ok(Protocol::Tcp(443))).is_err());
    p.update_resource(&cidr(1, net(v4(10, 0, 0, 0), 24), vec![tcp_range(443, 443)]));
    assert!(p.ensure_allowed_resource(v4(10, 0, 0, 1), Ok(Protocol::Tcp(443))).is_ok());
    // A description of another kind changes nothing.
    p.update_resource(&internet(1));
    assert!(p.ensure_allowed_resource(v4(10, 0, 0, 1), Ok(Protocol::Tcp(80))).is_err());
    p.update_resource_expiry(ResourceId(1), 200);
    p.expire_resources(150);
    assert!(p.is_allowed(ResourceId(1)));
    p.expire_resources(200);
    assert!(!p.is_allowed(ResourceId(1)));
}

// ---- gateway state ----------------------------------------------------------------------

fn gateway() -> GatewayState {
    let mut g = GatewayState::new();
    g.update_tun_device(gateway_tun());
    g
}

#[test]
fn allow_access_needs_tun_config() {
    let mut g = GatewayState::new();
    assert_eq!(
        g.allow_access(ClientId(1), client_tun(), None, internet(1), None),
        Err(AllowAccessError::TunNotConfigured)
    );
    g.update_tun_device(gateway_tun());
    assert_eq!(g.tunnel_ip_config(), Some(gateway_tun()));
    assert_eq!(g.allow_access(ClientId(1), client_tun(), None, internet(1), None), Ok(()));
}

#[test]
fn gateway_routes_by_tunnel_address() {
    let mut g = gateway();
    g.allow_access(ClientId(1), client_tun(), None, cidr(5, net(v4(10, 0, 0, 0), 24), vec![]), None).unwrap();
    let inbound = tcp(v4(10, 0, 0, 1), client(), 80, 5000);
    assert_eq!(g.handle_tun_input(inbound, 0), Ok(Some((ClientId(1), inbound))));
    let unknown = tcp(v4(10, 0, 0, 1), v4(100, 64, 0, 77), 80, 5000);
    assert_eq!(g.handle_tun_input(unknown, 0), Ok(None));

    let outbound = tcp(client(), v4(10, 0, 0, 1), 5000, 80);
    assert_eq!(g.handle_decapsulated(ClientId(1), outbound, 0), Ok(NetworkAction::WriteTun(outbound)));
    let denied = tcp(client(), v4(10, 0, 1, 1), 5000, 80);
    assert!(matches!(g.handle_decapsulated(ClientId(1), denied, 0), Ok(NetworkAction::Reply(ClientId(1), _))));
    assert_eq!(g.handle_decapsulated(ClientId(2), outbound, 0), Err(GatewayError::UnknownPeer(ClientId(2))));
}

#[test]
fn gateway_allow_access_with_dns_nat() {
    let mut g = gateway();
    let entry = DnsResourceNatEntry::new("foo.com".to_string(), vec![v4(100, 96, 0, 1)], vec![v4(10, 0, 0, 1)]);
    g.allow_access(ClientId(1), client_tun(), None, dns(3, "foo.com", vec![]), Some(entry)).unwrap();
    let out = udp(client(), v4(100, 96, 0, 1), 9, 53);
    assert_eq!(
        g.handle_decapsulated(ClientId(1), out, 0),
        Ok(NetworkAction::WriteTun(udp(client(), v4(10, 0, 0, 1), 9, 53)))
    );
}

#[test]
fn gateway_remove_access_forgets_empty_clients() {
    let mut g = gateway();
    g.allow_access(ClientId(1), client_tun(), None, internet(1), None).unwrap();
    g.allow_access(ClientId(1), client_tun(), None, cidr(2, net(v4(10, 0, 0, 0), 24), vec![]), None).unwrap();
    g.remove_access(ClientId(1), ResourceId(1));
    let pkt = udp(client(), v4(10, 0, 0, 1), 1, 1);
    assert!(g.handle_decapsulated(ClientId(1), pkt, 0).is_ok());
    g.remove_access(ClientId(1), ResourceId(2));
    assert_eq!(g.handle_decapsulated(ClientId(1), pkt, 0), Err(GatewayError::UnknownPeer(ClientId(1))));
    assert_eq!(
        g.update_access_authorization_expiry(ClientId(1), ResourceId(2), 5),
        Err(UnknownPeer(ClientId(1)))
    );
}

#[test]
fn gateway_expiry_pass() {
    let mut g = gateway();
    g.allow_access(ClientId(1), client_tun(), Some(10_000), internet(1), None).unwrap();
    assert_eq!(g.poll_timeout(None), None);
    g.handle_timeout(0, 0);
    assert_eq!(g.poll_timeout(None), Some(1000));
    assert_eq!(g.poll_timeout(Some(500)), Some(500));
    g.handle_timeout(1000, 5_000);
    let pkt = udp(client(), v4(1, 1, 1, 1), 1, 1);
    assert!(g.handle_decapsulated(ClientId(1), pkt, 1000).is_ok());
    g.handle_timeout(2000, 10_000);
    assert_eq!(g.handle_decapsulated(ClientId(1), pkt, 2000), Err(GatewayError::UnknownPeer(ClientId(1))));
    assert_eq!(g.poll_timeout(None), Some(3000));
}

#[test]
fn gateway_assigned_ips_and_resolution() {
    let mut g = gateway();
    g.allow_access(ClientId(1), client_tun(), None, dns(3, "*.foo.com", vec![]), None).unwrap();
    assert!(matches!(
        g.handle_assigned_ips(ClientId(1), ResourceId(4), "a.foo.com".to_string(), vec![v4(100, 96, 0, 1)]),
        Ok(ControlAction::Reply(NatStatus::Inactive))
    ));
    assert!(g.poll_event().is_none());
    assert!(matches!(
        g.handle_assigned_ips(ClientId(1), ResourceId(3), "a.foo.com".to_string(), vec![v4(100, 96, 0, 1)]),
        Ok(ControlAction::Queued)
    ));
    let req = match g.poll_event() {
        Some(GatewayEvent::ResolveDns(r)) => r,
        other => panic!("unexpected {other:?}"),
    };
    assert_eq!(req.domain(), "a.foo.com");
    assert!(g.poll_event().is_none());
    assert_eq!(g.handle_domain_resolved(req, Ok(vec![v4(10, 0, 0, 1)])), NatStatus::Active);
    let failed = ResolveDnsRequest {
        domain: "b.foo.com".to_string(),
        client: ClientId(1),
        resource: ResourceId(3),
        proxy_ips: vec![v4(100, 96, 0, 2)],
    };
    assert_eq!(g.handle_domain_resolved(failed, Err(())), NatStatus::Inactive);
    let unknown = ResolveDnsRequest {
        domain: "b.foo.com".to_string(),
        client: ClientId(9),
        resource: ResourceId(3),
        proxy_ips: vec![],
    };
    assert_eq!(g.handle_domain_resolved(unknown, Ok(vec![])), NatStatus::Inactive);
    assert!(g.handle_assigned_ips(ClientId(9), ResourceId(3), "x".to_string(), vec![]).is_err());
}

#[test]
fn gateway_retain_and_cleanup() {
    let mut g = gateway();
    g.allow_access(ClientId(1), client_tun(), None, cidr(2, net(v4(10, 0, 0, 0), 24), vec![]), None).unwrap();
    g.allow_access(ClientId(1), client_tun(), None, cidr(3, net(v4(10, 0, 1, 0), 24), vec![]), None).unwrap();
    g.retain_authorizations(&vec![(ClientId(1), vec![ResourceId(3)])]);
    assert!(matches!(
        g.handle_decapsulated(ClientId(1), udp(client(), v4(10, 0, 0, 1), 1, 1), 0),
        Ok(NetworkAction::Reply(_, _))
    ));
    g.update_resource(&cidr(3, net(v4(10, 0, 1, 0), 24), vec![udp_range(1, 1)]));
    assert!(matches!(
        g.handle_decapsulated(ClientId(1), udp(client(), v4(10, 0, 1, 1), 1, 2), 0),
        Ok(NetworkAction::Reply(_, _))
    ));
    g.cleanup_connection(ClientId(1));
    assert!(g.handle_decapsulated(ClientId(1), udp(client(), v4(10, 0, 1, 1), 1, 1), 0).is_err());
}

// ---- driver -----------------------------------------------------------------------------

#[test]
fn timer_is_reset_after_it_fires() {
    let mut t = Timer::new();
    let deadline = 1_000;
    t.reset_timeout(deadline);
    assert_eq!(t.poll(999), None);
    let timeout = t.poll(1_200).unwrap();
    assert!(timeout >= deadline, "timer expire after deadline");
    assert_eq!(t.poll(5_000), None);
    assert!(t.deadline().is_none());
}

#[test]
fn emits_now_in_case_timeout_is_in_the_past() {
    let now = 50_000;
    let mut t = Timer::new();
    t.reset_timeout(now - 10_000);
    let timeout = t.poll(now).unwrap();
    assert!(timeout >= now, "timeout = {timeout:?}, now = {now:?}");
}

#[test]
fn driver_serves_sources_in_order() {
    let nothing = Readiness {
        egress_pending: false,
        network: false,
        device: false,
        udp_dns_query: false,
        tcp_dns_query: false,
        dns_response: false,
        timer_fired: false,
    };
    assert_eq!(next_input(&nothing), None);
    let all = Readiness {
        network: true,
        device: true,
        udp_dns_query: true,
        tcp_dns_query: true,
        dns_response: true,
        timer_fired: true,
        ..nothing
    };
    assert_eq!(next_input(&all), Some(InputKind::Network));
    assert_eq!(next_input(&Readiness { egress_pending: true, ..all }), None);
    assert_eq!(next_input(&Readiness { network: false, ..all }), Some(InputKind::Device));
    assert_eq!(next_input(&Readiness { timer_fired: true, ..nothing }), Some(InputKind::Timeout));
    assert!(is_max_wg_packet_size(1000, 1000));
    assert!(!is_max_wg_packet_size(1001, 1000));
}

#[test]
fn resolver_merges_families() {
    let a = vec![v4(1, 1, 1, 1)];
    let b = vec![IpAddr::V6(1)];
    assert_eq!(merge_resolved::<u8>(Ok(a.clone()), Ok(b.clone())), Ok(vec![IpAddr::V6(1), v4(1, 1, 1, 1)]));
    assert_eq!(merge_resolved::<u8>(Ok(a.clone()), Err(2)), Ok(a.clone()));
    assert_eq!(merge_resolved::<u8>(Err(1), Ok(b.clone())), Ok(b));
    assert_eq!(merge_resolved::<u8>(Err(1), Err(2)), Err(1));
}

#[test]
fn setup_nat_pairs_in_ascending_order() {
    let mut p = peer();
    p.add_resource(dns(2, "foo.com", vec![]), None);
    let proxies = vec![v4(100, 96, 0, 3), v4(100, 96, 0, 1), v4(100, 96, 0, 2), v4(100, 96, 0, 1)];
    let resolved = vec![v4(10, 0, 0, 2), v4(10, 0, 0, 1), v4(10, 0, 0, 2)];
    p.setup_nat("foo.com".to_string(), ResourceId(2), resolved, proxies).unwrap();
    let send = |p: &mut ClientOnGateway, proxy: IpAddr| match p.translate_outbound(udp(client(), proxy, 1, 80), 0) {
        Ok(TranslateOutboundResult::Send(x)) => x.dst,
        other => panic!("unexpected {other:?}"),
    };
    assert_eq!(send(&mut p, v4(100, 96, 0, 1)), v4(10, 0, 0, 1));
    assert_eq!(send(&mut p, v4(100, 96, 0, 2)), v4(10, 0, 0, 2));
    assert_eq!(send(&mut p, v4(100, 96, 0, 3)), v4(10, 0, 0, 1));
}

#[test]
fn sorted_unique_orders_families() {
    let r = gateway_core::client::sorted_unique(&vec![IpAddr::V6(1), v4(9, 9, 9, 9), v4(1, 1, 1, 1), IpAddr::V6(1)]);
    assert_eq!(r, vec![v4(1, 1, 1, 1), v4(9, 9, 9, 9), IpAddr::V6(1)]);
}

#[test]
fn events_come_out_in_order() {
    let mut g = gateway();
    g.allow_access(ClientId(1), client_tun(), None, dns(3, "*.foo.com", vec![]), None).unwrap();
    g.handle_assigned_ips(ClientId(1), ResourceId(3), "a.foo.com".to_string(), vec![]).unwrap();
    g.handle_assigned_ips(ClientId(1), ResourceId(3), "b.foo.com".to_string(), vec![]).unwrap();
    let names: Vec<String> = std::iter::from_fn(|| g.poll_event())
        .map(|e| match e {
            GatewayEvent::ResolveDns(r) => r.domain().clone(),
            other => panic!("unexpected {other:?}"),
        })
        .collect();
    assert_eq!(names, vec!["a.foo.com".to_string(), "b.foo.com".to_string()]);
}
