use gateway_core::client::{ClientOnGateway, TranslateOutboundResult};
use gateway_core::filter::{Filter, PortRange};
use gateway_core::nat_table::UDP_TTL;
use gateway_core::net::{IpAddr, IpConfig, IpNetwork};
use gateway_core::packet::{IpPacket, Transport};
use gateway_core::resource::{
    ClientId, ResourceDescription, ResourceDescriptionCidr, ResourceDescriptionDns, ResourceDescriptionInternet,
    ResourceId,
};

fn v4(a: u8, b: u8, c: u8, d: u8) -> IpAddr {
    IpAddr::V4(u32::from_be_bytes([a, b, c, d]))
}

fn tcp_packet(src: IpAddr, dst: IpAddr, sport: u16, dport: u16) -> IpPacket {
    IpPacket { src, dst, transport: Transport::Tcp { sport, dport } }
}

fn udp_packet(src: IpAddr, dst: IpAddr, sport: u16, dport: u16) -> IpPacket {
    IpPacket { src, dst, transport: Transport::Udp { sport, dport } }
}

fn client_tun_ipv4() -> IpAddr {
    v4(100, 64, 0, 1)
}

fn gateway_tun_ipv4() -> IpAddr {
    v4(100, 64, 0, 2)
}

fn client_tun() -> IpConfig {
    IpConfig { v4: u32::from_be_bytes([100, 64, 0, 1]), v6: 0xfd00_2021_1111_0000_0000_0000_0000_0001 }
}

fn gateway_tun() -> IpConfig {
    IpConfig { v4: u32::from_be_bytes([100, 64, 0, 2]), v6: 0xfd00_2021_1111_0000_0000_0000_0000_0002 }
}

fn cidr_v4_resource() -> IpNetwork {
    IpNetwork::new(v4(10, 0, 0, 0), 24).unwrap()
}

fn cidr_v4_first_host() -> IpAddr {
    v4(10, 0, 0, 1)
}

fn resource_id() -> ResourceId {
    ResourceId(0x9d4b79f6_1db7_4cb3_a077_712102204d73)
}

fn resource2_id() -> ResourceId {
    ResourceId(0xed29c148_2acf_4ceb_8db5_d796c2671631)
}

fn client_id() -> ClientId {
    ClientId(0x9d4b79f6_1db7_4cb3_a077_712102204d73)
}

fn foo_allowed_port() -> u16 {
    80
}

fn bar_allowed_port() -> u16 {
    443
}

fn foo_real_ip1() -> IpAddr {
    v4(10, 0, 0, 1)
}

fn foo_real_ip2() -> IpAddr {
    v4(10, 0, 0, 2)
}

fn bar_contained_ip() -> IpAddr {
    v4(10, 0, 0, 1)
}

fn foo_proxy_ip1() -> IpAddr {
    v4(100, 96, 0, 1)
}

fn foo_proxy_ip2() -> IpAddr {
    v4(100, 96, 0, 2)
}

fn foo_name() -> String {
    "foo.com".to_string()
}

fn bar_address() -> IpNetwork {
    IpNetwork::new(v4(10, 0, 0, 0), 24).unwrap()
}

fn foo_dns_resource() -> ResourceDescription {
    ResourceDescription::Dns(ResourceDescriptionDns {
        id: resource_id(),
        address: foo_name(),
        name: "foo".to_string(),
        filters: vec![Filter::Udp(PortRange {
            port_range_end: foo_allowed_port(),
            port_range_start: foo_allowed_port(),
        })],
    })
}

fn bar_cidr_resource() -> ResourceDescription {
    ResourceDescription::Cidr(ResourceDescriptionCidr {
        id: resource2_id(),
        address: bar_address(),
        name: "foo".to_string(),
        filters: vec![Filter::Udp(PortRange {
            port_range_end: bar_allowed_port(),
            port_range_start: bar_allowed_port(),
        })],
    })
}

fn internet_resource() -> ResourceDescription {
    ResourceDescription::Internet(ResourceDescriptionInternet { id: ResourceId(0xed29c148_2acf_4ceb_8db5_d796c267163a) })
}

const NOW: i64 = 1_700_000_000_000;

#[test]
fn gateway_filters_expire_individually() {
    let mut peer = ClientOnGateway::new(client_id(), client_tun(), gateway_tun());
    let now = NOW;
    let then = now + 10_000;
    let after_then = then + 10_000;
    peer.add_resource(
        ResourceDescription::Cidr(ResourceDescriptionCidr {
            id: resource_id(),
            address: cidr_v4_resource(),
            name: "cidr1".to_owned(),
            filters: vec![Filter::Tcp(PortRange { port_range_start: 20, port_range_end: 100 })],
        }),
        Some(then),
    );
    peer.add_resource(
        ResourceDescription::Cidr(ResourceDescriptionCidr {
            id: resource2_id(),
            address: cidr_v4_resource(),
            name: "cidr2".to_owned(),
            filters: vec![Filter::Udp(PortRange { port_range_start: 20, port_range_end: 100 })],
        }),
        Some(after_then),
    );

    let tcp_packet = tcp_packet(client_tun_ipv4(), cidr_v4_first_host(), 5401, 80);
    let udp_packet = udp_packet(client_tun_ipv4(), cidr_v4_first_host(), 5401, 80);

    peer.expire_resources(now);

    assert!(peer.ensure_allowed_resource(tcp_packet.dst, tcp_packet.destination_protocol()).is_ok());
    assert!(peer.ensure_allowed_resource(udp_packet.dst, udp_packet.destination_protocol()).is_ok());

    peer.expire_resources(then);

    assert!(peer.ensure_allowed_resource(tcp_packet.dst, tcp_packet.destination_protocol()).is_err());
    assert!(peer.ensure_allowed_resource(udp_packet.dst, udp_packet.destination_protocol()).is_ok());

    peer.expire_resources(after_then);

    assert!(peer.ensure_allowed_resource(tcp_packet.dst, tcp_packet.destination_protocol()).is_err());
    assert!(peer.ensure_allowed_resource(udp_packet.dst, udp_packet.destination_protocol()).is_err());
}

#[test]
fn allows_packets_for_and_from_gateway_tun_ip() {
    let mut peer = ClientOnGateway::new(client_id(), client_tun(), gateway_tun());

    let request = tcp_packet(client_tun_ipv4(), gateway_tun_ipv4(), 5401, 80);
    let response = tcp_packet(gateway_tun_ipv4(), client_tun_ipv4(), 80, 5401);

    assert!(matches!(peer.translate_outbound(request, 0).unwrap(), TranslateOutboundResult::Send(_)));
    assert!(peer.translate_inbound(response, 0).unwrap().is_some());
}

#[test]
fn dns_and_cidr_filters_dot_mix() {
    let mut peer = ClientOnGateway::new(client_id(), client_tun(), gateway_tun());
    peer.add_resource(foo_dns_resource(), None);
    peer.add_resource(bar_cidr_resource(), None);
    peer.setup_nat(foo_name(), resource_id(), vec![foo_real_ip1()], vec![foo_proxy_ip1()]).unwrap();

    assert_eq!(bar_contained_ip(), foo_real_ip1());

    let pkt = udp_packet(client_tun_ipv4(), bar_contained_ip(), 1, bar_allowed_port());
    assert!(peer.translate_outbound(pkt, 0).is_ok());

    let pkt = udp_packet(client_tun_ipv4(), bar_contained_ip(), 1, foo_allowed_port());
    assert!(matches!(peer.translate_outbound(pkt, 0).unwrap(), TranslateOutboundResult::Filtered(_)));

    let pkt = udp_packet(client_tun_ipv4(), foo_proxy_ip1(), 1, bar_allowed_port());
    assert!(matches!(peer.translate_outbound(pkt, 0).unwrap(), TranslateOutboundResult::Filtered(_)));

    let pkt = udp_packet(client_tun_ipv4(), foo_proxy_ip1(), 1, foo_allowed_port());
    assert!(peer.translate_outbound(pkt, 0).is_ok());
}

#[test]
fn internet_resource_doesnt_allow_all_traffic_for_dns_resources() {
    let mut peer = ClientOnGateway::new(client_id(), client_tun(), gateway_tun());
    peer.add_resource(foo_dns_resource(), None);
    peer.add_resource(internet_resource(), None);
    peer.setup_nat(foo_name(), resource_id(), vec![foo_real_ip1()], vec![foo_proxy_ip1()]).unwrap();

    let pkt = udp_packet(client_tun_ipv4(), foo_proxy_ip1(), 1, foo_allowed_port());
    assert!(peer.translate_outbound(pkt, 0).is_ok());

    let pkt = udp_packet(client_tun_ipv4(), foo_proxy_ip1(), 1, 600);
    assert!(matches!(peer.translate_outbound(pkt, 0).unwrap(), TranslateOutboundResult::Filtered(_)));

    let pkt = udp_packet(client_tun_ipv4(), v4(1, 1, 1, 1), 1, 600);
    assert!(peer.translate_outbound(pkt, 0).is_ok());
}

#[test]
fn dns_resource_packet_is_dropped_after_nat_session_expires() {
    let mut peer = ClientOnGateway::new(client_id(), client_tun(), gateway_tun());
    peer.add_resource(foo_dns_resource(), None);
    peer.setup_nat(foo_name(), resource_id(), vec![foo_real_ip1()], vec![foo_proxy_ip1()]).unwrap();

    let request = udp_packet(client_tun_ipv4(), foo_proxy_ip1(), 1, foo_allowed_port());

    let mut now: u64 = 1_000_000;

    assert!(matches!(peer.translate_outbound(request, now), Ok(TranslateOutboundResult::Send(_))));

    let response = udp_packet(foo_real_ip1(), client_tun_ipv4(), foo_allowed_port(), 1);

    now += 30_000;
    peer.handle_timeout(now);

    assert!(
        matches!(peer.translate_inbound(response, now), Ok(Some(_))),
        "After 30s remote should still be able to send a packet back"
    );

    let response = udp_packet(foo_real_ip1(), client_tun_ipv4(), foo_allowed_port(), 1);

    now += UDP_TTL;
    peer.handle_timeout(now);

    assert!(
        matches!(peer.translate_inbound(response, now), Ok(None)),
        "After 1 minute of inactivity, NAT session should be freed"
    );
}

#[test]
fn setting_up_dns_resource_nat_does_not_clear_existing_nat_session() {
    let now: u64 = 1_000_000;

    let mut peer = ClientOnGateway::new(client_id(), client_tun(), gateway_tun());
    peer.add_resource(foo_dns_resource(), None);
    peer.setup_nat(foo_name(), resource_id(), vec![foo_real_ip1()], vec![foo_proxy_ip1(), foo_proxy_ip2()]).unwrap();

    let request = udp_packet(client_tun_ipv4(), foo_proxy_ip1(), 1, foo_allowed_port());

    let result = peer.translate_outbound(request, now).unwrap();

    assert!(matches!(result, TranslateOutboundResult::Send(_)));

    peer.setup_nat(
        foo_name(),
        resource_id(),
        vec![foo_real_ip2()], // Setting up with a new IP!
        vec![foo_proxy_ip1(), foo_proxy_ip2()],
    )
    .unwrap();

    let result = peer.translate_outbound(request, now).unwrap();

    assert!(matches!(result, TranslateOutboundResult::Send(_)));

    let response = udp_packet(foo_real_ip1(), client_tun_ipv4(), foo_allowed_port(), 1);

    let response = peer.translate_inbound(response, now).unwrap();

    assert!(response.is_some());
}
